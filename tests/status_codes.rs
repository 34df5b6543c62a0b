use minimp4::status::{
    status_to_result, Minimp4Error, Minimp4ReturnCode, MP4E_STATUS_BAD_ARGUMENTS,
    MP4E_STATUS_FILE_WRITE_ERROR, MP4E_STATUS_NO_MEMORY, MP4E_STATUS_OK,
    MP4E_STATUS_ONLY_ONE_DSI_ALLOWED,
};

#[test]
fn error_codes_are_read() {
    assert_eq!(Minimp4Error::try_from(-1), Ok(Minimp4Error::BadArguments));
    assert_eq!(Minimp4Error::try_from(-2), Ok(Minimp4Error::NoMemory));
    assert_eq!(Minimp4Error::try_from(-3), Ok(Minimp4Error::FileWriteError));
    assert_eq!(Minimp4Error::try_from(-4), Ok(Minimp4Error::OnlyOneDsiAllowed));
    assert_eq!(Minimp4Error::try_from(0), Err(()));
    assert_eq!(Minimp4Error::try_from(-5), Err(()));
    assert_eq!(Minimp4Error::try_from(7), Err(()));
}

#[test]
fn error_codes_round_trip() {
    for e in [
        Minimp4Error::BadArguments,
        Minimp4Error::NoMemory,
        Minimp4Error::FileWriteError,
        Minimp4Error::OnlyOneDsiAllowed,
    ] {
        assert_eq!(Minimp4Error::try_from(e.code()), Ok(e));
    }
    assert_eq!(Minimp4Error::NoMemory.code(), MP4E_STATUS_NO_MEMORY);
}

#[test]
fn return_codes_are_read() {
    assert_eq!(Minimp4ReturnCode::try_from(MP4E_STATUS_OK), Ok(Minimp4ReturnCode::Success));
    assert_eq!(
        Minimp4ReturnCode::try_from(MP4E_STATUS_FILE_WRITE_ERROR),
        Ok(Minimp4ReturnCode::Failure(Minimp4Error::FileWriteError))
    );
    assert_eq!(Minimp4ReturnCode::try_from(3), Err(()));
}

#[test]
fn return_codes_become_results() {
    assert_eq!(Minimp4ReturnCode::Success.into_result(), Ok(()));
    assert_eq!(
        Minimp4ReturnCode::Failure(Minimp4Error::OnlyOneDsiAllowed).into_result(),
        Err(Minimp4Error::OnlyOneDsiAllowed)
    );
    assert_eq!(status_to_result(MP4E_STATUS_OK), Ok(()));
    assert_eq!(status_to_result(MP4E_STATUS_ONLY_ONE_DSI_ALLOWED), Err(Minimp4Error::OnlyOneDsiAllowed));
    assert_eq!(status_to_result(MP4E_STATUS_BAD_ARGUMENTS), Err(Minimp4Error::BadArguments));
    assert_eq!(status_to_result(42), Err(Minimp4Error::BadArguments));
}
