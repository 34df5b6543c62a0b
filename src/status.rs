//! Status codes returned by the box-writing engine, and their mapping to errors.
use vstd::prelude::*;

verus! {

/// The engine's success code.
pub const MP4E_STATUS_OK: i32 = 0;

/// The engine's code for rejected arguments.
pub const MP4E_STATUS_BAD_ARGUMENTS: i32 = -1;

/// The engine's code for a failed allocation.
pub const MP4E_STATUS_NO_MEMORY: i32 = -2;

/// The engine's code for a short or failed write to the sink.
pub const MP4E_STATUS_FILE_WRITE_ERROR: i32 = -3;

/// The engine's code for a second decoder-specific-info record.
pub const MP4E_STATUS_ONLY_ONE_DSI_ALLOWED: i32 = -4;

/// An error status of the engine.
#[derive(Debug, Clone, Copy, PartialEq, Eq, Structural)]
pub enum Minimp4Error {
    BadArguments,
    NoMemory,
    FileWriteError,
    OnlyOneDsiAllowed,
}

/// Any status of the engine: success, or one of its errors.
#[derive(Debug, Clone, Copy, PartialEq, Eq, Structural)]
pub enum Minimp4ReturnCode {
    Success,
    Failure(Minimp4Error),
}

pub type Minimp4Result<T> = Result<T, Minimp4Error>;

/// The error that a status code stands for, if it is one of the known error codes.
pub open spec fn error_of_code(value: i32) -> Option<Minimp4Error> {
    if value == MP4E_STATUS_BAD_ARGUMENTS {
        Some(Minimp4Error::BadArguments)
    } else if value == MP4E_STATUS_NO_MEMORY {
        Some(Minimp4Error::NoMemory)
    } else if value == MP4E_STATUS_FILE_WRITE_ERROR {
        Some(Minimp4Error::FileWriteError)
    } else if value == MP4E_STATUS_ONLY_ONE_DSI_ALLOWED {
        Some(Minimp4Error::OnlyOneDsiAllowed)
    } else {
        None
    }
}

/// The code that stands for an error.
pub open spec fn code_of_error(e: Minimp4Error) -> i32 {
    match e {
        Minimp4Error::BadArguments => MP4E_STATUS_BAD_ARGUMENTS,
        Minimp4Error::NoMemory => MP4E_STATUS_NO_MEMORY,
        Minimp4Error::FileWriteError => MP4E_STATUS_FILE_WRITE_ERROR,
        Minimp4Error::OnlyOneDsiAllowed => MP4E_STATUS_ONLY_ONE_DSI_ALLOWED,
    }
}

impl Minimp4Error {
    /// Reads an error code; any other value is refused.
    pub fn try_from(value: i32) -> (r: Result<Minimp4Error, ()>)
        ensures
            r == (match error_of_code(value) {
                Some(e) => Ok::<Minimp4Error, ()>(e),
                None => Err(()),
            }),
    {
        if value == MP4E_STATUS_BAD_ARGUMENTS {
            Ok(Minimp4Error::BadArguments)
        } else if value == MP4E_STATUS_NO_MEMORY {
            Ok(Minimp4Error::NoMemory)
        } else if value == MP4E_STATUS_FILE_WRITE_ERROR {
            Ok(Minimp4Error::FileWriteError)
        } else if value == MP4E_STATUS_ONLY_ONE_DSI_ALLOWED {
            Ok(Minimp4Error::OnlyOneDsiAllowed)
        } else {
            Err(())
        }
    }

    /// The engine's code for this error.
    pub fn code(&self) -> (r: i32)
        ensures
            r == code_of_error(*self),
            error_of_code(r) == Some(*self),
    {
        match self {
            Minimp4Error::BadArguments => MP4E_STATUS_BAD_ARGUMENTS,
            Minimp4Error::NoMemory => MP4E_STATUS_NO_MEMORY,
            Minimp4Error::FileWriteError => MP4E_STATUS_FILE_WRITE_ERROR,
            Minimp4Error::OnlyOneDsiAllowed => MP4E_STATUS_ONLY_ONE_DSI_ALLOWED,
        }
    }
}

impl Minimp4ReturnCode {
    /// Reads a status code: success, a known error, or refused.
    pub fn try_from(value: i32) -> (r: Result<Minimp4ReturnCode, ()>)
        ensures
            value == MP4E_STATUS_OK ==> r == Ok::<Minimp4ReturnCode, ()>(Minimp4ReturnCode::Success),
            value != MP4E_STATUS_OK ==> r == (match error_of_code(value) {
                Some(e) => Ok::<Minimp4ReturnCode, ()>(Minimp4ReturnCode::Failure(e)),
                None => Err(()),
            }),
    {
        if value == MP4E_STATUS_OK {
            Ok(Minimp4ReturnCode::Success)
        } else {
            match Minimp4Error::try_from(value) {
                Ok(e) => Ok(Minimp4ReturnCode::Failure(e)),
                Err(()) => Err(()),
            }
        }
    }

    /// The status as a result: `Ok(())` on success, else the error.
    pub fn into_result(self) -> (r: Minimp4Result<()>)
        ensures
            r == (match self {
                Minimp4ReturnCode::Success => Ok::<(), Minimp4Error>(()),
                Minimp4ReturnCode::Failure(e) => Err(e),
            }),
    {
        match self {
            Minimp4ReturnCode::Failure(e) => Err(e),
            Minimp4ReturnCode::Success => Ok(()),
        }
    }
}

/// Reads a status code as a result: `Ok(())` for success, the error for a
/// known error code, `Err(BadArguments)` for any other value.
pub fn status_to_result(value: i32) -> (r: Minimp4Result<()>)
    ensures
        value == MP4E_STATUS_OK ==> r == Ok::<(), Minimp4Error>(()),
        value != MP4E_STATUS_OK ==> r == Err::<(), Minimp4Error>(
            match error_of_code(value) {
                Some(e) => e,
                None => Minimp4Error::BadArguments,
            },
        ),
{
    match Minimp4ReturnCode::try_from(value) {
        Ok(c) => c.into_result(),
        Err(()) => Err(Minimp4Error::BadArguments),
    }
}

} // verus!
