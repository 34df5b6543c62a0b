use minimp4::annexb::{classify, find_start_code, split_nal_units, NalClass, NalUnit};

const STREAM: [u8; 30] = [
    0, 0, 0, 1, 0x67, 0x42, 0x00, 0x1f, // SPS
    0, 0, 0, 1, 0x68, 0xce, 0x3c, 0x80, // PPS
    0, 0, 1, 0x65, 0x88, 0x84, 0x21, // IDR slice
    0, 0, 0, 1, 0x41, 0x9a, 0x22, // P slice
];

#[test]
fn start_codes_are_found() {
    assert_eq!(find_start_code(&STREAM, 0), 1);
    assert_eq!(find_start_code(&STREAM, 2), 9);
    assert_eq!(find_start_code(&STREAM, 10), 16);
    assert_eq!(find_start_code(&STREAM, 28), STREAM.len());
    assert_eq!(find_start_code(&STREAM, 100), STREAM.len());
    assert_eq!(find_start_code(&[0u8; 100], 0), 100);
    assert_eq!(find_start_code(&[], 0), 0);
}

#[test]
fn units_are_split_without_trailing_zeros() {
    let units = split_nal_units(&STREAM);
    assert_eq!(
        units,
        vec![
            NalUnit { start: 4, end: 8 },
            NalUnit { start: 12, end: 16 },
            NalUnit { start: 19, end: 23 },
            NalUnit { start: 27, end: 30 },
        ]
    );
}

#[test]
fn buffer_without_start_code_has_no_units() {
    assert!(split_nal_units(&[0u8; 100]).is_empty());
    assert!(split_nal_units(&[]).is_empty());
    // a start code with nothing behind it
    assert!(split_nal_units(&[0, 0, 1]).is_empty());
    assert!(split_nal_units(&[0, 0, 1, 0, 0, 1]).is_empty());
}

#[test]
fn avc_units_are_classified() {
    let units = split_nal_units(&STREAM);
    assert_eq!(classify(&STREAM, units[0], false), NalClass::ParameterSet);
    assert_eq!(classify(&STREAM, units[1], false), NalClass::ParameterSet);
    assert_eq!(classify(&STREAM, units[2], false), NalClass::Slice { key: true, first: true });
    assert_eq!(classify(&STREAM, units[3], false), NalClass::Slice { key: false, first: true });
    let other = [0, 0, 1, 0x09, 0xf0, 0, 0, 1, 0x41, 0x7f, 0, 0, 1, 0x41, 0, 0, 1, 0x18, 0x01];
    let u = split_nal_units(&other);
    assert_eq!(u.len(), 4);
    assert_eq!(classify(&other, u[0], false), NalClass::Other);
    assert_eq!(classify(&other, u[1], false), NalClass::Slice { key: false, first: false });
    assert_eq!(classify(&other, u[2], false), NalClass::Truncated);
    assert_eq!(classify(&other, u[3], false), NalClass::Unsupported);
}

#[test]
fn hevc_units_are_classified() {
    let data = [
        0, 0, 1, 0x40, 0x01, 0x0c, // VPS (32)
        0, 0, 1, 0x42, 0x01, 0x01, // SPS (33)
        0, 0, 1, 0x44, 0x01, 0xc1, // PPS (34)
        0, 0, 1, 0x26, 0x01, 0xaf, // IDR_W_RADL (19)
        0, 0, 1, 0x02, 0x01, 0x50, // TRAIL_R (1), not first in picture
        0, 0, 1, 0x4e, 0x01, 0x05, // SEI (39)
        0, 0, 1, 0x60, 0x01, 0x05, // unspecified (48)
        0, 0, 1, 0x02, 0x01, // TRAIL_R, truncated
    ];
    let u = split_nal_units(&data);
    assert_eq!(u.len(), 8);
    assert_eq!(classify(&data, u[0], true), NalClass::ParameterSet);
    assert_eq!(classify(&data, u[1], true), NalClass::ParameterSet);
    assert_eq!(classify(&data, u[2], true), NalClass::ParameterSet);
    assert_eq!(classify(&data, u[3], true), NalClass::Slice { key: true, first: true });
    assert_eq!(classify(&data, u[4], true), NalClass::Slice { key: false, first: false });
    assert_eq!(classify(&data, u[5], true), NalClass::Other);
    assert_eq!(classify(&data, u[6], true), NalClass::Unsupported);
    assert_eq!(classify(&data, u[7], true), NalClass::Truncated);
}
