use x3::crc::crc16;

#[test]
fn test_crc() {
    let header: [u8; 20] = [
        0x78, 0x33, // 'x3'
        0x01, 0x01, // Source id
        0x27, 0x10, // n bytes
        0x19, 0xd0, // n samples
        0x00, 0x00, // time
        0x00, 0x00, //   ..
        0x00, 0x00, //   ..
        0x00, 0x00, //   ..
        0xad, 0xdb, // Header crc
        0x6f, 0x61, // Payload crc
    ];

    assert_eq!(0xaddb, crc16(&header[0..16]));

    let payload: [u8; 150] = [
        0xf2, 0x2b, 0xf4, 0x86, 0xb0, 0xe1, 0x6e, 0xca, 0x9a, 0x35, 0x29, 0xa7, 0x51, 0xcd, 0xee, 0xd5, 0xc9, 0x30, 0x94,
        0x21, 0x38, 0xda, 0x56, 0x97, 0x84, 0x44, 0x93, 0xd9, 0x44, 0x60, 0xb4, 0x9c, 0x57, 0x34, 0xd2, 0x1d, 0x2b, 0x69,
        0x11, 0xe9, 0xd6, 0x9a, 0x46, 0xc4, 0x2d, 0xc2, 0x3e, 0x26, 0x25, 0x42, 0xd8, 0xcd, 0xd2, 0xfb, 0x66, 0x6a, 0xe7,
        0x7b, 0xa0, 0x57, 0x8b, 0x20, 0x42, 0xd2, 0x67, 0xf6, 0x67, 0xfa, 0xe5, 0x5a, 0xd6, 0x19, 0x17, 0x19, 0x79, 0xf5,
        0xfc, 0xdb, 0x38, 0xb3, 0x9b, 0x86, 0x5f, 0xcd, 0x2f, 0xa5, 0xf5, 0x3a, 0xcc, 0x62, 0x6e, 0xa3, 0x93, 0xeb, 0x43,
        0xb6, 0x29, 0xaa, 0x62, 0xc5, 0x07, 0xa0, 0xfd, 0x13, 0xdd, 0x40, 0x24, 0x2f, 0x49, 0xc4, 0x85, 0xfa, 0xcf, 0xd2,
        0x83, 0x14, 0x2d, 0x3a, 0x33, 0x0e, 0x4e, 0xf8, 0x11, 0x7a, 0xfc, 0x80, 0x3e, 0xf4, 0x6e, 0x2b, 0x48, 0x63, 0x80,
        0x36, 0xfd, 0x09, 0xec, 0x09, 0x2f, 0x58, 0x36, 0x08, 0x34, 0x0f, 0xb8, 0x1f, 0x60, 0x3f, 0x17, 0xc5,
    ];

    assert_eq!(2073, crc16(&payload));
}

#[test]
fn crc_header_vector() {
    let bytes: [u8; 16] = [
        0x78, 0x33, 0x01, 0x01, 0x27, 0x10, 0x19, 0xd0, 0, 0, 0, 0, 0, 0, 0, 0,
    ];
    assert_eq!(crc16(&bytes), 0xaddb);
}

#[test]
fn crc_of_empty_is_initial_value() {
    assert_eq!(crc16(&[]), 0xffff);
}

#[test]
fn crc_check_string() {
    // the standard check value of CRC-16/CCITT-FALSE
    assert_eq!(crc16(b"123456789"), 0x29b1);
}

#[test]
fn crc_is_order_dependent_and_deterministic() {
    let a = crc16(&[1, 2, 3, 4]);
    assert_eq!(a, crc16(&[1, 2, 3, 4]));
    assert_ne!(a, crc16(&[4, 3, 2, 1]));
}
