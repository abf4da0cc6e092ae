use libkrebs::util::{read_u32_le, u32_to_bytes};

#[test]
fn typecast_works() {
    let bytes: [u8; 4] = [0x01, 0x01, 0x01, 0x00];
    let u32_from_bytes: u32 = read_u32_le(&bytes, 0);

    // The bytes are read little-endian.
    assert_eq!(u32_from_bytes, 0x00010101);

    let bytes_from_u32: Vec<u8> = u32_to_bytes(0x00010101);
    assert_eq!(bytes_from_u32.len(), 4);
    assert!(bytes.iter().zip(bytes_from_u32.iter()).all(|(a, b)| a == b))
}
