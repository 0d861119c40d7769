use openmediatransport::protocol::binary::{
    read_i32, read_i64, read_u16, read_u32, write_i32, write_i64, write_u16, write_u32,
};

#[test]
fn binary_fields_read_back_in_order() {
    let mut buf: Vec<u8> = Vec::new();
    write_i32(&mut buf, -2);
    write_i64(&mut buf, 10_000_000);
    write_u16(&mut buf, 0xBEEF);
    write_u32(&mut buf, 0x0102_0304);
    assert_eq!(&buf[0..4], &[0xFE, 0xFF, 0xFF, 0xFF]);
    assert_eq!(&buf[14..18], &[0x04, 0x03, 0x02, 0x01]);
    assert_eq!(read_i32(&mut buf), -2);
    assert_eq!(read_i64(&mut buf), 10_000_000);
    assert_eq!(read_u16(&mut buf), 0xBEEF);
    assert_eq!(read_u32(&mut buf), 0x0102_0304);
    assert!(buf.is_empty());
}
