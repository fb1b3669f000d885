use codecrafters_kafka::wire::{push_bytes, push_i16_be, push_i32_be, push_u32_be, ByteCursor};

#[test]
fn cursor_reads_big_endian_integers() {
    let data = [
        0x01, 0xff, 0x80, 0x00, 0x01, 0x02, 0x03, 0x04, 0xff, 0xff, 0xff, 0xfe, 0x00, 0x00, 0x00, 0x00, 0x00,
        0x00, 0x01, 0x00,
    ];
    let mut c = ByteCursor::new(&data);
    assert_eq!(c.read_u8(), Some(0x01));
    assert_eq!(c.read_i8(), Some(-1));
    assert_eq!(c.read_i16(), Some(-32768));
    assert_eq!(c.read_u32(), Some(0x0102_0304));
    assert_eq!(c.read_i32(), Some(-2));
    assert_eq!(c.read_u64(), Some(0x100));
    assert_eq!(c.position(), 20);
    assert_eq!(c.remaining(), 0);
    assert!(!c.has_remaining());
}

#[test]
fn cursor_read_past_end_leaves_position() {
    let data = [0x12, 0x34, 0x56];
    let mut c = ByteCursor::new(&data);
    assert_eq!(c.read_u32(), None);
    assert_eq!(c.position(), 0);
    assert_eq!(c.read_u16(), Some(0x1234));
    assert_eq!(c.read_u16(), None);
    assert_eq!(c.position(), 2);
    assert_eq!(c.read_i64(), None);
    assert_eq!(c.read_u64(), None);
}

#[test]
fn cursor_past_the_end_has_nothing_left() {
    let data = [1u8, 2, 3];
    let mut c = ByteCursor::new(&data);
    c.set_position(10);
    assert_eq!(c.remaining(), 0);
    assert_eq!(c.chunk(), &[] as &[u8]);
    assert_eq!(c.read_u8(), None);
    c.advance(0);
    assert_eq!(c.position(), 10);
    c.set_position(1);
    assert_eq!(c.chunk(), &[2u8, 3]);
    c.advance(2);
    assert_eq!(c.position(), 3);
}

#[test]
fn cursor_reads_signed_64() {
    let data = [0xffu8; 8];
    let mut c = ByteCursor::new(&data);
    assert_eq!(c.read_i64(), Some(-1));
}

#[test]
fn encoders_write_big_endian() {
    let mut out = Vec::new();
    push_i32_be(&mut out, -2);
    push_i16_be(&mut out, 0x1234);
    push_i16_be(&mut out, -1);
    push_u32_be(&mut out, 0xdead_beef);
    push_bytes(&mut out, &[7, 8]);
    assert_eq!(
        out,
        vec![0xff, 0xff, 0xff, 0xfe, 0x12, 0x34, 0xff, 0xff, 0xde, 0xad, 0xbe, 0xef, 7, 8]
    );
}

#[test]
fn integer_encoding_round_trips() {
    for v in [i32::MIN, -70000, -1, 0, 1, 35, 70000, i32::MAX] {
        let mut out = Vec::new();
        push_i32_be(&mut out, v);
        let mut c = ByteCursor::new(&out);
        assert_eq!(c.read_i32(), Some(v));
    }
    for v in [i16::MIN, -1, 0, 3, i16::MAX] {
        let mut out = Vec::new();
        push_i16_be(&mut out, v);
        let mut c = ByteCursor::new(&out);
        assert_eq!(c.read_i16(), Some(v));
    }
}
