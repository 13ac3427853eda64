use rustmine::varint::{read_var_i32, read_var_i64, read_var_u32, read_var_u64, write_var_i32, write_var_i64, write_var_u32, write_var_u64};

#[test]
fn var_u32_roundtrip() {
    for v in [0u32, 1, 127, 128, 255, 16384, 1_000_000, u32::MAX] {
        let mut buf = Vec::new();
        write_var_u32(&mut buf, v);
        let mut pos = 0;
        assert_eq!(read_var_u32(&buf, &mut pos).unwrap(), v);
        assert_eq!(pos, buf.len());
    }
}

#[test]
fn var_i32_roundtrip() {
    for v in [0i32, -1, 1, -64, 64, -1_000_000, 1_000_000, i32::MIN, i32::MAX] {
        let mut buf = Vec::new();
        write_var_i32(&mut buf, v);
        let mut pos = 0;
        assert_eq!(read_var_i32(&buf, &mut pos).unwrap(), v);
        assert_eq!(pos, buf.len());
    }
}

#[test]
fn var_i64_roundtrip() {
    for v in [0i64, -1, 1, i64::MIN, i64::MAX] {
        let mut buf = Vec::new();
        write_var_i64(&mut buf, v);
        let mut pos = 0;
        assert_eq!(read_var_i64(&buf, &mut pos).unwrap(), v);
    }
}

#[test]
fn var_u32_exact_bytes() {
    let mut buf = Vec::new();
    write_var_u32(&mut buf, 300);
    assert_eq!(buf, vec![0xac, 0x02]);
    let mut buf = Vec::new();
    write_var_i32(&mut buf, -1);
    assert_eq!(buf, vec![0x01]);
    let mut buf = Vec::new();
    write_var_i32(&mut buf, 1);
    assert_eq!(buf, vec![0x02]);
}

#[test]
fn var_u64_roundtrip_and_errors() {
    let mut buf = Vec::new();
    write_var_u64(&mut buf, u64::MAX);
    assert_eq!(buf.len(), 10);
    let mut pos = 0;
    assert_eq!(read_var_u64(&buf, &mut pos).unwrap(), u64::MAX);
    let mut pos = 0;
    assert!(read_var_u32(&[0x80, 0x80], &mut pos).is_err());
    let mut pos = 0;
    assert!(read_var_u32(&[0xff, 0xff, 0xff, 0xff, 0xff, 0x01], &mut pos).is_err());
}

#[test]
fn var_u64_length_follows_seven_bit_groups() {
    let cases: [(u64, usize); 8] = [
        (0, 1),
        (127, 1),
        (128, 2),
        (16383, 2),
        (16384, 3),
        ((1 << 56) - 1, 8),
        (1 << 63, 10),
        (u64::MAX, 10),
    ];
    for (v, len) in cases {
        let mut buf = Vec::new();
        write_var_u64(&mut buf, v);
        assert_eq!(buf.len(), len);
    }
}

#[test]
fn zigzag_values() {
    for (v, b) in [(0i32, vec![0u8]), (-1, vec![1]), (1, vec![2]), (-2, vec![3]), (i32::MIN, vec![0xff, 0xff, 0xff, 0xff, 0x0f])] {
        let mut buf = Vec::new();
        write_var_i32(&mut buf, v);
        assert_eq!(buf, b);
        let mut pos = 0;
        assert_eq!(read_var_i32(&buf, &mut pos).unwrap(), v);
    }
    let mut pos = 0;
    assert_eq!(read_var_i32(&[0xff, 0xff, 0xff, 0xff, 0x0f], &mut pos).unwrap(), i32::MIN);
    let mut pos = 0;
    assert_eq!(read_var_i32(&[0xfe, 0xff, 0xff, 0xff, 0x0f], &mut pos).unwrap(), i32::MAX);
}
