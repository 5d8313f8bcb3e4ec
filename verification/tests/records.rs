use dmbf::AccessError;
use dmbf::BitfieldAttr;
use dmbf::Endianness;
use dmbf::FieldDecl;
use dmbf::RecordView;
use dmbf::layout::build_layout;

fn open_attr() -> BitfieldAttr {
    BitfieldAttr {
        bits: None,
        default_value: None,
        endianness: None,
        from_into: false,
        has_from: false,
        has_into: false,
    }
}

fn record_endianness(e: Endianness) -> BitfieldAttr {
    BitfieldAttr { endianness: Some(e), ..open_attr() }
}

fn plain(target_bits: u64) -> FieldDecl {
    FieldDecl { attr: open_attr(), target_bits }
}

fn sub_byte(bits: u64) -> FieldDecl {
    FieldDecl {
        attr: BitfieldAttr { bits: Some(bits), from_into: true, ..open_attr() },
        target_bits: 8,
    }
}

/// A fourteen-byte header: two six-byte addresses and a big-endian two-byte
/// type field.
#[test]
fn ethernet_like_record() {
    let decls = vec![plain(48), plain(48), plain(16)];
    let layout = build_layout(&decls, &record_endianness(Endianness::Msb0)).unwrap();
    let data: Vec<u8> =
        vec![0x00, 0x01, 0x02, 0x03, 0x04, 0x05, 0x06, 0x07, 0x08, 0x09, 0x0A, 0x0B, 0x08, 0x00];
    let view = RecordView::bind(layout, &data).unwrap();
    assert_eq!(view.total_size(), 14);
    assert_eq!(view.num_fields(), 3);
    assert_eq!(view.get(&data, 0), 0x0001_0203_0405);
    assert_eq!(view.get(&data, 1), 0x0607_0809_0A0B);
    assert_eq!(view.get(&data, 2), 0x0800);
}

/// A twenty-byte header whose first byte packs two four-bit fields; setting
/// the first field and resetting it restores its declared default.
#[test]
fn packed_nibbles_record() {
    let version = FieldDecl {
        attr: BitfieldAttr { bits: Some(4), default_value: Some(4), ..open_attr() },
        target_bits: 8,
    };
    let ihl = FieldDecl { attr: BitfieldAttr { bits: Some(4), ..open_attr() }, target_bits: 8 };
    let flags = FieldDecl {
        attr: BitfieldAttr { bits: Some(3), from_into: true, ..open_attr() },
        target_bits: 8,
    };
    let frag_off = FieldDecl { attr: BitfieldAttr { bits: Some(13), ..open_attr() }, target_bits: 16 };
    let decls = vec![
        version,
        ihl,
        plain(8),  // type of service
        plain(16), // total length
        plain(16), // identification
        flags,
        frag_off,
        plain(8),  // time to live
        plain(8),  // protocol
        plain(16), // checksum
        plain(32), // source address
        plain(32), // destination address
    ];
    let layout = build_layout(&decls, &record_endianness(Endianness::Msb0)).unwrap();
    let mut data = vec![0u8; 20];
    data[0] = 0x45;
    let view = RecordView::bind(layout, &data).unwrap();
    assert_eq!(view.total_size(), 20);
    assert_eq!(view.get(&data, 0), 4);
    assert_eq!(view.get(&data, 1), 5);
    view.set(&mut data, 0, 5);
    assert_eq!(view.get(&data, 0), 5);
    assert_eq!(view.get(&data, 1), 5);
    assert_eq!(data[0], 0x55);
    view.reset(&mut data, 0);
    assert_eq!(view.get(&data, 0), 4);
    assert_eq!(view.get(&data, 1), 5);
    assert_eq!(data[0], 0x45);
}

/// A two-byte group of a one-bit and a fifteen-bit field, most significant
/// end first.
#[test]
fn one_and_fifteen_msb_first() {
    let decls = vec![sub_byte(1), plain_fifteen()];
    let layout = build_layout(&decls, &record_endianness(Endianness::Msb0)).unwrap();
    let data: Vec<u8> = vec![0x80, 0x01];
    let view = RecordView::bind(layout, &data).unwrap();
    assert_eq!(view.get(&data, 0), 1);
    assert_eq!(view.get(&data, 1), 0x0001);
}

fn plain_fifteen() -> FieldDecl {
    FieldDecl { attr: BitfieldAttr { bits: Some(15), ..open_attr() }, target_bits: 16 }
}

/// The same declaration, least significant end first: the wire bytes
/// `0x80, 0x01` stand for `i = 0x8001`, and the fields read as the formulas
/// say.
#[test]
fn one_and_fifteen_lsb_first() {
    let decls = vec![sub_byte(1), plain_fifteen()];
    let layout = build_layout(&decls, &record_endianness(Endianness::Lsb0)).unwrap();
    let data: Vec<u8> = vec![0x80, 0x01];
    let view = RecordView::bind(layout, &data).unwrap();
    let i: u64 = 0x8001;
    assert_eq!(view.get(&data, 0), (i & 0x0080) >> 7);
    assert_eq!(view.get(&data, 1), ((i & 0xFF00) >> 8) | ((i & 0x007F) << 8));
}

/// Binding a four-byte layout to a three-byte buffer fails.
#[test]
fn bind_too_short_buffer() {
    let layout = build_layout(&vec![plain(32)], &open_attr()).unwrap();
    let data = vec![0u8; 3];
    match RecordView::bind(layout, &data) {
        Err(e) => assert_eq!(e, AccessError::BufferTooShort),
        Ok(_) => panic!("a three-byte buffer must not bind a four-byte layout"),
    }
}

/// Materializing copies exactly the record's bytes, and refuses a buffer of
/// any other length rather than copying a wrong-sized array.
#[test]
fn materialize_checks_length() {
    let layout = build_layout(&vec![plain(16)], &open_attr()).unwrap();
    let long = vec![1u8, 2, 3];
    let view = RecordView::bind(layout, &long).unwrap();
    match view.materialize(&long) {
        Err(e) => assert_eq!(e, AccessError::LengthMismatch),
        Ok(_) => panic!("a longer buffer must not materialize"),
    }
    let exact = vec![1u8, 2];
    assert_eq!(view.materialize(&exact).unwrap(), vec![1u8, 2]);
}

/// Round trip: every value representable in a field's bit width reads back
/// exactly; an oversized value is truncated to the field's bits.
#[test]
fn set_then_get_round_trip() {
    let decls = vec![sub_byte(1), plain_fifteen()];
    let layout = build_layout(&decls, &record_endianness(Endianness::Msb0)).unwrap();
    let mut data: Vec<u8> = vec![0xAA, 0x55];
    let view = RecordView::bind(layout, &data).unwrap();
    for v in [0u64, 1, 2, 0x1234, 0x7FFF] {
        view.set(&mut data, 1, v);
        assert_eq!(view.get(&data, 1), v);
    }
    view.set(&mut data, 0, 1);
    assert_eq!(view.get(&data, 0), 1);
    assert_eq!(view.get(&data, 1), 0x7FFF);
    // Bits beyond the field's width are dropped, not smeared over siblings.
    view.set(&mut data, 1, 0xFFFF);
    assert_eq!(view.get(&data, 1), 0x7FFF);
    assert_eq!(view.get(&data, 0), 1);
}

/// A declared default is truncated to the field's bit width, and a field
/// without one defaults to zero.
#[test]
fn reset_uses_truncated_default() {
    let wide_default = FieldDecl {
        attr: BitfieldAttr {
            bits: Some(4),
            default_value: Some(0x35),
            from_into: true,
            ..open_attr()
        },
        target_bits: 8,
    };
    let rest = FieldDecl { attr: BitfieldAttr { bits: Some(12), ..open_attr() }, target_bits: 16 };
    let layout =
        build_layout(&vec![wide_default, rest], &record_endianness(Endianness::Msb0)).unwrap();
    let mut data: Vec<u8> = vec![0xFF, 0xFF];
    let view = RecordView::bind(layout, &data).unwrap();
    view.reset(&mut data, 0);
    assert_eq!(view.get(&data, 0), 5);
    assert_eq!(view.get(&data, 1), 0x0FFF);
    view.reset(&mut data, 1);
    assert_eq!(view.get(&data, 1), 0);
    assert_eq!(view.get(&data, 0), 5);
}

/// A field's own endianness setting wins over the record-wide one.
#[test]
fn per_field_endianness_override() {
    let little = FieldDecl {
        attr: BitfieldAttr { endianness: Some(Endianness::Lsb0), ..open_attr() },
        target_bits: 16,
    };
    let decls = vec![plain(16), little];
    let layout = build_layout(&decls, &record_endianness(Endianness::Msb0)).unwrap();
    let data: Vec<u8> = vec![0x01, 0x02, 0x03, 0x04];
    let view = RecordView::bind(layout, &data).unwrap();
    assert_eq!(view.get(&data, 0), 0x0102);
    assert_eq!(view.get(&data, 1), 0x0403);
}

/// Writing one field leaves its siblings and the other groups untouched.
#[test]
fn group_non_interference() {
    let decls = vec![sub_byte(3), sub_byte(6), sub_byte(7), plain(8)];
    let layout = build_layout(&decls, &record_endianness(Endianness::Msb0)).unwrap();
    let mut data: Vec<u8> = vec![0, 0, 0];
    let view = RecordView::bind(layout, &data).unwrap();
    view.set(&mut data, 0, 0b101);
    view.set(&mut data, 1, 0b110011);
    view.set(&mut data, 2, 0b1010101);
    view.set(&mut data, 3, 0xEE);
    assert_eq!(view.get(&data, 0), 0b101);
    assert_eq!(view.get(&data, 1), 0b110011);
    assert_eq!(view.get(&data, 2), 0b1010101);
    assert_eq!(view.get(&data, 3), 0xEE);
    view.set(&mut data, 1, 0);
    assert_eq!(view.get(&data, 0), 0b101);
    assert_eq!(view.get(&data, 1), 0);
    assert_eq!(view.get(&data, 2), 0b1010101);
    assert_eq!(view.get(&data, 3), 0xEE);
}
