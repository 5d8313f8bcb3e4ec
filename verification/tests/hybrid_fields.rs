use dmbf::BitfieldAttr;
use dmbf::Endianness;
use dmbf::FieldDecl;
use dmbf::RecordView;
use dmbf::layout::build_layout;

fn open_attr() -> BitfieldAttr {
    BitfieldAttr {
        bits: None,
        default_value: None,
        endianness: None,
        from_into: false,
        has_from: false,
        has_into: false,
    }
}

fn record_endianness(e: Endianness) -> BitfieldAttr {
    BitfieldAttr { endianness: Some(e), ..open_attr() }
}

/// A one-bit and a fifteen-bit field packed into one two-byte group, the
/// one-bit field narrowed to a byte-wide logical type.
fn one_and_fifteen() -> Vec<FieldDecl> {
    vec![
        FieldDecl {
            attr: BitfieldAttr { bits: Some(1), from_into: true, has_from: true, ..open_attr() },
            target_bits: 8,
        },
        FieldDecl { attr: BitfieldAttr { bits: Some(15), ..open_attr() }, target_bits: 16 },
    ]
}

#[test]
fn hybrid_fields_u16() {
    let layout = build_layout(&one_and_fifteen(), &record_endianness(Endianness::Msb0)).unwrap();
    let probe = vec![0u8, 0u8];
    let foo = RecordView::bind(layout, &probe).unwrap();
    for i in 0u16..=0xFFFF {
        let data: Vec<u8> = i.to_be_bytes().to_vec();
        assert_eq!(foo.get(&data, 0), (((i & 0x8000) >> 15) as u8) as u64);
        assert_eq!(foo.get(&data, 1), (i & 0x7FFF) as u64);
    }

    let layout = build_layout(&one_and_fifteen(), &record_endianness(Endianness::Lsb0)).unwrap();
    let bar = RecordView::bind(layout, &probe).unwrap();
    for i in 0u16..=0xFFFF {
        let data: Vec<u8> = i.to_be_bytes().to_vec();
        assert_eq!(bar.get(&data, 0), (((i & 0x0080) >> 7) as u8) as u64);
        assert_eq!(bar.get(&data, 1), (((i & 0xFF00) >> 8) | ((i & 0x007F) << 8)) as u64);
    }
}

#[test]
fn hybrid_fields_u8_3() {
    // Six sub-byte fields of one, two, three, five, seven and six bits pack
    // into one three-byte group; each reads as a byte-wide logical value.
    let widths = [1u64, 2, 3, 5, 7, 6];
    let decls: Vec<FieldDecl> = widths
        .iter()
        .map(|&b| FieldDecl {
            attr: BitfieldAttr {
                bits: Some(b),
                from_into: true,
                has_from: true,
                has_into: true,
                ..open_attr()
            },
            target_bits: 8,
        })
        .collect();
    let layout = build_layout(&decls, &record_endianness(Endianness::Msb0)).unwrap();
    let probe = vec![0u8; 3];
    let foo = RecordView::bind(layout, &probe).unwrap();
    let mut data = vec![0u8; 3];
    for i in 0..=0xFFu8 {
        for j in 0..=0xFFu8 {
            for k in 0..=0xFFu8 {
                data[0] = i;
                data[1] = j;
                data[2] = k;
                assert_eq!(foo.get(&data, 0), ((i & 0x80) >> 7) as u64);
                assert_eq!(foo.get(&data, 1), ((i & 0x60) >> 5) as u64);
            }
        }
    }
}
