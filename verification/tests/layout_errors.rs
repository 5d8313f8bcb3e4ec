use dmbf::BitfieldAttr;
use dmbf::Endianness;
use dmbf::FieldDecl;
use dmbf::LayoutError;
use dmbf::layout::build_layout;

fn open_attr() -> BitfieldAttr {
    BitfieldAttr {
        bits: None,
        default_value: None,
        endianness: None,
        from_into: false,
        has_from: false,
        has_into: false,
    }
}

fn bits(bits: u64, target_bits: u64) -> FieldDecl {
    FieldDecl {
        attr: BitfieldAttr { bits: Some(bits), from_into: true, ..open_attr() },
        target_bits,
    }
}

fn err_of(decls: Vec<FieldDecl>) -> LayoutError {
    match build_layout(&decls, &open_attr()) {
        Err(e) => e,
        Ok(_) => panic!("the layout must be refused"),
    }
}

/// Trailing sub-byte fields that never reach a byte-aligned total are a
/// construction-time error, never silently truncated or padded.
#[test]
fn incomplete_group_is_refused() {
    assert_eq!(err_of(vec![bits(3, 8)]), LayoutError::IncompleteGroup);
    assert_eq!(err_of(vec![bits(4, 8), bits(4, 8), bits(4, 8)]), LayoutError::IncompleteGroup);
    assert_eq!(err_of(vec![bits(16, 16), bits(5, 8)]), LayoutError::IncompleteGroup);
}

/// A group width outside one to eight bytes is refused.
#[test]
fn unsupported_width_is_refused() {
    assert_eq!(err_of(vec![bits(0, 8)]), LayoutError::UnsupportedWidth);
    assert_eq!(err_of(vec![bits(72, 64)]), LayoutError::UnsupportedWidth);
    // A run grown past sixty-four bits can never land on a supported unit.
    assert_eq!(err_of(vec![bits(63, 64), bits(9, 16)]), LayoutError::UnsupportedWidth);
    // An implicit width comes from the logical type and is held to the same
    // bounds.
    assert_eq!(err_of(vec![FieldDecl { attr: open_attr(), target_bits: 72 }]),
        LayoutError::UnsupportedWidth);
}

/// A field whose logical type differs from its group's storage type needs a
/// conversion; without one the layout is refused.
#[test]
fn missing_conversion_is_refused() {
    let narrow = FieldDecl { attr: BitfieldAttr { bits: Some(1), ..open_attr() }, target_bits: 8 };
    let wide = FieldDecl { attr: BitfieldAttr { bits: Some(15), ..open_attr() }, target_bits: 16 };
    assert_eq!(err_of(vec![narrow, wide]), LayoutError::MissingConversion);
    // The standard conversion, an explicit decode/encode pair, or a logical
    // type as wide as the storage unit each make the same layout buildable.
    let with_std = FieldDecl {
        attr: BitfieldAttr { bits: Some(1), from_into: true, ..open_attr() },
        target_bits: 8,
    };
    assert!(build_layout(&vec![with_std, wide], &open_attr()).is_ok());
    let with_pair = FieldDecl {
        attr: BitfieldAttr { bits: Some(1), has_from: true, has_into: true, ..open_attr() },
        target_bits: 8,
    };
    assert!(build_layout(&vec![with_pair, wide], &open_attr()).is_ok());
    let as_wide = FieldDecl { attr: BitfieldAttr { bits: Some(1), ..open_attr() }, target_bits: 16 };
    assert!(build_layout(&vec![as_wide, wide], &open_attr()).is_ok());
}

/// An explicit decode without an encode, or the reverse, is not enough.
#[test]
fn half_a_conversion_is_refused() {
    let only_from = FieldDecl {
        attr: BitfieldAttr { bits: Some(1), has_from: true, ..open_attr() },
        target_bits: 8,
    };
    let wide = FieldDecl { attr: BitfieldAttr { bits: Some(15), ..open_attr() }, target_bits: 16 };
    assert_eq!(err_of(vec![only_from, wide]), LayoutError::MissingConversion);
}

/// Merging configuration records: the earliest explicit setting of each knob
/// wins, and open knobs fall back.
#[test]
fn attribute_merge_resolution() {
    let field_attr = BitfieldAttr { bits: Some(3), ..open_attr() };
    let global = BitfieldAttr {
        bits: Some(9),
        default_value: Some(7),
        endianness: Some(Endianness::Msb0),
        ..open_attr()
    };
    let merged = field_attr.merge(&global);
    assert_eq!(merged.bits, Some(3));
    assert_eq!(merged.default_value, Some(7));
    assert_eq!(merged.endianness, Some(Endianness::Msb0));
    assert!(!merged.from_into);

    let folded = BitfieldAttr::from_attributes(&vec![
        BitfieldAttr { bits: Some(5), ..open_attr() },
        BitfieldAttr { bits: Some(11), default_value: Some(2), from_into: true, ..open_attr() },
    ]);
    assert_eq!(folded.bits, Some(5));
    assert_eq!(folded.default_value, Some(2));
    assert!(folded.from_into);
    assert_eq!(folded.endianness, None);

    let empty = BitfieldAttr::default();
    assert_eq!(empty.bits, None);
    assert_eq!(empty.default_value, None);
    assert_eq!(empty.endianness, None);
    assert!(!empty.from_into && !empty.has_from && !empty.has_into);
}

/// The grouping is order-sensitive: the same widths in another order pack
/// into other masks and shifts, and the record-wide endianness falls back to
/// least significant first.
#[test]
fn grouping_follows_declaration_order() {
    let decls = vec![bits(4, 8), bits(8, 8), bits(4, 8)];
    let layout = build_layout(&decls, &open_attr()).unwrap();
    let view = dmbf::RecordView::bind(layout, &vec![0u8, 0u8]).unwrap();
    // One two-byte group: the first nibble sits at the top, the byte in the
    // middle, the last nibble at the bottom.
    let data = vec![0xABu8, 0xCD];
    // Least-significant-first is the default: the cell reads as 0xCDAB.
    assert_eq!(view.get(&data, 0), 0xC);
    assert_eq!(view.get(&data, 1), 0xDA);
    assert_eq!(view.get(&data, 2), 0xB);
    assert_eq!(view.num_fields(), 3);
    assert_eq!(view.total_size(), 2);
}
