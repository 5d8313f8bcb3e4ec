use dmbf::RawField;
use dmbf::RawFieldOps;

#[test]
fn test_raw_field_ops() {
    // test [u8, 3]
    assert_eq!(
        RawField::new(&[0x01, 0x02, 0x04])
            .bitand(RawField::new(&[0x02, 0x01, 0x03]))
            .to_bytes(),
        vec![0x00, 0x00, 0x00]
    );
    assert_eq!(
        RawField::new(&[0x01, 0x02, 0x04])
            .bitand(RawField::new(&[0x01, 0x02, 0x04]))
            .to_bytes(),
        vec![0x01, 0x02, 0x04]
    );
    assert_eq!(
        RawField::new(&[0x01, 0x02, 0x04])
            .bitor(RawField::new(&[0x02, 0x01, 0x03]))
            .to_bytes(),
        vec![0x03, 0x03, 0x07]
    );
    assert_eq!(RawField::new(&[0x00, 0x80, 0x00]).shl(1).to_bytes(), vec![0x01, 0x00, 0x00]);
    assert_eq!(RawField::new(&[0x01, 0x00, 0x00]).shr(1).to_bytes(), vec![0x00, 0x80, 0x00]);
}

#[test]
fn not_is_bytewise_complement() {
    assert_eq!(RawField::new(&[0x0F, 0xF0]).not().to_bytes(), vec![0xF0, 0x0F]);
    assert_eq!(RawField::new(&[0x00]).not().to_bytes(), vec![0xFF]);
}

/// The widened-word shifts and the byte-carry shifts agree: exhaustive over
/// all one- and two-byte contents and all shift amounts below eight.
#[test]
fn shift_strategies_agree_exhaustive_small() {
    for v in 0u64..=0xFF {
        let x = RawField::from_value(v, 1);
        for k in 0u8..8 {
            assert_eq!(x.shl(k).to_bytes(), x.shl_carrying(k).to_bytes());
            assert_eq!(x.shr(k).to_bytes(), x.shr_carrying(k).to_bytes());
        }
    }
    for v in 0u64..=0xFFFF {
        let x = RawField::from_value(v, 2);
        for k in 0u8..8 {
            assert_eq!(x.shl(k).to_bytes(), x.shl_carrying(k).to_bytes());
            assert_eq!(x.shr(k).to_bytes(), x.shr_carrying(k).to_bytes());
        }
    }
}

/// The two shift strategies agree on wider cells: sampled contents for every
/// width from three to eight bytes.
#[test]
fn shift_strategies_agree_sampled_wide() {
    let mut seed: u64 = 0x243F_6A88_85A3_08D3;
    for w in 3usize..=8 {
        for _ in 0..2000 {
            seed = seed.wrapping_mul(6364136223846793005).wrapping_add(1442695040888963407);
            let x = RawField::from_value(seed, w);
            for k in 0u8..8 {
                assert_eq!(x.shl(k).to_bytes(), x.shl_carrying(k).to_bytes());
                assert_eq!(x.shr(k).to_bytes(), x.shr_carrying(k).to_bytes());
            }
        }
    }
}

#[test]
fn shifts_fill_with_zeroes() {
    let x = RawField::new(&[0xFF, 0xFF, 0xFF]);
    assert_eq!(x.shl(4).to_bytes(), vec![0xFF, 0xFF, 0xF0]);
    assert_eq!(x.shr(4).to_bytes(), vec![0x0F, 0xFF, 0xFF]);
    // A shift wider than one byte carries across byte boundaries.
    assert_eq!(x.shl(12).to_bytes(), vec![0xFF, 0xF0, 0x00]);
    assert_eq!(x.shr(12).to_bytes(), vec![0x00, 0x0F, 0xFF]);
}

/// The little-endian transform reverses the bytes and is an involution; the
/// big-endian transform is the identity.
#[test]
fn endianness_transforms() {
    let x = RawField::new(&[0x01, 0x02, 0x03, 0x04, 0x05]);
    assert_eq!(x.to_le().to_bytes(), vec![0x05, 0x04, 0x03, 0x02, 0x01]);
    assert_eq!(x.to_le().to_le().to_bytes(), x.to_bytes());
    assert_eq!(RawField::from_le(RawField::to_le(&x)).to_bytes(), x.to_bytes());
    assert_eq!(x.to_be().to_bytes(), x.to_bytes());
    assert_eq!(RawField::from_be(x).to_bytes(), x.to_bytes());
    let mut seed: u64 = 0x1319_8A2E_0370_7344;
    for w in 1usize..=8 {
        for _ in 0..500 {
            seed = seed.wrapping_mul(6364136223846793005).wrapping_add(1442695040888963407);
            let y = RawField::from_value(seed, w);
            assert_eq!(y.to_le().to_le().to_bytes(), y.to_bytes());
            assert_eq!(RawField::from_le(y.to_le()).to_bytes(), y.to_bytes());
        }
    }
}

#[test]
fn values_round_trip_through_bytes() {
    assert_eq!(RawField::from_value(0x0102_0304, 4).to_bytes(), vec![1, 2, 3, 4]);
    assert_eq!(RawField::new(&[1, 2, 3, 4]).value(), 0x0102_0304);
    // A narrow cell keeps only its own bytes of the value.
    assert_eq!(RawField::from_value(0x0102_0304, 2).value(), 0x0304);
    assert_eq!(RawField::from_value(u64::MAX, 8).value(), u64::MAX);
    assert_eq!(RawField::new(&[0xAB]).value(), 0xAB);
    assert_eq!(RawField::new(&[0xAB]).byte_len(), 1);
    assert_eq!(RawField::new(&[0xAB, 0xCD]).byte_at(1), 0xCD);
}
