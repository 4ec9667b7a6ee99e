use vexillo::bitmask::{BitOp, Bitmask};
use vexillo::codec::{native_is_big, ByteOrder};
use vexillo::error::FlagError;
use vexillo::layout::Layout;

fn mask(bit_count: u32, mask_bits: u32, bits: &[u32]) -> Bitmask {
    let mut m = Bitmask::zero(bit_count, mask_bits);
    for &b in bits {
        m.set_bit(b, true);
    }
    m
}

#[test]
fn layout_ten_flags_in_bytes() {
    let l = Layout::new(10, 8);
    assert_eq!(l.word_count, 2);
    assert_eq!(l.total_bits, 16);
    assert_eq!(l.padding_bits, 6);
}

#[test]
fn layout_exact_and_empty() {
    assert_eq!(Layout::new(64, 64), Layout { word_count: 1, total_bits: 64, padding_bits: 0 });
    assert_eq!(Layout::new(0, 16), Layout { word_count: 0, total_bits: 0, padding_bits: 0 });
    assert_eq!(Layout::new(65, 32), Layout { word_count: 3, total_bits: 96, padding_bits: 31 });
    assert_eq!(Layout::new(200, 128), Layout { word_count: 2, total_bits: 256, padding_bits: 56 });
}

#[test]
fn counts_of_all_and_none() {
    for &(n, w) in &[(10u32, 8u32), (6, 32), (64, 64), (65, 16), (0, 8)] {
        let all = Bitmask::all(n, w);
        let none = Bitmask::zero(n, w);
        assert_eq!(all.count_ones(), n);
        assert_eq!(all.count_zeros(), 0);
        assert_eq!(none.count_ones(), 0);
        assert_eq!(none.count_zeros(), n);
    }
}

#[test]
fn all_keeps_padding_clear() {
    assert_eq!(Bitmask::all(10, 8).masks, vec![0xff, 0x03]);
    assert_eq!(Bitmask::all(6, 32).masks, vec![0x3f]);
    assert_eq!(Bitmask::all(70, 64).masks, vec![u64::MAX as u128, 0x3f]);
}

#[test]
fn not_masks_tail() {
    let v = mask(10, 8, &[0, 9]);
    let n = v.not();
    assert_eq!(n.masks, vec![0xfe, 0x01]);
    assert!(n.not().eq(&v));
    assert_eq!(n.not().masks, v.masks);
}

#[test]
fn double_negation_every_width() {
    for &w in &[8u32, 16, 32, 64, 128] {
        let v = mask(37, w, &[0, 5, 17, 36]);
        assert_eq!(v.not().not().masks, v.masks);
    }
}

#[test]
fn binary_ops_exact() {
    let a = mask(10, 8, &[0, 1, 8]);
    let b = mask(10, 8, &[1, 2, 9]);
    assert_eq!(a.and(&b).masks, vec![0x02, 0x00]);
    assert_eq!(a.or(&b).masks, vec![0x07, 0x03]);
    assert_eq!(a.xor(&b).masks, vec![0x05, 0x03]);
    assert_eq!(a.nand(&b).masks, vec![0xfd, 0x03]);
    assert_eq!(a.nor(&b).masks, vec![0xf8, 0x00]);
    assert_eq!(a.xnor(&b).masks, vec![0xfa, 0x00]);
    assert_eq!(a.imply(&b).masks, vec![0xfe, 0x02]);
    assert_eq!(a.nimply(&b).masks, vec![0x01, 0x01]);
    assert_eq!(a.combine(&b, BitOp::Or).masks, a.or(&b).masks);
}

#[test]
fn membership_matches_and() {
    let a = mask(12, 8, &[0, 1, 2, 10]);
    let cases: Vec<Bitmask> = vec![
        mask(12, 8, &[]),
        mask(12, 8, &[1]),
        mask(12, 8, &[1, 10]),
        mask(12, 8, &[1, 11]),
        mask(12, 8, &[3, 11]),
    ];
    let none = Bitmask::zero(12, 8);
    for b in &cases {
        assert_eq!(a.has_all(b), a.and(b).eq(b));
        assert_eq!(a.has_none(b), a.and(b).eq(&none));
        assert_eq!(a.has_any(b), !a.has_none(b));
    }
    assert!(a.has_all(&cases[2]));
    assert!(!a.has_all(&cases[3]));
    assert!(a.has_none(&cases[4]));
    assert!(a.has_some(&cases[3]));
    assert!(!a.has_some(&cases[2]));
    assert!(!a.has_some(&cases[4]));
}

#[test]
fn scans_across_words() {
    let v = mask(20, 8, &[9, 10, 11, 19]);
    assert_eq!(v.trailing_zeros(), 9);
    assert_eq!(v.trailing_ones(), 0);
    assert_eq!(v.leading_zeros(), 0);
    assert_eq!(v.leading_ones(), 1);
    let w = mask(20, 8, &[0, 1, 2, 3, 4, 5, 6, 7, 8, 15, 16, 17, 18, 19]);
    assert_eq!(w.trailing_ones(), 9);
    assert_eq!(w.leading_ones(), 5);
    assert_eq!(w.leading_zeros(), 0);
    let none = Bitmask::zero(20, 8);
    assert_eq!(none.trailing_zeros(), 20);
    assert_eq!(none.leading_zeros(), 20);
    let all = Bitmask::all(20, 8);
    assert_eq!(all.trailing_ones(), 20);
    assert_eq!(all.leading_ones(), 20);
}

#[test]
fn indexing_checks_bounds() {
    let mut v = Bitmask::zero(10, 8);
    assert_eq!(v.get(3), Ok(false));
    assert_eq!(v.set(3, true), Ok(()));
    assert_eq!(v.get(3), Ok(true));
    assert_eq!(v.swap(3, false), Ok(true));
    assert_eq!(v.swap(3, false), Ok(false));
    assert_eq!(v.get(10), Err(FlagError::OutOfRange { index: 10, bit_count: 10 }));
    assert_eq!(v.set(15, true), Err(FlagError::OutOfRange { index: 15, bit_count: 10 }));
    assert_eq!(v.swap(12, true), Err(FlagError::OutOfRange { index: 12, bit_count: 10 }));
    assert_eq!(v.masks, vec![0, 0]);
    assert!(matches!(Bitmask::from_index(10, 8, 10), Err(FlagError::OutOfRange { index: 10, bit_count: 10 })));
    let f = Bitmask::from_index(10, 8, 9).expect("in range");
    assert_eq!(f.masks, vec![0, 2]);
}

#[test]
fn new_flag_and_with_bit() {
    let f = Bitmask::new_flag(70, 65);
    assert_eq!(f.masks, vec![0, 2]);
    assert!(f.get_bit(65));
    let g = Bitmask::new(70).with_bit(3);
    assert_eq!(g.masks, vec![8, 0]);
    let mut h = f.duplicate();
    h.add(&g);
    assert_eq!(h.masks, vec![8, 2]);
    h.remove(&f);
    assert_eq!(h.masks, vec![8, 0]);
}

#[test]
fn bytes_exact() {
    let v = mask(24, 16, &[0, 8, 16]);
    assert_eq!(v.masks, vec![0x0101, 0x0001]);
    assert_eq!(v.to_bytes(ByteOrder::BigEndian), vec![0x01, 0x01, 0x00, 0x01]);
    assert_eq!(v.to_bytes(ByteOrder::LittleEndian), vec![0x01, 0x01, 0x01, 0x00]);
    let w = mask(12, 16, &[1, 9]);
    assert_eq!(w.to_bytes(ByteOrder::BigEndian), vec![0x02, 0x02]);
    let x = mask(32, 32, &[0, 31]);
    assert_eq!(x.to_bytes(ByteOrder::BigEndian), vec![0x80, 0, 0, 0x01]);
    assert_eq!(x.to_bytes(ByteOrder::LittleEndian), vec![0x01, 0, 0, 0x80]);
}

#[test]
fn native_order_matches_machine() {
    let big = u16::from_ne_bytes([1, 0]) == 256;
    assert_eq!(native_is_big(), big);
    let x = mask(32, 32, &[0, 31]);
    let expected = if big { ByteOrder::BigEndian } else { ByteOrder::LittleEndian };
    assert_eq!(x.to_bytes(ByteOrder::NativeEndian), x.to_bytes(expected));
}

#[test]
fn bytes_round_trip_every_width_and_order() {
    for &w in &[8u32, 16, 32, 64, 128] {
        for order in [ByteOrder::BigEndian, ByteOrder::LittleEndian, ByteOrder::NativeEndian] {
            let v = mask(77, w, &[0, 3, 8, 15, 16, 31, 32, 63, 64, 76]);
            let bytes = v.to_bytes(order);
            assert_eq!(bytes.len() as u32, Layout::new(77, w).total_bits / 8);
            let back = Bitmask::from_bytes(&bytes, 77, w, order).expect("round trip");
            assert_eq!(back.masks, v.masks);
            assert!(back.eq(&v));
        }
    }
}

#[test]
fn from_bytes_rejects_bad_input() {
    assert!(Bitmask::from_bytes(&[0xff, 0x03], 10, 8, ByteOrder::BigEndian).is_some());
    assert!(Bitmask::from_bytes(&[0xff, 0x04], 10, 8, ByteOrder::BigEndian).is_none());
    assert!(Bitmask::from_bytes(&[0xff], 10, 8, ByteOrder::BigEndian).is_none());
    assert!(Bitmask::from_bytes(&[0x03, 0xff], 10, 16, ByteOrder::BigEndian).is_some());
    assert!(Bitmask::from_bytes(&[0xff, 0x03], 10, 16, ByteOrder::BigEndian).is_none());
}

#[test]
fn equality_and_emptiness() {
    let a = mask(40, 32, &[33]);
    let b = mask(40, 32, &[33]);
    let c = mask(40, 32, &[32]);
    assert!(a.eq(&b));
    assert!(!a.ne(&b));
    assert!(a.ne(&c));
    assert!(!a.is_empty());
    assert!(Bitmask::zero(40, 32).is_empty());
}

#[test]
fn validity_check() {
    assert!(mask(10, 8, &[0, 9]).is_valid());
    let mut padded = Bitmask::zero(10, 8);
    padded.masks[1] = 0x04;
    assert!(!padded.is_valid());
    let mut high = Bitmask::zero(10, 8);
    high.masks[0] = 0x100;
    assert!(!high.is_valid());
    let short = Bitmask { masks: vec![0], bit_count: 10, mask_bits: 8 };
    assert!(!short.is_valid());
    let odd_width = Bitmask { masks: vec![0], bit_count: 10, mask_bits: 12 };
    assert!(!odd_width.is_valid());
}

#[test]
fn scans_on_wide_words() {
    let v = mask(150, 64, &[70, 149]);
    assert_eq!(v.trailing_zeros(), 70);
    assert_eq!(v.leading_zeros(), 0);
    let w = mask(150, 64, &[70]);
    assert_eq!(w.leading_zeros(), 79);
    let mut all = Bitmask::all(150, 64);
    all.set_bit(3, false);
    assert_eq!(all.leading_ones(), 146);
    assert_eq!(all.trailing_ones(), 3);
    assert_eq!(all.count_ones(), 149);
    assert_eq!(all.count_zeros(), 1);
}

#[test]
fn wide_words_of_128_bits() {
    let v = mask(130, 128, &[0, 127, 128, 129]);
    assert_eq!(v.masks, vec![1u128 | (1u128 << 127), 3]);
    assert_eq!(v.not().masks, vec![!(1u128 | (1u128 << 127)), 0]);
    let be = v.to_bytes(ByteOrder::BigEndian);
    assert_eq!(be.len(), 32);
    assert_eq!(be[0], 0x80);
    assert_eq!(be[15], 0x01);
    assert_eq!(be[31], 0x03);
    let le = v.to_bytes(ByteOrder::LittleEndian);
    assert_eq!(le[0], 0x01);
    assert_eq!(le[15], 0x80);
    assert_eq!(le[16], 0x03);
    assert!(Bitmask::from_bytes(&be, 130, 128, ByteOrder::BigEndian).expect("round trip").eq(&v));
    assert_eq!(v.leading_ones(), 3);
    assert_eq!(v.trailing_ones(), 1);
    assert_eq!(Layout::new(130, 128), Layout { word_count: 2, total_bits: 256, padding_bits: 126 });
}
