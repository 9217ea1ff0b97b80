use apbig::arch::word::Word;
use apbig::buffer::Buffer;
use apbig::shift::shr_words;
use apbig::ubig::Repr;
use apbig::UBig;

fn from_u128(value: u128) -> UBig {
    UBig::from(Buffer::from_words(&[value as Word, (value >> 64) as Word]))
}

#[test]
fn shift_right_divides_by_a_power_of_two() {
    let values = [
        0u128,
        1,
        0xffff_ffff_ffff_ffff,
        0x1_0000_0000_0000_0000,
        0x1234_aebc_0321_4897_0911,
        0x8000_0000_0000_0000_8000_0000_0000_0001,
        u128::MAX,
    ];
    for value in values {
        let big = from_u128(value);
        for bits in 0..=130 {
            let expected = if bits >= 128 { 0 } else { value >> bits };
            assert_eq!(&big >> bits, from_u128(expected));
        }
        assert_eq!(&big >> usize::MAX, UBig::from_word(0));
    }
}

#[test]
fn shift_right_of_a_word() {
    let word = UBig::from_word(0b1100111110);
    assert_eq!(&word >> 0, UBig::from_word(0b1100111110));
    assert_eq!(&word >> 2, UBig::from_word(0b11001111));
    assert_eq!(&word >> 63, UBig::from_word(0));
    assert_eq!(&word >> 64, UBig::from_word(0));
    assert_eq!(&UBig::from_word(Word::MAX) >> 63, UBig::from_word(1));
}

#[test]
fn shift_right_gives_a_canonical_value() {
    let big = UBig::from(Buffer::from_words(&[1, 2, 3]));
    assert!(matches!((&big >> 127).repr(), Repr::Small(6)));
    assert!(matches!((&big >> 128).repr(), Repr::Small(3)));
    match (&big >> 64).repr() {
        Repr::Large(buffer) => assert_eq!(buffer.as_slice(), &[2, 3]),
        Repr::Small(_) => panic!("two words are left"),
    }
}

#[test]
fn shift_right_of_words_is_not_trimmed() {
    let words = Buffer::from_words(&[0xf0, 0x1, 0]);
    assert_eq!(shr_words(&words, 0).as_slice(), &[0xf0, 0x1, 0]);
    assert_eq!(shr_words(&words, 4).as_slice(), &[0x1000_0000_0000_000f, 0, 0]);
    assert_eq!(shr_words(&words, 64).as_slice(), &[0x1, 0]);
    assert_eq!(shr_words(&words, 65).as_slice(), &[0, 0]);
    assert_eq!(shr_words(&words, 192).as_slice(), &[] as &[Word]);
    assert_eq!(shr_words(&words, 1000).as_slice(), &[] as &[Word]);
}
