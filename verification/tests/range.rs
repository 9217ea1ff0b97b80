use apbig::arch::word::Word;
use apbig::bit::{low_bits, ApBig, WORD_BITS};
use apbig::buffer::Buffer;
use apbig::ubig::Repr;
use apbig::UBig;

fn from_u128(value: u128) -> UBig {
    UBig::from(Buffer::from_words(&[value as Word, (value >> 64) as Word]))
}

fn to_u128(value: &UBig) -> u128 {
    match value.repr() {
        Repr::Small(word) => *word as u128,
        Repr::Large(buffer) => {
            let words = buffer.as_slice();
            assert!(words.len() == 2);
            words[0] as u128 | (words[1] as u128) << 64
        }
    }
}

fn range_u128(value: u128, up: usize, down: usize) -> u128 {
    if down >= 128 {
        return 0;
    }
    let shifted = value >> down;
    let len = up + 1 - down;
    if len >= 128 {
        shifted
    } else {
        shifted & ((1u128 << len) - 1)
    }
}

const SAMPLES: [u128; 8] = [
    0,
    1,
    0b1100111110,
    0xffff_ffff_ffff_ffff,
    0x1_0000_0000_0000_0000,
    0x1234_aebc_0321_4897_0911,
    0x8000_0000_0000_0000_8000_0000_0000_0001,
    u128::MAX,
];

#[test]
fn small_range() {
    let a = UBig::from_word(0b1100111110);
    let b = a.range(6, 2);
    assert_eq!(b, UBig::from_word(0b01111));
}

#[test]
fn big_range() {
    let cases = [
        ("0x1234aebc032148970911", 18, 12, "0b1110000"),
        ("0x1234aebc032148970911", 79, 12, "0x1234aebc032148970"),
    ];
    for (a, up, down, re) in cases {
        let a = UBig::from_str_with_radix_prefix(a).unwrap();
        let b = a.range(up, down);
        assert_eq!(b, UBig::from_str_with_radix_prefix(re).unwrap());
    }
}

#[test]
fn big_range_crosses_words() {
    let a = UBig::from(Buffer::from_words(&[0xaebc032148970911, 0x1234]));
    let b = a.range(79, 12);
    match b.repr() {
        Repr::Large(buffer) => assert_eq!(buffer.as_slice(), &[0x234aebc032148970, 0x1]),
        Repr::Small(_) => panic!("a number of 68 bits takes two words"),
    }
}

#[test]
fn range_is_shift_then_remainder() {
    for value in SAMPLES {
        let big = from_u128(value);
        for down in 0..=135 {
            for up in (down.max(1) - 1)..=135 {
                if down > up + 1 {
                    continue;
                }
                let slice = big.range(up, down);
                assert_eq!(to_u128(&slice), range_u128(value, up, down));
            }
        }
    }
}

#[test]
fn range_of_three_words() {
    let a = UBig::from(Buffer::from_words(&[0x1111, 0x2222, 0x3333]));
    assert_eq!(a.range(191, 128), UBig::from_word(0x3333));
    assert_eq!(
        a.range(191, 64),
        UBig::from(Buffer::from_words(&[0x2222, 0x3333]))
    );
    assert_eq!(a.range(139, 124), UBig::from_word(0x3330));
    assert_eq!(a.range(1000, 0), a);
    assert_eq!(a.range(1000, 192), UBig::from_word(0));
    assert_eq!(a.range(usize::MAX - 1, 130), UBig::from_word(0x3333 >> 2));
}

#[test]
fn empty_range_is_zero() {
    for value in SAMPLES {
        let big = from_u128(value);
        for down in [1, 2, 63, 64, 65, 127, 128, 129, 1000] {
            assert_eq!(big.range(down - 1, down), UBig::from_word(0));
        }
        let word = value as Word;
        for down in [1, 2, 63, 64, 65, 1000] {
            assert_eq!(word.range(down - 1, down), 0);
        }
    }
}

#[test]
fn whole_word_range_is_the_word() {
    for value in SAMPLES {
        let word = value as Word;
        assert_eq!(word.range(WORD_BITS - 1, 0), word);
        assert_eq!(
            UBig::from_word(word).range(WORD_BITS - 1, 0),
            UBig::from_word(word)
        );
    }
}

#[test]
fn word_boundary_keeps_the_top_word() {
    let top: Word = 0xdead_beef_0000_0001;
    let a = UBig::from(Buffer::from_words(&[0x1, top, 0x7]));
    // Two whole words: the upper one is kept as it is.
    let b = a.range(2 * WORD_BITS - 1, 0);
    match b.repr() {
        Repr::Large(buffer) => assert_eq!(buffer.as_slice(), &[0x1, top]),
        Repr::Small(_) => panic!("two words were asked for"),
    }
    // One whole word, taken from the middle.
    assert_eq!(a.range(2 * WORD_BITS - 1, WORD_BITS), UBig::from_word(top));
    // One whole word that straddles two.
    assert_eq!(
        a.range(WORD_BITS + 31, 32),
        UBig::from_word(0x0000_0001_0000_0000)
    );
    // One bit less, and the top bit goes.
    assert_eq!(
        a.range(2 * WORD_BITS - 2, WORD_BITS),
        UBig::from_word(0x5ead_beef_0000_0001)
    );
}

#[test]
fn word_range_matches_reference() {
    for value in SAMPLES {
        let word = value as Word;
        for down in 0..=70 {
            for up in (down.max(1) - 1)..=70 {
                if down > up + 1 {
                    continue;
                }
                let expected = range_u128(word as u128, up, down) as Word;
                assert_eq!(word.range(up, down), expected);
            }
        }
    }
}

#[test]
fn word_and_big_give_the_same_range() {
    for value in SAMPLES {
        let word = value as Word;
        let big = UBig::from_word(word);
        for (up, down) in [(6, 2), (63, 0), (63, 63), (64, 1), (100, 60), (10, 11), (200, 64)] {
            assert_eq!(big.range(up, down), UBig::from_word(word.range(up, down)));
        }
    }
}

#[test]
fn range_is_canonical() {
    for value in SAMPLES {
        let big = from_u128(value);
        for (up, down) in [(127, 0), (127, 64), (63, 0), (64, 0), (64, 1), (100, 30), (5, 6)] {
            let slice = big.range(up, down);
            let expected = range_u128(value, up, down);
            match slice.repr() {
                Repr::Small(word) => {
                    assert!(expected <= Word::MAX as u128);
                    assert_eq!(*word as u128, expected);
                }
                Repr::Large(buffer) => {
                    assert!(expected > Word::MAX as u128);
                    assert!(buffer.len() >= 2);
                    assert_ne!(buffer.get(buffer.len() - 1), 0);
                }
            }
        }
    }
}

#[test]
fn low_bits_keeps_the_low_bits() {
    assert_eq!(low_bits(0b1011_0110, 0), 0);
    assert_eq!(low_bits(0b1011_0110, 1), 0);
    assert_eq!(low_bits(0b1011_0110, 3), 0b110);
    assert_eq!(low_bits(0b1011_0110, 8), 0b1011_0110);
    assert_eq!(low_bits(Word::MAX, WORD_BITS - 1), Word::MAX >> 1);
    assert_eq!(low_bits(Word::MAX, WORD_BITS), Word::MAX);
    assert_eq!(low_bits(Word::MAX, WORD_BITS + 1), Word::MAX);
    assert_eq!(low_bits(Word::MAX, usize::MAX), Word::MAX);
}
