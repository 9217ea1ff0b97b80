use apbig::arch::word::Word;
use apbig::bit::{truncate_in_place, WORD_BITS};
use apbig::buffer::Buffer;

fn truncated(words: &[Word], len: usize) -> Vec<Word> {
    let mut buffer = Buffer::from_words(words);
    truncate_in_place(&mut buffer, len);
    buffer.as_slice().to_vec()
}

#[test]
fn truncate_masks_the_word_the_length_falls_into() {
    assert_eq!(truncated(&[0xffff, 0xffff, 0xffff], 4), vec![0xf]);
    assert_eq!(
        truncated(&[0xffff, 0xffff, 0xffff], WORD_BITS + 4),
        vec![0xffff, 0xf]
    );
    assert_eq!(
        truncated(&[Word::MAX, Word::MAX], WORD_BITS + 63),
        vec![Word::MAX, Word::MAX >> 1]
    );
}

#[test]
fn truncate_at_a_word_boundary_masks_nothing() {
    let top: Word = 0x8000_0000_0000_0001;
    assert_eq!(truncated(&[top, 5, 6], WORD_BITS), vec![top]);
    assert_eq!(truncated(&[1, top, 6], 2 * WORD_BITS), vec![1, top]);
    assert_eq!(truncated(&[1, 2, top], 3 * WORD_BITS), vec![1, 2, top]);
}

#[test]
fn truncate_to_no_bits_is_zero() {
    assert_eq!(truncated(&[1, 2, 3], 0), Vec::<Word>::new());
    assert_eq!(truncated(&[], 0), Vec::<Word>::new());
}

#[test]
fn truncate_beyond_the_buffer_keeps_every_bit() {
    assert_eq!(truncated(&[1, 2, 3], 3 * WORD_BITS + 1), vec![1, 2, 3]);
    assert_eq!(truncated(&[1, 2, 3], 1000), vec![1, 2, 3]);
    assert_eq!(truncated(&[1, 2, 3], usize::MAX), vec![1, 2, 3]);
    assert_eq!(truncated(&[], 17), Vec::<Word>::new());
}

#[test]
fn truncate_trims_what_is_left() {
    assert_eq!(truncated(&[7, 0, 0, 9], 3 * WORD_BITS), vec![7]);
    assert_eq!(truncated(&[7, 0x10, 9], WORD_BITS + 4), vec![7]);
    assert_eq!(truncated(&[0, 0x10], WORD_BITS + 4), Vec::<Word>::new());
    assert_eq!(truncated(&[3, 0, 0], 1000), vec![3]);
}
