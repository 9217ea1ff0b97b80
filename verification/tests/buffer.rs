use apbig::arch::word::Word;
use apbig::buffer::Buffer;
use apbig::mul::mul_add_word_in_place;

#[test]
fn buffer_holds_its_words() {
    let mut buffer = Buffer::allocate(4);
    assert_eq!(buffer.len(), 0);
    buffer.push(5);
    buffer.push(6);
    buffer.push(7);
    assert_eq!(buffer.len(), 3);
    assert_eq!(buffer.get(1), 6);
    buffer.set(1, 9);
    assert_eq!(buffer.as_slice(), &[5, 9, 7]);
    assert_eq!(buffer, Buffer::from_words(&[5, 9, 7]));
    assert_ne!(buffer, Buffer::from_words(&[5, 9]));
    assert_ne!(buffer, Buffer::from_words(&[5, 9, 8]));
    assert_eq!(buffer.clone(), buffer);
}

#[test]
fn buffer_truncate_keeps_the_low_words() {
    let mut buffer = Buffer::from_words(&[1, 2, 3]);
    buffer.truncate(5);
    assert_eq!(buffer.as_slice(), &[1, 2, 3]);
    buffer.truncate(2);
    assert_eq!(buffer.as_slice(), &[1, 2]);
    buffer.truncate(0);
    assert_eq!(buffer.len(), 0);
}

#[test]
fn buffer_pop_leading_zeros_trims() {
    let mut buffer = Buffer::from_words(&[0, 1, 0, 0]);
    buffer.pop_leading_zeros();
    assert_eq!(buffer.as_slice(), &[0, 1]);
    buffer.pop_leading_zeros();
    assert_eq!(buffer.as_slice(), &[0, 1]);
    let mut zero = Buffer::from_words(&[0, 0]);
    zero.pop_leading_zeros();
    assert_eq!(zero.len(), 0);
}

#[test]
fn mul_add_word_carries_into_a_new_word() {
    let mut buffer = Buffer::from_words(&[Word::MAX]);
    mul_add_word_in_place(&mut buffer, Word::MAX, Word::MAX);
    assert_eq!(buffer.as_slice(), &[0, Word::MAX]);
    let mut buffer = Buffer::from_words(&[Word::MAX, Word::MAX]);
    mul_add_word_in_place(&mut buffer, 2, 1);
    assert_eq!(buffer.as_slice(), &[Word::MAX, Word::MAX, 1]);
}

#[test]
fn mul_add_word_without_carry_keeps_the_length() {
    let mut buffer = Buffer::from_words(&[3, 0]);
    mul_add_word_in_place(&mut buffer, 10, 7);
    assert_eq!(buffer.as_slice(), &[37, 0]);
    let mut buffer = Buffer::from_words(&[1 << 63, 1]);
    mul_add_word_in_place(&mut buffer, 2, 0);
    assert_eq!(buffer.as_slice(), &[0, 3]);
    mul_add_word_in_place(&mut buffer, 0, 0);
    assert_eq!(buffer.as_slice(), &[0, 0]);
}

#[test]
fn mul_add_word_on_an_empty_buffer() {
    let mut buffer = Buffer::allocate(0);
    mul_add_word_in_place(&mut buffer, 10, 0);
    assert_eq!(buffer.len(), 0);
    mul_add_word_in_place(&mut buffer, 10, 5);
    assert_eq!(buffer.as_slice(), &[5]);
}
