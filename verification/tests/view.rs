use apbig::bit::Ap;
use apbig::buffer::Buffer;

fn words_of(view: &Ap) -> Vec<u64> {
    (0..view.len()).map(|i| view.word(i)).collect()
}

#[test]
fn view_of_a_borrowed_buffer_spans_it() {
    let buffer = Buffer::from_words(&[10, 11, 12, 13, 14]);
    let view = Ap::from(&buffer);
    assert!(view.is_borrowed());
    assert_eq!(view.down(), 0);
    assert_eq!(view.up(), 4);
    assert_eq!(view.len(), 5);
    assert_eq!(words_of(&view), vec![10, 11, 12, 13, 14]);
}

#[test]
fn view_of_an_owned_buffer_spans_it() {
    let view = Ap::from(Buffer::from_words(&[10, 11, 12]));
    assert!(!view.is_borrowed());
    assert_eq!(view.down(), 0);
    assert_eq!(view.up(), 2);
    assert_eq!(words_of(&view), vec![10, 11, 12]);
}

#[test]
fn view_of_an_empty_buffer_is_empty() {
    let buffer = Buffer::allocate(0);
    let view = Ap::from(&buffer);
    assert_eq!(view.down(), 0);
    assert_eq!(view.len(), 0);
}

#[test]
fn sub_view_from_the_first_word() {
    let buffer = Buffer::from_words(&[10, 11, 12, 13, 14]);
    let view = Ap::from(&buffer);
    let sub = view.range(2, 0);
    assert_eq!(sub.down(), 0);
    assert_eq!(sub.up(), 2);
    assert_eq!(words_of(&sub), vec![10, 11, 12]);
}

#[test]
fn sub_view_is_relative_to_its_parent() {
    let buffer = Buffer::from_words(&[10, 11, 12, 13, 14]);
    let view = Ap::from(&buffer);
    let sub = view.range(3, 1);
    assert_eq!(sub.down(), 1);
    assert_eq!(sub.up(), 3);
    assert_eq!(words_of(&sub), vec![11, 12, 13]);
    let inner = sub.range(2, 1);
    assert_eq!(inner.down(), 2);
    assert_eq!(inner.up(), 3);
    assert_eq!(words_of(&inner), vec![12, 13]);
    let last = inner.range(1, 1);
    assert_eq!(words_of(&last), vec![13]);
}

#[test]
fn sub_view_may_be_empty() {
    let buffer = Buffer::from_words(&[10, 11, 12]);
    let view = Ap::from(&buffer);
    let empty = view.range(1, 2);
    assert_eq!(empty.len(), 0);
    assert_eq!(empty.down(), 2);
    assert_eq!(empty.up(), 1);
    let empty = view.range(0, 1);
    assert_eq!(empty.len(), 0);
}

#[test]
fn sub_view_keeps_the_kind_of_handle() {
    let buffer = Buffer::from_words(&[10, 11, 12]);
    let borrowed = Ap::from(&buffer);
    assert!(borrowed.range(1, 0).is_borrowed());
    let owned = Ap::from(Buffer::from_words(&[10, 11, 12]));
    let sub = owned.range(2, 1);
    assert!(!sub.is_borrowed());
    drop(owned);
    assert_eq!(words_of(&sub), vec![11, 12]);
}

#[test]
fn sub_view_outlives_its_parent() {
    let buffer = Buffer::from_words(&[10, 11, 12]);
    let sub = {
        let view = Ap::from(&buffer);
        view.range(2, 2)
    };
    assert_eq!(words_of(&sub), vec![12]);
}
