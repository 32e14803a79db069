use bench_cases::word_count::{ascii_alphabetic, ascii_whitespace, run, same_word, setup, Data};

fn count(text: &[u8]) -> (usize, usize) {
    let mut data: Box<Data> = setup(text.len());
    data.text_mut().copy_from_slice(text);
    run(&mut data);
    (data.len_unique_words(), data.len_special_chars())
}

#[test]
fn counts_distinct_words_and_specials() {
    assert_eq!(count(b"hello world hello 42 a-b  x"), (3, 2));
}

#[test]
fn empty_and_blank_texts() {
    assert_eq!(count(b""), (0, 0));
    assert_eq!(count(b"   \t\n\r\x0c "), (0, 0));
}

#[test]
fn all_ascii_whitespace_separates() {
    assert_eq!(count(b"a\tb\nc\rd\x0ce f"), (6, 0));
    // A vertical tab is no whitespace: it joins the chunk and makes it special.
    assert_eq!(count(b"a\x0bb"), (0, 1));
}

#[test]
fn case_matters_and_words_repeat() {
    assert_eq!(count(b"Word word WORD word"), (3, 0));
    assert_eq!(count(b"the the the"), (1, 0));
}

#[test]
fn zeroed_buffer_is_one_special_chunk() {
    let mut data = setup(16);
    run(&mut data);
    assert_eq!(data.len_unique_words(), 0);
    assert_eq!(data.len_special_chars(), 1);
}

#[test]
fn runs_start_afresh() {
    let mut data = setup(11);
    data.text_mut().copy_from_slice(b"one two one");
    run(&mut data);
    assert_eq!((data.len_unique_words(), data.len_special_chars()), (2, 0));
    data.text_mut().copy_from_slice(b"abc 1 2 3 4");
    run(&mut data);
    assert_eq!((data.len_unique_words(), data.len_special_chars()), (1, 4));
}

#[test]
fn byte_classes() {
    for b in 0u8..=255 {
        assert_eq!(ascii_whitespace(b), b.is_ascii_whitespace());
        assert_eq!(ascii_alphabetic(b), b.is_ascii_alphabetic());
    }
}

#[test]
fn word_ranges() {
    let t = b"abc xabc abd";
    assert!(same_word(t, 0, 3, 5, 3));
    assert!(!same_word(t, 0, 3, 9, 3));
    assert!(!same_word(t, 0, 3, 4, 4));
    assert!(!same_word(t, 10, 5, 0, 5));
}
