use inverted_index::tokenizer::{tokenize_line, tokenize_lines};

#[test]
fn tokenize_lowercases_and_strips_punctuation() {
    assert_eq!(
        tokenize_line("Cat, dog's X-ray!"),
        vec!["cat".to_string(), "dog's".to_string(), "x-ray".to_string()]
    );
}

#[test]
fn tokenize_keeps_occurrence_order() {
    assert_eq!(
        tokenize_line("one two two THREE one"),
        vec![
            "one".to_string(),
            "two".to_string(),
            "two".to_string(),
            "three".to_string(),
            "one".to_string()
        ]
    );
}

#[test]
fn tokenize_empty_and_symbol_lines() {
    assert_eq!(tokenize_line(""), Vec::<String>::new());
    assert_eq!(tokenize_line("... !!! ---"), Vec::<String>::new());
}

#[test]
fn tokenize_digits_count_as_word_characters() {
    assert_eq!(
        tokenize_line("route 66"),
        vec!["route".to_string(), "66".to_string()]
    );
}

#[test]
fn tokenize_lines_concatenates_in_reading_order() {
    let lines = vec!["B a".to_string(), "".to_string(), "c B".to_string()];
    assert_eq!(
        tokenize_lines(&lines),
        vec!["b".to_string(), "a".to_string(), "c".to_string(), "b".to_string()]
    );
}
