use bfwasm::tokenizer::{is_valid_bf_token, tokenize};

#[test]
fn test_tokenize() {
    let input = "+a>>b-   -\n-<<<<.";
    let result = tokenize(input);
    assert_eq!(result, vec!['+', '>', '>', '-', '-', '-', '<', '<', '<', '<', '.']);
}

#[test]
fn tokenize_keeps_all_eight_symbols() {
    assert_eq!(tokenize("x[y]z,.<>+-"), vec!['[', ']', ',', '.', '<', '>', '+', '-']);
}

#[test]
fn tokenize_of_text_without_symbols_is_empty() {
    assert_eq!(tokenize(""), Vec::<char>::new());
    assert_eq!(tokenize("hello world\n"), Vec::<char>::new());
}

#[test]
fn valid_token_check() {
    for c in ['>', '<', '+', '-', ',', '.', '[', ']'] {
        assert!(is_valid_bf_token(&c));
    }
    for c in ['a', ' ', '\n', '{', '0'] {
        assert!(!is_valid_bf_token(&c));
    }
}
