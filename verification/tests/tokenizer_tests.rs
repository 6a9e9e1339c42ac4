use simple_tokenizer::tokenize;
use simple_tokenizer::SimpleTokenizerV1;
use simple_tokenizer::TokenError;
use simple_tokenizer::Vocab;

fn setup_tokenizer_from_text(text: &str) -> SimpleTokenizerV1 {
    let mut vocab = Vocab::new();
    vocab.extend_from_text(text, true);
    SimpleTokenizerV1::new(vocab)
}

#[test]
fn test_encode_decode_simple_sentence() {
    let input = "Hello, world. Is this-- a test?";
    let tokenizer = setup_tokenizer_from_text(input);

    let tokens = tokenizer.encode(input).expect("Encoding failed");
    let decoded = tokenizer.decode(tokens).expect("Decoding failed");

    assert_eq!(decoded, input);
}

#[test]
fn test_encode_decode_with_special_tokens() {
    let input = "Hello, do you like tea? <|endoftext|> In the sunlit terraces of the palace.";
    let tokenizer = setup_tokenizer_from_text(input);

    let tokens = tokenizer.encode(input).expect("Encoding failed");
    let decoded = tokenizer.decode(tokens).expect("Decoding failed");

    assert_eq!(decoded, input);
}

#[test]
fn test_unknown_token_handling() {
    let input = "Hello, world. Is this-- a test?";
    let tokenizer = setup_tokenizer_from_text(input);

    let unknown_text =
        "Hello, do you like tea? <|endoftext|> In the sunlit terraces of the palace.";
    let tokens = tokenizer.encode(unknown_text).expect("Encoding failed");

    let unk_id = tokenizer.token_to_id("<|unk|>").unwrap();
    assert_eq!(tokens.iter().filter(|id| **id == unk_id).count(), 11);
}

#[test]
fn test_empty_string() {
    let input = "";
    let tokenizer = setup_tokenizer_from_text(input);

    let tokens = tokenizer.encode("").expect("Encoding failed");
    assert!(tokens.is_empty());

    let decoded = tokenizer.decode(tokens).expect("Decoding failed");
    assert_eq!(decoded, "");
}

#[test]
fn test_splitting_is_lossless_on_covered_text() {
    let input = "Hello, world. Is this-- a test?";
    let parts = tokenize(input, true);
    assert_eq!(parts.concat(), input);
    let parts_plain = tokenize(input, false);
    assert_eq!(parts_plain.concat(), input);
}

#[test]
fn test_splitting_drops_uncovered_characters() {
    let parts = tokenize("a@b", true);
    assert_eq!(parts, vec!["a".to_string(), "b".to_string()]);
}

#[test]
fn test_hyphenated_word_is_one_token() {
    let parts = tokenize("a well-known test", false);
    assert_eq!(
        parts,
        vec![
            "a".to_string(),
            " ".to_string(),
            "well-known".to_string(),
            " ".to_string(),
            "test".to_string(),
        ]
    );
}

#[test]
fn test_double_hyphen_is_one_token() {
    let parts = tokenize("this-- a", true);
    assert_eq!(
        parts,
        vec![
            "this".to_string(),
            "--".to_string(),
            " ".to_string(),
            "a".to_string(),
        ]
    );
}

#[test]
fn test_special_marker_recognized_as_single_token() {
    let parts = tokenize("<|endoftext|>", true);
    assert_eq!(parts, vec!["<|endoftext|>".to_string()]);

    let parts_in_context = tokenize("tea? <|endoftext|> In", true);
    assert!(parts_in_context.contains(&"<|endoftext|>".to_string()));
}

#[test]
fn test_special_marker_split_without_recognition() {
    let parts = tokenize("<|endoftext|>", false);
    assert_eq!(parts, vec!["endoftext".to_string()]);
}

#[test]
fn test_vocabulary_is_deterministic() {
    let corpus = "Hello, do you like tea? <|endoftext|> In the sunlit terraces of the palace.";
    let mut v1 = Vocab::new();
    v1.extend_from_text(corpus, true);
    let mut v2 = Vocab::new();
    v2.extend_from_text(corpus, true);
    assert_eq!(v1.token_list(), v2.token_list());

    let mut v3 = Vocab::new();
    v3.extend_from_text(corpus, false);
    let mut v4 = Vocab::new();
    v4.extend_from_text(corpus, false);
    assert_eq!(v3.token_list(), v4.token_list());
}

#[test]
fn test_identifier_assignment_order() {
    let mut vocab = Vocab::new();
    vocab.extend_from_text("Hello, world. Is this-- a test?", true);
    let expected = vec![
        " ".to_string(),
        ",".to_string(),
        "--".to_string(),
        ".".to_string(),
        "?".to_string(),
        "Hello".to_string(),
        "Is".to_string(),
        "a".to_string(),
        "test".to_string(),
        "this".to_string(),
        "world".to_string(),
        "<|unk|>".to_string(),
        "<|endoftext|>".to_string(),
    ];
    assert_eq!(vocab.token_list(), &expected);
}

#[test]
fn test_encode_exact_identifiers() {
    let input = "Hello, world. Is this-- a test?";
    let tokenizer = setup_tokenizer_from_text(input);
    let tokens = tokenizer.encode(input).expect("Encoding failed");
    assert_eq!(tokens, vec![5, 1, 0, 10, 3, 0, 6, 0, 9, 2, 0, 7, 0, 8, 4]);
}

#[test]
fn test_empty_corpus_with_reserved_markers() {
    let mut vocab = Vocab::new();
    vocab.extend_from_text("", true);
    let expected = vec!["<|unk|>".to_string(), "<|endoftext|>".to_string()];
    assert_eq!(vocab.token_list(), &expected);
}

#[test]
fn test_strict_round_trip() {
    let input = "Hello, world. Is this-- a test?";
    let tokenizer = setup_tokenizer_from_text(input);
    let tokens = tokenizer.encode_strict(input).expect("Encoding failed");
    let decoded = tokenizer.decode(tokens).expect("Decoding failed");
    assert_eq!(decoded, input);
}

#[test]
fn test_strict_encode_reports_first_unknown_token() {
    let tokenizer = setup_tokenizer_from_text("Hello, world. Is this-- a test?");
    let r = tokenizer.encode_strict("Hello, do you like tea?");
    match r {
        Err(TokenError::UnknownToken(t)) => assert_eq!(t, "do"),
        _ => panic!("expected an unknown-token error"),
    }
}

#[test]
fn test_fallback_without_reserved_markers_is_a_configuration_error() {
    let mut vocab = Vocab::new();
    vocab.extend_from_text("Hello, world.", false);
    let tokenizer = SimpleTokenizerV1::new(vocab);
    let r = tokenizer.encode("Hello you");
    assert!(matches!(r, Err(TokenError::ConfigurationError)));
}

#[test]
fn test_decode_reports_unresolvable_identifier() {
    let tokenizer = setup_tokenizer_from_text("Hello, world.");
    let r = tokenizer.decode(vec![0, 1, 999]);
    match r {
        Err(TokenError::UnresolvableIdentifier(id)) => assert_eq!(id, 999),
        _ => panic!("expected an unresolvable-identifier error"),
    }
}

#[test]
fn test_decode_exact_text() {
    let tokenizer = setup_tokenizer_from_text("Hello, world. Is this-- a test?");
    let decoded = tokenizer.decode(vec![5, 1, 0, 10]).expect("Decoding failed");
    assert_eq!(decoded, "Hello, world");
}
