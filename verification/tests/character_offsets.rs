use sus_compiler::dev_aid::character_offsets::{generate_character_offsets, tokens_are_in_order};
use sus_compiler::tokenizer::{Token, TokenType};

#[test]
fn ascii_offsets_equal_byte_offsets() {
    let text = "module a {}";
    let tokens = vec![
        Token::new(TokenType::Keyword, 0..6),
        Token::new(TokenType::Identifier, 7..8),
        Token::new(TokenType::Bracket, 9..10),
        Token::new(TokenType::Bracket, 10..11),
    ];
    assert!(tokens_are_in_order(text, &tokens));
    let offsets = generate_character_offsets(text, &tokens);
    assert_eq!(offsets, vec![0..6, 7..8, 9..10, 10..11, 11..11]);
}

#[test]
fn multibyte_characters_count_once() {
    // "é" takes two bytes, "→" three.
    let text = "é x → y";
    let tokens = vec![Token::new(TokenType::Identifier, 3..4), Token::new(TokenType::Identifier, 9..10)];
    assert!(tokens_are_in_order(text, &tokens));
    let offsets = generate_character_offsets(text, &tokens);
    assert_eq!(offsets, vec![2..3, 6..7, 7..7]);
}

#[test]
fn eof_range_covers_trailing_text() {
    let text = "a // ünïcode";
    let tokens = vec![Token::new(TokenType::Identifier, 0..1)];
    let offsets = generate_character_offsets(text, &tokens);
    assert_eq!(offsets.len(), tokens.len() + 1);
    assert_eq!(offsets, vec![0..1, 1..text.chars().count()]);
}

#[test]
fn no_tokens_gives_one_range_for_the_whole_text() {
    let text = "ä b";
    let offsets = generate_character_offsets(text, &[]);
    assert_eq!(offsets, vec![0..3]);
}

#[test]
fn token_inside_a_character_is_rejected() {
    let text = "é";
    let tokens = vec![Token::new(TokenType::Identifier, 1..2)];
    assert!(!tokens_are_in_order(text, &tokens));
}

#[test]
fn overlapping_tokens_are_rejected() {
    let text = "abcdef";
    let tokens = vec![Token::new(TokenType::Identifier, 0..3), Token::new(TokenType::Identifier, 2..4)];
    assert!(!tokens_are_in_order(text, &tokens));
    let past_end = vec![Token::new(TokenType::Identifier, 4..9)];
    assert!(!tokens_are_in_order(text, &past_end));
}
