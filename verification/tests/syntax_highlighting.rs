use sus_compiler::ast::{ASTRoot, IdentifierType, LocalOrGlobal, Module, SignalDeclaration};
use sus_compiler::dev_aid::syntax_highlighting::{
    create_token_ide_info, parse_result_is_consistent, IDEIdentifierType, IDEToken, IDETokenType,
};
use sus_compiler::parser::FullParseResult;
use sus_compiler::tokenizer::{Span, Token, TokenTreeNode, TokenType};
use IDETokenType as I;
use TokenType as T;

fn tokens_of(types: &[TokenType]) -> Vec<Token> {
    types
        .iter()
        .enumerate()
        .map(|(i, t)| Token::new(*t, i..i + 1))
        .collect()
}

fn types_of(result: &[IDEToken]) -> Vec<IDETokenType> {
    result.iter().map(|t| t.typ).collect()
}

fn sample_module() -> FullParseResult {
    let tokens = tokens_of(&[
        T::Keyword, T::Identifier, T::Bracket, T::Keyword, T::Identifier, T::Symbol, T::Identifier,
        T::Hash, T::Bracket, T::Number, T::Comment, T::Invalid, T::Bracket, T::Identifier,
    ]);
    let inner: Vec<TokenTreeNode> = (3..12).map(TokenTreeNode::PlainToken).collect();
    let token_hierarchy = vec![
        TokenTreeNode::PlainToken(0),
        TokenTreeNode::PlainToken(1),
        TokenTreeNode::Block(inner, Span(2, 12)),
        TokenTreeNode::PlainToken(13),
    ];
    let module = Module {
        name_position: 1,
        declarations: vec![SignalDeclaration { identifier_type: IdentifierType::Input }],
        values: vec![(LocalOrGlobal::Local(0), 4), (LocalOrGlobal::Global(3), 6)],
        type_references: vec![vec![13]],
    };
    FullParseResult { tokens, token_hierarchy, ast: ASTRoot { modules: vec![module] } }
}

#[test]
fn classifies_every_token_of_a_module() {
    let parsed = sample_module();
    assert!(parse_result_is_consistent(&parsed));
    let result = create_token_ide_info(&parsed);
    assert_eq!(result.len(), parsed.tokens.len());
    assert_eq!(
        types_of(&result),
        vec![
            I::Keyword,
            I::Identifier(IDEIdentifierType::Interface),
            I::OpenBracket(0),
            I::Keyword,
            I::Identifier(IDEIdentifierType::Value(IdentifierType::Input)),
            I::Operator,
            I::Identifier(IDEIdentifierType::Unknown),
            I::TimelineStage,
            I::InvalidBracket,
            I::Number,
            I::Comment,
            I::Invalid,
            I::CloseBracket(0),
            I::Identifier(IDEIdentifierType::Type),
        ]
    );
}

#[test]
fn nested_brackets_get_their_depth() {
    let tokens = tokens_of(&[T::Bracket; 6]);
    let token_hierarchy = vec![TokenTreeNode::Block(
        vec![
            TokenTreeNode::Block(vec![], Span(1, 2)),
            TokenTreeNode::Block(vec![], Span(3, 4)),
        ],
        Span(0, 5),
    )];
    let parsed = FullParseResult { tokens, token_hierarchy, ast: ASTRoot { modules: vec![] } };
    assert!(parse_result_is_consistent(&parsed));
    assert_eq!(
        types_of(&create_token_ide_info(&parsed)),
        vec![
            I::OpenBracket(0),
            I::OpenBracket(1),
            I::CloseBracket(1),
            I::OpenBracket(1),
            I::CloseBracket(1),
            I::CloseBracket(0)
        ]
    );
}

#[test]
fn unpaired_brackets_stay_invalid() {
    let tokens = tokens_of(&[TokenType::Bracket, TokenType::Identifier, TokenType::Bracket]);
    let token_hierarchy = (0..3).map(TokenTreeNode::PlainToken).collect();
    let parsed = FullParseResult { tokens, token_hierarchy, ast: ASTRoot { modules: vec![] } };
    assert_eq!(
        types_of(&create_token_ide_info(&parsed)),
        vec![I::InvalidBracket, I::Identifier(IDEIdentifierType::Unknown), I::InvalidBracket]
    );
}

#[test]
fn every_kind_of_declaration_colors_its_uses() {
    let tokens = tokens_of(&[TokenType::Identifier; 5]);
    let module = Module {
        name_position: 0,
        declarations: vec![
            SignalDeclaration { identifier_type: IdentifierType::Output },
            SignalDeclaration { identifier_type: IdentifierType::State },
            SignalDeclaration { identifier_type: IdentifierType::Local },
        ],
        values: vec![(LocalOrGlobal::Local(2), 1), (LocalOrGlobal::Local(1), 2), (LocalOrGlobal::Local(0), 3)],
        type_references: vec![],
    };
    let parsed = FullParseResult { tokens, token_hierarchy: vec![], ast: ASTRoot { modules: vec![module] } };
    assert_eq!(
        types_of(&create_token_ide_info(&parsed)),
        vec![
            I::Identifier(IDEIdentifierType::Interface),
            I::Identifier(IDEIdentifierType::Value(IdentifierType::Local)),
            I::Identifier(IDEIdentifierType::Value(IdentifierType::State)),
            I::Identifier(IDEIdentifierType::Value(IdentifierType::Output)),
            I::Identifier(IDEIdentifierType::Unknown),
        ]
    );
}

#[test]
fn later_module_overrides_earlier_marks() {
    let tokens = tokens_of(&[TokenType::Identifier; 2]);
    let first = Module { name_position: 0, declarations: vec![], values: vec![], type_references: vec![vec![1]] };
    let second = Module {
        name_position: 1,
        declarations: vec![],
        values: vec![(LocalOrGlobal::Global(0), 0)],
        type_references: vec![],
    };
    let parsed = FullParseResult { tokens, token_hierarchy: vec![], ast: ASTRoot { modules: vec![first, second] } };
    assert_eq!(
        types_of(&create_token_ide_info(&parsed)),
        vec![
            IDETokenType::Identifier(IDEIdentifierType::Unknown),
            IDETokenType::Identifier(IDEIdentifierType::Interface),
        ]
    );
}

#[test]
fn inconsistent_parse_results_are_detected() {
    let mut parsed = sample_module();
    parsed.token_hierarchy.push(TokenTreeNode::Block(vec![], Span(0, 99)));
    assert!(!parse_result_is_consistent(&parsed));

    let mut parsed = sample_module();
    parsed.ast.modules[0].values.push((LocalOrGlobal::Local(5), 0));
    assert!(!parse_result_is_consistent(&parsed));

    let mut parsed = sample_module();
    parsed.ast.modules[0].type_references.push(vec![0, 14]);
    assert!(!parse_result_is_consistent(&parsed));

    let mut parsed = sample_module();
    parsed.token_hierarchy =
        vec![TokenTreeNode::Block(vec![TokenTreeNode::Block(vec![], Span(20, 0))], Span(0, 1))];
    assert!(!parse_result_is_consistent(&parsed));
}
