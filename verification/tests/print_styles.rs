use sus_compiler::ast::IdentifierType;
use sus_compiler::dev_aid::print_styles::{pretty_print_style, print_tokens_style, StyleColor, TextStyle};
use sus_compiler::dev_aid::syntax_highlighting::{IDEIdentifierType, IDETokenType};

fn style(color: StyleColor, bright: bool, dim: bool, bold: bool, underlined: bool) -> TextStyle {
    TextStyle { color, bright, dim, bold, underlined }
}

#[test]
fn token_kinds_have_their_styles() {
    assert_eq!(pretty_print_style(IDETokenType::Comment), style(StyleColor::Green, false, true, false, false));
    assert_eq!(pretty_print_style(IDETokenType::Keyword), style(StyleColor::Blue, false, false, false, false));
    assert_eq!(pretty_print_style(IDETokenType::Operator), style(StyleColor::White, true, false, false, false));
    assert_eq!(pretty_print_style(IDETokenType::TimelineStage), style(StyleColor::Red, false, false, true, false));
    assert_eq!(pretty_print_style(IDETokenType::Number), style(StyleColor::Green, true, false, false, false));
    assert_eq!(pretty_print_style(IDETokenType::InvalidBracket), style(StyleColor::Red, false, false, false, true));
    assert_eq!(pretty_print_style(IDETokenType::Invalid), style(StyleColor::Red, false, false, false, true));
}

#[test]
fn identifiers_are_styled_by_what_they_name() {
    let id = |t| pretty_print_style(IDETokenType::Identifier(t));
    assert_eq!(id(IDEIdentifierType::Unknown), style(StyleColor::Red, false, false, false, true));
    assert_eq!(id(IDEIdentifierType::Value(IdentifierType::Local)), style(StyleColor::Blue, true, false, false, false));
    assert_eq!(id(IDEIdentifierType::Value(IdentifierType::State)), style(StyleColor::Blue, true, false, false, true));
    assert_eq!(id(IDEIdentifierType::Value(IdentifierType::Input)), style(StyleColor::Blue, true, false, false, false));
    assert_eq!(id(IDEIdentifierType::Value(IdentifierType::Output)), style(StyleColor::Blue, false, true, false, false));
    assert_eq!(id(IDEIdentifierType::Type), style(StyleColor::Magenta, true, false, false, false));
    assert_eq!(id(IDEIdentifierType::Interface), style(StyleColor::Yellow, false, false, false, false));
}

#[test]
fn bracket_colors_cycle_with_depth() {
    assert_eq!(pretty_print_style(IDETokenType::OpenBracket(0)).color, StyleColor::Magenta);
    assert_eq!(pretty_print_style(IDETokenType::CloseBracket(1)).color, StyleColor::Yellow);
    assert_eq!(pretty_print_style(IDETokenType::OpenBracket(2)).color, StyleColor::Blue);
    assert_eq!(pretty_print_style(IDETokenType::CloseBracket(3)), style(StyleColor::Magenta, false, false, false, false));
}

#[test]
fn token_boundaries_cycle_underlined_colors() {
    assert_eq!(print_tokens_style(0), style(StyleColor::Magenta, false, false, false, true));
    assert_eq!(print_tokens_style(4), style(StyleColor::Yellow, false, false, false, true));
    assert_eq!(print_tokens_style(5), style(StyleColor::Blue, false, false, false, true));
}
