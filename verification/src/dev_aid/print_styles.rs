use crate::ast::IdentifierType;
use crate::dev_aid::syntax_highlighting::{IDEIdentifierType, IDETokenType};
use vstd::prelude::*;

verus! {

/// A foreground color of the terminal.
#[derive(Debug, Clone, Copy, PartialEq, Eq, Structural)]
pub enum StyleColor {
    Magenta,
    Yellow,
    Blue,
    Green,
    White,
    Red,
}

/// How a piece of text is printed to the terminal.
#[derive(Debug, Clone, Copy, PartialEq, Eq, Structural)]
pub struct TextStyle {
    pub color: StyleColor,
    /// The bright variant of the color.
    pub bright: bool,
    pub dim: bool,
    pub bold: bool,
    pub underlined: bool,
}

/// `color` with no other attribute.
pub open spec fn spec_plain(color: StyleColor) -> TextStyle {
    TextStyle { color, bright: false, dim: false, bold: false, underlined: false }
}

/// The colors that nested brackets, and consecutive tokens, cycle through.
pub open spec fn cycle_color(i: int) -> StyleColor {
    if i % 3 == 0 {
        StyleColor::Magenta
    } else if i % 3 == 1 {
        StyleColor::Yellow
    } else {
        StyleColor::Blue
    }
}

/// How a token highlighted as `typ` is printed.
pub open spec fn spec_pretty_print_style(typ: IDETokenType) -> TextStyle {
    match typ {
        IDETokenType::Comment => TextStyle { dim: true, ..spec_plain(StyleColor::Green) },
        IDETokenType::Keyword => spec_plain(StyleColor::Blue),
        IDETokenType::Operator => TextStyle { bright: true, ..spec_plain(StyleColor::White) },
        IDETokenType::TimelineStage => TextStyle { bold: true, ..spec_plain(StyleColor::Red) },
        IDETokenType::Identifier(IDEIdentifierType::Unknown) => TextStyle {
            underlined: true,
            ..spec_plain(StyleColor::Red)
        },
        IDETokenType::Identifier(IDEIdentifierType::Value(IdentifierType::Local)) => TextStyle {
            bright: true,
            ..spec_plain(StyleColor::Blue)
        },
        IDETokenType::Identifier(IDEIdentifierType::Value(IdentifierType::State)) => TextStyle {
            bright: true,
            underlined: true,
            ..spec_plain(StyleColor::Blue)
        },
        IDETokenType::Identifier(IDEIdentifierType::Value(IdentifierType::Input)) => TextStyle {
            bright: true,
            ..spec_plain(StyleColor::Blue)
        },
        IDETokenType::Identifier(IDEIdentifierType::Value(IdentifierType::Output)) => TextStyle {
            dim: true,
            ..spec_plain(StyleColor::Blue)
        },
        IDETokenType::Identifier(IDEIdentifierType::Type) => TextStyle {
            bright: true,
            ..spec_plain(StyleColor::Magenta)
        },
        IDETokenType::Identifier(IDEIdentifierType::Interface) => spec_plain(StyleColor::Yellow),
        IDETokenType::Number => TextStyle { bright: true, ..spec_plain(StyleColor::Green) },
        IDETokenType::Invalid | IDETokenType::InvalidBracket => TextStyle {
            underlined: true,
            ..spec_plain(StyleColor::Red)
        },
        IDETokenType::OpenBracket(depth) | IDETokenType::CloseBracket(depth) => spec_plain(
            cycle_color(depth as int),
        ),
    }
}

fn plain(color: StyleColor) -> (st: TextStyle)
    ensures
        st == spec_plain(color),
{
    TextStyle { color, bright: false, dim: false, bold: false, underlined: false }
}

fn cycle_color_of(i: usize) -> (c: StyleColor)
    ensures
        c == cycle_color(i as int),
{
    let styles = [StyleColor::Magenta, StyleColor::Yellow, StyleColor::Blue];
    styles[i % 3]
}

/// How a token highlighted as `typ` is printed: brackets take the colors of
/// their depth in turn, other tokens a color of their kind.
pub fn pretty_print_style(typ: IDETokenType) -> (st: TextStyle)
    ensures
        st == spec_pretty_print_style(typ),
{
    match typ {
        IDETokenType::Comment => TextStyle { dim: true, ..plain(StyleColor::Green) },
        IDETokenType::Keyword => plain(StyleColor::Blue),
        IDETokenType::Operator => TextStyle { bright: true, ..plain(StyleColor::White) },
        IDETokenType::TimelineStage => TextStyle { bold: true, ..plain(StyleColor::Red) },
        IDETokenType::Identifier(IDEIdentifierType::Unknown) => TextStyle {
            underlined: true,
            ..plain(StyleColor::Red)
        },
        IDETokenType::Identifier(IDEIdentifierType::Value(IdentifierType::Local)) => TextStyle {
            bright: true,
            ..plain(StyleColor::Blue)
        },
        IDETokenType::Identifier(IDEIdentifierType::Value(IdentifierType::State)) => TextStyle {
            bright: true,
            underlined: true,
            ..plain(StyleColor::Blue)
        },
        IDETokenType::Identifier(IDEIdentifierType::Value(IdentifierType::Input)) => TextStyle {
            bright: true,
            ..plain(StyleColor::Blue)
        },
        IDETokenType::Identifier(IDEIdentifierType::Value(IdentifierType::Output)) => TextStyle {
            dim: true,
            ..plain(StyleColor::Blue)
        },
        IDETokenType::Identifier(IDEIdentifierType::Type) => TextStyle {
            bright: true,
            ..plain(StyleColor::Magenta)
        },
        IDETokenType::Identifier(IDEIdentifierType::Interface) => plain(StyleColor::Yellow),
        IDETokenType::Number => TextStyle { bright: true, ..plain(StyleColor::Green) },
        IDETokenType::Invalid | IDETokenType::InvalidBracket => TextStyle {
            underlined: true,
            ..plain(StyleColor::Red)
        },
        IDETokenType::OpenBracket(depth) | IDETokenType::CloseBracket(depth) => plain(
            cycle_color_of(depth),
        ),
    }
}

/// How the `tok_idx`-th token is printed when only the token boundaries are
/// shown: underlined, in colors that consecutive tokens take in turn.
pub fn print_tokens_style(tok_idx: usize) -> (st: TextStyle)
    ensures
        st == (TextStyle { underlined: true, ..spec_plain(cycle_color(tok_idx as int)) }),
{
    TextStyle { underlined: true, ..plain(cycle_color_of(tok_idx)) }
}

/// The colors cycle with period three, starting with magenta, yellow, blue.
pub proof fn lemma_cycle_color_period(i: int)
    requires
        0 <= i,
    ensures
        cycle_color(i + 3) == cycle_color(i),
        cycle_color(0) == StyleColor::Magenta,
        cycle_color(1) == StyleColor::Yellow,
        cycle_color(2) == StyleColor::Blue,
{
    assert((i + 3) % 3 == i % 3);
}

/// Consecutive tokens, when only token boundaries are printed, are
/// underlined in magenta, yellow and blue in turn, and nothing else.
pub proof fn lemma_print_tokens_style_cycles(i: nat)
    ensures
        (TextStyle { underlined: true, ..spec_plain(cycle_color(i as int)) }).color == (if i % 3
            == 0 {
            StyleColor::Magenta
        } else if i % 3 == 1 {
            StyleColor::Yellow
        } else {
            StyleColor::Blue
        }),
        cycle_color((i + 3) as int) == cycle_color(i as int),
    decreases i,
{
    lemma_cycle_color_period(i as int);
    if i >= 3 {
        lemma_print_tokens_style_cycles((i - 3) as nat);
        assert(i % 3 == (i - 3) % 3);
        lemma_cycle_color_period(i - 3);
    }
}

/// An opening bracket and a closing bracket of the same depth are printed
/// alike, in a plain color that cycles magenta, yellow, blue with the depth.
pub proof fn lemma_bracket_styles(d: usize)
    ensures
        spec_pretty_print_style(IDETokenType::OpenBracket(d)) == spec_pretty_print_style(
            IDETokenType::CloseBracket(d),
        ),
        spec_pretty_print_style(IDETokenType::OpenBracket(d)) == (TextStyle {
            color: if d % 3 == 0 {
                StyleColor::Magenta
            } else if d % 3 == 1 {
                StyleColor::Yellow
            } else {
                StyleColor::Blue
            },
            bright: false,
            dim: false,
            bold: false,
            underlined: false,
        }),
        d + 3 <= usize::MAX ==> spec_pretty_print_style(IDETokenType::OpenBracket((d + 3) as usize))
            == spec_pretty_print_style(IDETokenType::OpenBracket(d)),
    decreases d,
{
    lemma_cycle_color_period(d as int);
    if d >= 3 {
        lemma_bracket_styles((d - 3) as usize);
        assert(d % 3 == (d - 3) % 3);
        lemma_cycle_color_period(d - 3);
    }
}

/// The style of each kind of token other than brackets.
pub proof fn lemma_token_kind_styles()
    ensures
        spec_pretty_print_style(IDETokenType::Comment) == (TextStyle {
            color: StyleColor::Green,
            bright: false,
            dim: true,
            bold: false,
            underlined: false,
        }),
        spec_pretty_print_style(IDETokenType::Keyword) == (TextStyle {
            color: StyleColor::Blue,
            bright: false,
            dim: false,
            bold: false,
            underlined: false,
        }),
        spec_pretty_print_style(IDETokenType::Operator) == (TextStyle {
            color: StyleColor::White,
            bright: true,
            dim: false,
            bold: false,
            underlined: false,
        }),
        spec_pretty_print_style(IDETokenType::TimelineStage) == (TextStyle {
            color: StyleColor::Red,
            bright: false,
            dim: false,
            bold: true,
            underlined: false,
        }),
        spec_pretty_print_style(IDETokenType::Number) == (TextStyle {
            color: StyleColor::Green,
            bright: true,
            dim: false,
            bold: false,
            underlined: false,
        }),
        spec_pretty_print_style(IDETokenType::Invalid) == (TextStyle {
            color: StyleColor::Red,
            bright: false,
            dim: false,
            bold: false,
            underlined: true,
        }),
        spec_pretty_print_style(IDETokenType::InvalidBracket) == spec_pretty_print_style(
            IDETokenType::Invalid,
        ),
        spec_pretty_print_style(IDETokenType::Identifier(IDEIdentifierType::Unknown))
            == spec_pretty_print_style(IDETokenType::Invalid),
        spec_pretty_print_style(IDETokenType::Identifier(IDEIdentifierType::Type)) == (TextStyle {
            color: StyleColor::Magenta,
            bright: true,
            dim: false,
            bold: false,
            underlined: false,
        }),
        spec_pretty_print_style(IDETokenType::Identifier(IDEIdentifierType::Interface)) == (
        TextStyle {
            color: StyleColor::Yellow,
            bright: false,
            dim: false,
            bold: false,
            underlined: false,
        }),
        spec_pretty_print_style(
            IDETokenType::Identifier(IDEIdentifierType::Value(IdentifierType::Local)),
        ) == (TextStyle {
            color: StyleColor::Blue,
            bright: true,
            dim: false,
            bold: false,
            underlined: false,
        }),
        spec_pretty_print_style(
            IDETokenType::Identifier(IDEIdentifierType::Value(IdentifierType::Input)),
        ) == spec_pretty_print_style(
            IDETokenType::Identifier(IDEIdentifierType::Value(IdentifierType::Local)),
        ),
        spec_pretty_print_style(
            IDETokenType::Identifier(IDEIdentifierType::Value(IdentifierType::State)),
        ) == (TextStyle {
            color: StyleColor::Blue,
            bright: true,
            dim: false,
            bold: false,
            underlined: true,
        }),
        spec_pretty_print_style(
            IDETokenType::Identifier(IDEIdentifierType::Value(IdentifierType::Output)),
        ) == (TextStyle {
            color: StyleColor::Blue,
            bright: false,
            dim: true,
            bold: false,
            underlined: false,
        }),
{
}

/// When only token boundaries are printed, every token is underlined and
/// has no other attribute.
pub proof fn lemma_print_tokens_style_attributes(i: int)
    ensures
        (TextStyle { underlined: true, ..spec_plain(cycle_color(i)) }).underlined,
        !(TextStyle { underlined: true, ..spec_plain(cycle_color(i)) }).bright,
        !(TextStyle { underlined: true, ..spec_plain(cycle_color(i)) }).dim,
        !(TextStyle { underlined: true, ..spec_plain(cycle_color(i)) }).bold,
{
}

} // verus!
