//! The kinds of cell a board or a piece is made of, and how a cell is drawn.

use vstd::prelude::*;

verus! {

/// One cell: one of the seven piece colours, or an empty cell.
#[derive(Copy, Clone, Debug, PartialEq, Eq, Structural)]
pub enum Block {
    LightBlue,
    DarkBlue,
    Orange,
    Yellow,
    Green,
    Red,
    Magenta,
    Void,
}

/// The text of a cell without colour: two spaces for an empty cell, `[]` for a filled one.
pub open spec fn plain_rep(b: Block) -> Seq<char> {
    if b == Block::Void {
        seq![' ', ' ']
    } else {
        seq!['[', ']']
    }
}

/// The ANSI foreground code of the colour a cell is painted with.
pub open spec fn colour_code(b: Block) -> Seq<char> {
    match b {
        Block::LightBlue => seq!['3', '6'],
        Block::DarkBlue => seq!['3', '4'],
        Block::Orange => seq!['3', '3'],
        Block::Yellow => seq!['9', '3'],
        Block::Green => seq!['3', '2'],
        Block::Red => seq!['3', '1'],
        Block::Magenta => seq!['3', '5'],
        Block::Void => seq!['3', '0'],
    }
}

/// The escape sequence that starts a foreground colour.
pub open spec fn colour_open(code: Seq<char>) -> Seq<char> {
    seq!['\x1B', '['] + code + seq!['m']
}

/// The escape sequence that resets all attributes.
pub open spec fn colour_reset() -> Seq<char> {
    seq!['\x1B', '[', '0', 'm']
}

/// What painting `text` with the colour `code` may give: the text itself when the
/// terminal gets no colours, else the text framed by the colour's escape sequences.
/// Nothing is claimed for a text that already holds an escape character.
pub open spec fn painted(text: Seq<char>, code: Seq<char>, out: Seq<char>) -> bool {
    ||| out == text
    ||| out == colour_open(code) + text + colour_reset()
    ||| text.contains('\x1B')
}

/// A possible coloured rendering of a cell.
pub open spec fn colored_rep(b: Block, out: Seq<char>) -> bool {
    out == plain_rep(b) || out == colour_open(colour_code(b)) + plain_rep(b) + colour_reset()
}

/// The printed name of a cell kind: the colour's name, and `None` for an empty cell.
pub open spec fn block_name(b: Block) -> Seq<char> {
    match b {
        Block::LightBlue => "LightBlue"@,
        Block::DarkBlue => "DarkBlue"@,
        Block::Orange => "Orange"@,
        Block::Yellow => "Yellow"@,
        Block::Green => "Green"@,
        Block::Red => "Red"@,
        Block::Magenta => "Magenta"@,
        Block::Void => "None"@,
    }
}

/// `colored::Colorize::cyan`, written out by `ColoredString`'s `Display`. The
/// output holds the escape codes only when the environment and the terminal
/// allow colours, so only the two possible outcomes are claimed.
#[verifier::external_body]
fn paint_cyan(text: &str) -> (out: String)
    ensures
        painted(text@, seq!['3', '6'], out@),
{
    format!("{}", colored::Colorize::cyan(text))
}

/// `colored::Colorize::blue`, written out by `ColoredString`'s `Display`: the
/// text, or the text in the escape codes of colour 34.
#[verifier::external_body]
fn paint_blue(text: &str) -> (out: String)
    ensures
        painted(text@, seq!['3', '4'], out@),
{
    format!("{}", colored::Colorize::blue(text))
}

/// `colored::Colorize::yellow`, written out by `ColoredString`'s `Display`: the
/// text, or the text in the escape codes of colour 33.
#[verifier::external_body]
fn paint_yellow(text: &str) -> (out: String)
    ensures
        painted(text@, seq!['3', '3'], out@),
{
    format!("{}", colored::Colorize::yellow(text))
}

/// `colored::Colorize::bright_yellow`, written out by `ColoredString`'s
/// `Display`: the text, or the text in the escape codes of colour 93.
#[verifier::external_body]
fn paint_bright_yellow(text: &str) -> (out: String)
    ensures
        painted(text@, seq!['9', '3'], out@),
{
    format!("{}", colored::Colorize::bright_yellow(text))
}

/// `colored::Colorize::green`, written out by `ColoredString`'s `Display`: the
/// text, or the text in the escape codes of colour 32.
#[verifier::external_body]
fn paint_green(text: &str) -> (out: String)
    ensures
        painted(text@, seq!['3', '2'], out@),
{
    format!("{}", colored::Colorize::green(text))
}

/// `colored::Colorize::red`, written out by `ColoredString`'s `Display`: the
/// text, or the text in the escape codes of colour 31.
#[verifier::external_body]
fn paint_red(text: &str) -> (out: String)
    ensures
        painted(text@, seq!['3', '1'], out@),
{
    format!("{}", colored::Colorize::red(text))
}

/// `colored::Colorize::magenta`, written out by `ColoredString`'s `Display`: the
/// text, or the text in the escape codes of colour 35.
#[verifier::external_body]
fn paint_magenta(text: &str) -> (out: String)
    ensures
        painted(text@, seq!['3', '5'], out@),
{
    format!("{}", colored::Colorize::magenta(text))
}

/// `colored::Colorize::black`, written out by `ColoredString`'s `Display`: the
/// text, or the text in the escape codes of colour 30.
#[verifier::external_body]
fn paint_black(text: &str) -> (out: String)
    ensures
        painted(text@, seq!['3', '0'], out@),
{
    format!("{}", colored::Colorize::black(text))
}

impl Block {
    /// Every kind of piece cell, that is every value but `Void`.
    pub const VALUES: [Block; 7] = [
        Block::LightBlue,
        Block::DarkBlue,
        Block::Orange,
        Block::Yellow,
        Block::Green,
        Block::Red,
        Block::Magenta,
    ];

    /// The two characters that draw this cell; with `use_color`, possibly framed by
    /// the escape codes of the cell's colour.
    pub fn get_string_rep(&self, use_color: bool) -> (out: String)
        ensures
            use_color ==> colored_rep(*self, out@),
            !use_color ==> out@ == plain_rep(*self),
    {
        proof {
            reveal_strlit("[]");
            reveal_strlit("  ");
            assert("[]"@ =~= seq!['[', ']']);
            assert("  "@ =~= seq![' ', ' ']);
            assert(!"[]"@.contains('\x1B'));
            assert(!"  "@.contains('\x1B'));
        }
        if use_color {
            match self {
                Block::LightBlue => paint_cyan("[]"),
                Block::DarkBlue => paint_blue("[]"),
                Block::Orange => paint_yellow("[]"),
                Block::Yellow => paint_bright_yellow("[]"),
                Block::Green => paint_green("[]"),
                Block::Red => paint_red("[]"),
                Block::Magenta => paint_magenta("[]"),
                Block::Void => paint_black("  "),
            }
        } else {
            String::from_str(if *self == Block::Void { "  " } else { "[]" })
        }
    }

    /// The printed name of the cell kind: the colour's name, and `None` for an empty
    /// cell.
    pub fn to_string(&self) -> (out: String)
        ensures
            out@ == block_name(*self),
    {
        match self {
            Block::LightBlue => String::from_str("LightBlue"),
            Block::DarkBlue => String::from_str("DarkBlue"),
            Block::Orange => String::from_str("Orange"),
            Block::Yellow => String::from_str("Yellow"),
            Block::Green => String::from_str("Green"),
            Block::Red => String::from_str("Red"),
            Block::Magenta => String::from_str("Magenta"),
            Block::Void => String::from_str("None"),
        }
    }
}

} // verus!
