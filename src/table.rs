//! The transition table of the lexer's finite automaton.

use vstd::prelude::*;

use crate::token::TokenType;

verus! {

pub const SPACE: u8 = 0x20;
pub const TAB: u8 = 0x09;
pub const NEWLINE: u8 = 0x0a;
pub const FORM_FEED: u8 = 0x0c;
pub const CARRIAGE_RETURN: u8 = 0x0d;
pub const OPEN_PAREN: u8 = 0x28;
pub const CLOSE_PAREN: u8 = 0x29;
pub const SEMICOLON: u8 = 0x3b;
pub const QUOTE_MARK: u8 = 0x22;
pub const APOSTROPHE: u8 = 0x27;
pub const PIPE: u8 = 0x7c;
pub const OPEN_BRACKET: u8 = 0x5b;
pub const CLOSE_BRACKET: u8 = 0x5d;
pub const OPEN_BRACE: u8 = 0x7b;
pub const CLOSE_BRACE: u8 = 0x7d;
pub const PLUS: u8 = 0x2b;
pub const MINUS: u8 = 0x2d;
pub const COMMA: u8 = 0x2c;
pub const DOT: u8 = 0x2e;
pub const BACKSLASH: u8 = 0x5c;
pub const DIGIT_ZERO: u8 = 0x30;
pub const DIGIT_NINE: u8 = 0x39;

/// The states of the lexer's automaton.
#[derive(Clone, Copy, Debug, PartialEq, Eq, Hash, Structural)]
pub enum LexerState {
    Ready,
    Comment,
    Ident,
    Sign,
    Int,
    Float,
    String,
    StringEscape,
}

/// What becomes of the byte that a transition reads.
#[derive(Clone, Copy, Debug, PartialEq, Eq, Hash, Structural)]
pub enum Consume {
    /// The byte is appended to the pending buffer.
    Append,
    /// The byte is discarded.
    Skip,
    /// The byte is read again, against the new state, before any further input.
    Reprocess,
}

/// One entry of the table: the next state, the kind of token emitted (if
/// any), and what becomes of the byte.
#[derive(Clone, Copy, Debug, PartialEq, Eq, Structural)]
pub struct TableTrans {
    pub output: Option<TokenType>,
    pub next_state: LexerState,
    pub consume: Consume,
}

/// An entry of the table: a transition, or `Err(())` for a byte that the
/// state does not accept.
pub type TableResult = Result<TableTrans, ()>;

impl TableTrans {
    /// A transition that emits a token of kind `output`.
    pub fn output(next: LexerState, consume: Consume, output: TokenType) -> (r: TableTrans)
        ensures
            r == (TableTrans { output: Some(output), next_state: next, consume }),
    {
        TableTrans { output: Some(output), next_state: next, consume }
    }

    /// A transition that emits nothing.
    pub fn empty(next: LexerState, consume: Consume) -> (r: TableTrans)
        ensures
            r == (TableTrans { output: None, next_state: next, consume }),
    {
        TableTrans { output: None, next_state: next, consume }
    }
}

/// Space, tab, line feed, form feed and carriage return.
pub open spec fn spec_is_whitespace(c: u8) -> bool {
    c == SPACE || c == TAB || c == NEWLINE || c == FORM_FEED || c == CARRIAGE_RETURN
}

/// The ASCII control bytes that are not whitespace: 0x00 to 0x08, 0x0b,
/// 0x0e to 0x1f, and 0x7f.
pub open spec fn spec_is_control(c: u8) -> bool {
    (c < 0x20u8 && !spec_is_whitespace(c)) || c == 0x7fu8
}

pub open spec fn spec_is_digit(c: u8) -> bool {
    DIGIT_ZERO <= c && c <= DIGIT_NINE
}

/// Bytes that end an identifier or a number.
pub open spec fn spec_is_delimiter(c: u8) -> bool {
    c == OPEN_PAREN || c == CLOSE_PAREN || c == SEMICOLON || c == QUOTE_MARK
        || c == APOSTROPHE || c == PIPE || c == OPEN_BRACKET || c == CLOSE_BRACKET
        || c == OPEN_BRACE || c == CLOSE_BRACE || spec_is_whitespace(c)
}

pub open spec fn go(next: LexerState, consume: Consume) -> TableResult {
    Ok(TableTrans { output: None, next_state: next, consume })
}

pub open spec fn emit(next: LexerState, consume: Consume, kind: TokenType) -> TableResult {
    Ok(TableTrans { output: Some(kind), next_state: next, consume })
}

/// The table, entry by entry: in each state the first rule that matches the
/// byte decides, and a byte that no rule matches has no transition. Only
/// `Ready` refuses bytes: the delimiters that open nothing (`'`, `|`, `[`,
/// `]`, `{`, `}`), the comma, and ASCII control bytes that are not
/// whitespace. Every other state accepts all 256 bytes. Digits extend a
/// number in `Int` and `Float`. The opening `"` is consumed on the way into
/// `String`, so a string's buffer holds exactly the bytes between its quotes,
/// escaped bytes kept as they are.
pub open spec fn transition(s: LexerState, c: u8) -> TableResult {
    match s {
        LexerState::Ready => {
            if spec_is_whitespace(c) {
                go(LexerState::Ready, Consume::Skip)
            } else if c == OPEN_PAREN {
                emit(LexerState::Ready, Consume::Skip, TokenType::OpenParen)
            } else if c == CLOSE_PAREN {
                emit(LexerState::Ready, Consume::Skip, TokenType::CloseParen)
            } else if c == SEMICOLON {
                go(LexerState::Comment, Consume::Skip)
            } else if c == PLUS || c == MINUS {
                go(LexerState::Sign, Consume::Append)
            } else if spec_is_digit(c) {
                go(LexerState::Int, Consume::Append)
            } else if c == QUOTE_MARK {
                go(LexerState::String, Consume::Skip)
            } else if !spec_is_delimiter(c) && c != COMMA && !spec_is_control(c) {
                go(LexerState::Ident, Consume::Append)
            } else {
                Err(())
            }
        },
        LexerState::Comment => {
            if c == NEWLINE {
                go(LexerState::Ready, Consume::Skip)
            } else {
                go(LexerState::Comment, Consume::Skip)
            }
        },
        LexerState::Ident => {
            if spec_is_delimiter(c) {
                emit(LexerState::Ready, Consume::Reprocess, TokenType::Ident)
            } else {
                go(LexerState::Ident, Consume::Append)
            }
        },
        LexerState::Sign => {
            if spec_is_delimiter(c) {
                emit(LexerState::Ready, Consume::Reprocess, TokenType::Ident)
            } else if spec_is_digit(c) {
                go(LexerState::Int, Consume::Append)
            } else {
                go(LexerState::Ident, Consume::Append)
            }
        },
        LexerState::Int => {
            if spec_is_delimiter(c) {
                emit(LexerState::Ready, Consume::Reprocess, TokenType::Int)
            } else if c == DOT {
                go(LexerState::Float, Consume::Append)
            } else if !spec_is_digit(c) {
                go(LexerState::Ident, Consume::Append)
            } else {
                go(LexerState::Int, Consume::Append)
            }
        },
        LexerState::Float => {
            if spec_is_delimiter(c) {
                emit(LexerState::Ready, Consume::Reprocess, TokenType::Float)
            } else if !spec_is_digit(c) {
                go(LexerState::Ident, Consume::Append)
            } else {
                go(LexerState::Float, Consume::Append)
            }
        },
        LexerState::String => {
            if c == QUOTE_MARK {
                emit(LexerState::Ready, Consume::Skip, TokenType::String)
            } else if c == BACKSLASH {
                go(LexerState::StringEscape, Consume::Skip)
            } else {
                go(LexerState::String, Consume::Append)
            }
        },
        LexerState::StringEscape => go(LexerState::String, Consume::Append),
    }
}

pub fn is_whitespace(c: u8) -> (r: bool)
    ensures
        r == spec_is_whitespace(c),
{
    c == SPACE || c == TAB || c == NEWLINE || c == FORM_FEED || c == CARRIAGE_RETURN
}

pub fn is_control(c: u8) -> (r: bool)
    ensures
        r == spec_is_control(c),
{
    (c < 0x20 && !is_whitespace(c)) || c == 0x7f
}

pub fn is_digit(c: u8) -> (r: bool)
    ensures
        r == spec_is_digit(c),
{
    DIGIT_ZERO <= c && c <= DIGIT_NINE
}

pub fn is_delimiter(c: u8) -> (r: bool)
    ensures
        r == spec_is_delimiter(c),
{
    match c {
        OPEN_PAREN | CLOSE_PAREN | SEMICOLON | QUOTE_MARK | APOSTROPHE | PIPE | OPEN_BRACKET | CLOSE_BRACKET | OPEN_BRACE | CLOSE_BRACE => true,
        _ => is_whitespace(c),
    }
}

/// Computes one entry of the table by the ordered rules of its state.
pub fn classify(s: LexerState, c: u8) -> (r: TableResult)
    ensures
        r == transition(s, c),
{
    let delim = is_delimiter(c);
    let digit = is_digit(c);
    match s {
        LexerState::Ready => {
            if is_whitespace(c) {
                Ok(TableTrans::empty(LexerState::Ready, Consume::Skip))
            } else if c == OPEN_PAREN {
                Ok(TableTrans::output(LexerState::Ready, Consume::Skip, TokenType::OpenParen))
            } else if c == CLOSE_PAREN {
                Ok(TableTrans::output(LexerState::Ready, Consume::Skip, TokenType::CloseParen))
            } else if c == SEMICOLON {
                Ok(TableTrans::empty(LexerState::Comment, Consume::Skip))
            } else if c == PLUS || c == MINUS {
                Ok(TableTrans::empty(LexerState::Sign, Consume::Append))
            } else if digit {
                Ok(TableTrans::empty(LexerState::Int, Consume::Append))
            } else if c == QUOTE_MARK {
                Ok(TableTrans::empty(LexerState::String, Consume::Skip))
            } else if !delim && c != COMMA && !is_control(c) {
                Ok(TableTrans::empty(LexerState::Ident, Consume::Append))
            } else {
                Err(())
            }
        },
        LexerState::Comment => {
            if c == NEWLINE {
                Ok(TableTrans::empty(LexerState::Ready, Consume::Skip))
            } else {
                Ok(TableTrans::empty(LexerState::Comment, Consume::Skip))
            }
        },
        LexerState::Ident => {
            if delim {
                Ok(TableTrans::output(LexerState::Ready, Consume::Reprocess, TokenType::Ident))
            } else {
                Ok(TableTrans::empty(LexerState::Ident, Consume::Append))
            }
        },
        LexerState::Sign => {
            if delim {
                Ok(TableTrans::output(LexerState::Ready, Consume::Reprocess, TokenType::Ident))
            } else if digit {
                Ok(TableTrans::empty(LexerState::Int, Consume::Append))
            } else {
                Ok(TableTrans::empty(LexerState::Ident, Consume::Append))
            }
        },
        LexerState::Int => {
            if delim {
                Ok(TableTrans::output(LexerState::Ready, Consume::Reprocess, TokenType::Int))
            } else if c == DOT {
                Ok(TableTrans::empty(LexerState::Float, Consume::Append))
            } else if !digit {
                Ok(TableTrans::empty(LexerState::Ident, Consume::Append))
            } else {
                Ok(TableTrans::empty(LexerState::Int, Consume::Append))
            }
        },
        LexerState::Float => {
            if delim {
                Ok(TableTrans::output(LexerState::Ready, Consume::Reprocess, TokenType::Float))
            } else if !digit {
                Ok(TableTrans::empty(LexerState::Ident, Consume::Append))
            } else {
                Ok(TableTrans::empty(LexerState::Float, Consume::Append))
            }
        },
        LexerState::String => {
            if c == QUOTE_MARK {
                Ok(TableTrans::output(LexerState::Ready, Consume::Skip, TokenType::String))
            } else if c == BACKSLASH {
                Ok(TableTrans::empty(LexerState::StringEscape, Consume::Skip))
            } else {
                Ok(TableTrans::empty(LexerState::String, Consume::Append))
            }
        },
        LexerState::StringEscape => Ok(TableTrans::empty(LexerState::String, Consume::Append)),
    }
}

/// Position of a state's row in the table.
pub open spec fn spec_state_index(s: LexerState) -> int {
    match s {
        LexerState::Ready => 0,
        LexerState::Comment => 1,
        LexerState::Ident => 2,
        LexerState::Sign => 3,
        LexerState::Int => 4,
        LexerState::Float => 5,
        LexerState::String => 6,
        LexerState::StringEscape => 7,
    }
}

fn state_index(s: LexerState) -> (r: usize)
    ensures
        r as int == spec_state_index(s),
{
    match s {
        LexerState::Ready => 0,
        LexerState::Comment => 1,
        LexerState::Ident => 2,
        LexerState::Sign => 3,
        LexerState::Int => 4,
        LexerState::Float => 5,
        LexerState::String => 6,
        LexerState::StringEscape => 7,
    }
}

/// The row of one state: its entries for the bytes 0 to 255, in order.
fn build_row(s: LexerState) -> (row: Vec<TableResult>)
    ensures
        row@.len() == 256,
        forall|c: u8| #[trigger] row@[c as int] == transition(s, c),
{
    let mut row: Vec<TableResult> = Vec::new();
    let mut i: usize = 0;
    while i < 256
        invariant
            i <= 256,
            row@.len() == i,
            forall|j: int| 0 <= j < i ==> #[trigger] row@[j] == transition(s, j as u8),
        decreases 256 - i,
    {
        row.push(classify(s, i as u8));
        i = i + 1;
    }
    assert forall|c: u8| #[trigger] row@[c as int] == transition(s, c) by {
        assert(row@[c as int] == transition(s, (c as int) as u8));
    }
    row
}

/// The transition table, computed once and then only read: one row per
/// state, one entry per byte value.
#[derive(Debug)]
pub struct TransitionTable {
    rows: Vec<Vec<TableResult>>,
}

impl TransitionTable {
    /// Every entry holds what `transition` gives for its state and byte.
    #[verifier::type_invariant]
    closed spec fn wf(&self) -> bool {
        &&& self.rows@.len() == 8
        &&& forall|s: LexerState| #[trigger] self.rows@[spec_state_index(s)]@.len() == 256
        &&& forall|s: LexerState, c: u8|
            #[trigger] self.rows@[spec_state_index(s)]@[c as int] == transition(s, c)
    }

    /// The entry that the table holds for `s` and `c`.
    pub closed spec fn entry(&self, s: LexerState, c: u8) -> TableResult {
        self.rows@[spec_state_index(s)]@[c as int]
    }

    /// Builds the whole table by applying the rules of each state to every byte.
    pub fn new() -> (t: TransitionTable)
        ensures
            forall|s: LexerState, c: u8| #[trigger] t.entry(s, c) == transition(s, c),
    {
        let mut rows: Vec<Vec<TableResult>> = Vec::new();
        rows.push(build_row(LexerState::Ready));
        rows.push(build_row(LexerState::Comment));
        rows.push(build_row(LexerState::Ident));
        rows.push(build_row(LexerState::Sign));
        rows.push(build_row(LexerState::Int));
        rows.push(build_row(LexerState::Float));
        rows.push(build_row(LexerState::String));
        rows.push(build_row(LexerState::StringEscape));
        let t = TransitionTable { rows };
        proof {
            use_type_invariant(&t);
        }
        t
    }

    /// The entry for `s` and `c`. Defined for every state and every byte.
    pub fn lookup(&self, s: LexerState, c: u8) -> (r: TableResult)
        ensures
            r == self.entry(s, c),
            r == transition(s, c),
    {
        proof {
            use_type_invariant(self);
        }
        self.rows[state_index(s)][c as usize]
    }
}

} // verus!
