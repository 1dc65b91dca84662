//! Errors of the lexer.

use vstd::prelude::*;

use vstd::utf8::encode_utf8;

use crate::token::{hex_digit, hex_digit_exec, nat_text, push_all, push_digits, TokenType};

verus! {

/// Why the lexer stopped.
#[derive(Clone, Copy, Debug, PartialEq, Eq, Structural)]
pub enum ErrorKind {
    /// The table has no transition for this byte in the current state.
    InvalidCharacter(u8),
    /// The pending bytes do not decode as a token of this kind (an integer
    /// out of the range of `i64`, for instance).
    InvalidToken(TokenType),
}

/// A lexical error, with the file and line where it happened.
#[derive(Clone, Debug)]
pub struct Error {
    pub file_name: String,
    pub line: u32,
    pub kind: ErrorKind,
}

/// What an error reports.
pub struct ErrorModel {
    pub file_name: Seq<char>,
    pub line: u32,
    pub kind: ErrorKind,
}

impl View for Error {
    type V = ErrorModel;

    open spec fn view(&self) -> ErrorModel {
        ErrorModel { file_name: self.file_name@, line: self.line, kind: self.kind }
    }
}

impl Error {
    /// A short description of the kind of error.
    pub fn description(&self) -> (r: &'static str)
        ensures
            self.kind is InvalidCharacter ==> r@ == "Lexer Error: Invalid Character"@,
            self.kind is InvalidToken ==> r@ == "Lexer Error: Invalid Token"@,
    {
        match self.kind {
            ErrorKind::InvalidCharacter(_) => "Lexer Error: Invalid Character",
            ErrorKind::InvalidToken(_) => "Lexer Error: Invalid Token",
        }
    }
}

/// A byte shown as Rust's `char::escape_default` shows the character of
/// that code: tab, carriage return, line feed, quotes and backslash after a
/// backslash, other printable ASCII as it is, anything else as `\u{..}` in
/// lowercase hexadecimal.
pub open spec fn char_escape(c: u8) -> Seq<u8> {
    if c == 0x09u8 {
        seq![0x5cu8, 0x74u8]
    } else if c == 0x0du8 {
        seq![0x5cu8, 0x72u8]
    } else if c == 0x0au8 {
        seq![0x5cu8, 0x6eu8]
    } else if c == 0x27u8 || c == 0x22u8 || c == 0x5cu8 {
        seq![0x5cu8, c]
    } else if 0x20u8 <= c && c <= 0x7eu8 {
        seq![c]
    } else {
        seq![0x5cu8, 0x75u8, 0x7bu8] + (if c >= 16 {
            seq![hex_digit(c as int / 16)]
        } else {
            Seq::empty()
        }) + seq![hex_digit(c as int % 16), 0x7du8]
    }
}

/// What an error says of its kind.
pub open spec fn kind_text(k: ErrorKind) -> Seq<u8> {
    match k {
        ErrorKind::InvalidCharacter(c) => seq![0x49u8, 0x6eu8, 0x76u8, 0x61u8, 0x6cu8, 0x69u8, 0x64u8, 0x20u8, 0x63u8, 0x68u8, 0x61u8, 0x72u8, 0x61u8, 0x63u8, 0x74u8, 0x65u8, 0x72u8, 0x20u8, 0x27u8] + char_escape(c) + seq![0x27u8],
        ErrorKind::InvalidToken(_) => seq![0x49u8, 0x6eu8, 0x76u8, 0x61u8, 0x6cu8, 0x69u8, 0x64u8, 0x20u8, 0x74u8, 0x6fu8, 0x6bu8, 0x65u8, 0x6eu8],
    }
}

/// The message of an error: `Error (file:line): ` and what it says of its
/// kind.
pub open spec fn error_text(file: Seq<u8>, line: u32, k: ErrorKind) -> Seq<u8> {
    seq![0x45u8, 0x72u8, 0x72u8, 0x6fu8, 0x72u8, 0x20u8, 0x28u8] + file + seq![0x3au8] + nat_text(line as nat) + seq![0x29u8, 0x3au8, 0x20u8] + kind_text(k)
}

fn push_char_escape(out: &mut Vec<u8>, c: u8)
    ensures
        final(out)@ == old(out)@ + char_escape(c),
{
    if c == 0x09 {
        out.push(0x5c);
        out.push(0x74);
    } else if c == 0x0d {
        out.push(0x5c);
        out.push(0x72);
    } else if c == 0x0a {
        out.push(0x5c);
        out.push(0x6e);
    } else if c == 0x27 || c == 0x22 || c == 0x5c {
        out.push(0x5c);
        out.push(c);
    } else if 0x20 <= c && c <= 0x7e {
        out.push(c);
    } else {
        out.push(0x5c);
        out.push(0x75);
        out.push(0x7b);
        if c >= 16 {
            out.push(hex_digit_exec(c / 16));
        }
        out.push(hex_digit_exec(c % 16));
        out.push(0x7d);
    }
    assert(final(out)@ =~= old(out)@ + char_escape(c));
}

impl Error {
    /// The error's message, as the bytes of its text.
    pub fn message(&self) -> (r: Vec<u8>)
        ensures
            r@ == error_text(encode_utf8(self.file_name@), self.line, self.kind),
    {
        let mut out: Vec<u8> = Vec::new();
        let head: [u8; 7] = [0x45, 0x72, 0x72, 0x6f, 0x72, 0x20, 0x28];
        push_all(&mut out, head.as_slice());
        push_all(&mut out, self.file_name.as_str().as_bytes());
        out.push(0x3a);
        push_digits(&mut out, self.line as u64);
        let sep: [u8; 3] = [0x29, 0x3a, 0x20];
        push_all(&mut out, sep.as_slice());
        let ghost before = out@;
        match self.kind {
            ErrorKind::InvalidCharacter(c) => {
                let w: [u8; 19] = [0x49, 0x6e, 0x76, 0x61, 0x6c, 0x69, 0x64, 0x20, 0x63, 0x68, 0x61, 0x72, 0x61, 0x63, 0x74, 0x65, 0x72, 0x20, 0x27];
                push_all(&mut out, w.as_slice());
                push_char_escape(&mut out, c);
                out.push(0x27);
                assert(w@ == seq![0x49u8, 0x6eu8, 0x76u8, 0x61u8, 0x6cu8, 0x69u8, 0x64u8, 0x20u8, 0x63u8, 0x68u8, 0x61u8, 0x72u8, 0x61u8, 0x63u8, 0x74u8, 0x65u8, 0x72u8, 0x20u8, 0x27u8]);
            },
            ErrorKind::InvalidToken(_) => {
                let w: [u8; 13] = [0x49, 0x6e, 0x76, 0x61, 0x6c, 0x69, 0x64, 0x20, 0x74, 0x6f, 0x6b, 0x65, 0x6e];
                push_all(&mut out, w.as_slice());
                assert(w@ == seq![0x49u8, 0x6eu8, 0x76u8, 0x61u8, 0x6cu8, 0x69u8, 0x64u8, 0x20u8, 0x74u8, 0x6fu8, 0x6bu8, 0x65u8, 0x6eu8]);
            },
        }
        assert(head@ == seq![0x45u8, 0x72u8, 0x72u8, 0x6fu8, 0x72u8, 0x20u8, 0x28u8]);
        assert(sep@ == seq![0x29u8, 0x3au8, 0x20u8]);
        assert(out@ =~= error_text(encode_utf8(self.file_name@), self.line, self.kind));
        out
    }
}

} // verus!
