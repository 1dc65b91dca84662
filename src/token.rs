//! Tokens and the decoder that turns a kind and its raw bytes into a token.

use vstd::prelude::*;
use vstd::slice::slice_to_vec;

use crate::table::{
    spec_is_digit, is_digit, APOSTROPHE, BACKSLASH, CLOSE_PAREN, DIGIT_ZERO, DOT, MINUS, OPEN_PAREN,
    PLUS, QUOTE_MARK,
};
use crate::text::bytes_equal;

verus! {

/// The shape of a token, without its payload.
#[derive(Clone, Copy, Debug, PartialEq, Eq, Hash, Structural)]
pub enum TokenType {
    OpenParen,
    CloseParen,
    Quote,
    Lambda,
    If,
    Ident,
    Bool,
    Int,
    Float,
    String,
}

/// A decoded token. Identifiers and strings keep their raw bytes; a
/// floating-point literal keeps its decimal text.
#[derive(Clone, Debug, PartialEq)]
pub enum Token {
    OpenParen,
    CloseParen,
    Quote,
    Lambda,
    If,
    Ident(Vec<u8>),
    Bool(bool),
    Int(i64),
    Float(Decimal),
    String(Vec<u8>),
}

/// What a token stands for, with byte sequences for its payloads.
pub enum TokenModel {
    OpenParen,
    CloseParen,
    Quote,
    Lambda,
    If,
    Ident(Seq<u8>),
    Bool(bool),
    Int(i64),
    Float(Seq<u8>),
    String(Seq<u8>),
}

impl View for Token {
    type V = TokenModel;

    open spec fn view(&self) -> TokenModel {
        match self {
            Token::OpenParen => TokenModel::OpenParen,
            Token::CloseParen => TokenModel::CloseParen,
            Token::Quote => TokenModel::Quote,
            Token::Lambda => TokenModel::Lambda,
            Token::If => TokenModel::If,
            Token::Ident(v) => TokenModel::Ident(v@),
            Token::Bool(b) => TokenModel::Bool(*b),
            Token::Int(n) => TokenModel::Int(*n),
            Token::Float(d) => TokenModel::Float(d@),
            Token::String(v) => TokenModel::String(v@),
        }
    }
}

/// The failure of a decode: the bytes do not form a token of the kind asked for.
#[derive(Copy, Clone, Debug, PartialEq, Eq, PartialOrd, Ord)]
pub struct VoidError;

/// The bytes of `quote`.
pub open spec fn quote_word() -> Seq<u8> {
    seq![0x71u8, 0x75u8, 0x6fu8, 0x74u8, 0x65u8]
}

/// The bytes of `lambda`.
pub open spec fn lambda_word() -> Seq<u8> {
    seq![0x6cu8, 0x61u8, 0x6du8, 0x62u8, 0x64u8, 0x61u8]
}

/// The bytes of `if`.
pub open spec fn if_word() -> Seq<u8> {
    seq![0x69u8, 0x66u8]
}

/// The reserved word that `s` spells exactly, if any.
pub open spec fn keyword(s: Seq<u8>) -> Option<TokenModel> {
    if s == quote_word() {
        Some(TokenModel::Quote)
    } else if s == lambda_word() {
        Some(TokenModel::Lambda)
    } else if s == if_word() {
        Some(TokenModel::If)
    } else {
        None
    }
}

pub open spec fn all_digits(s: Seq<u8>) -> bool {
    forall|i: int| 0 <= i < s.len() ==> spec_is_digit(#[trigger] s[i])
}

/// The value of a string of decimal digits.
pub open spec fn digits_value(s: Seq<u8>) -> int
    decreases s.len(),
{
    if s.len() == 0 {
        0
    } else {
        digits_value(s.drop_last()) * 10 + (s.last() as int - DIGIT_ZERO as int)
    }
}

pub open spec fn has_sign(s: Seq<u8>) -> bool {
    s.len() > 0 && (s[0] == PLUS || s[0] == MINUS)
}

/// `s` without its leading sign, if it has one.
pub open spec fn unsigned_part(s: Seq<u8>) -> Seq<u8> {
    if has_sign(s) {
        s.drop_first()
    } else {
        s
    }
}

/// The value of an optional sign followed by digits.
pub open spec fn signed_value(s: Seq<u8>) -> int {
    if s.len() > 0 && s[0] == MINUS {
        -digits_value(unsigned_part(s))
    } else {
        digits_value(unsigned_part(s))
    }
}

/// `s` is an optional `+` or `-` followed by one or more decimal digits.
pub open spec fn is_int_literal(s: Seq<u8>) -> bool {
    unsigned_part(s).len() > 0 && all_digits(unsigned_part(s))
}

/// The signed decimal integer that `s` spells, when it fits in an `i64`.
pub open spec fn spec_parse_int(s: Seq<u8>) -> Option<i64> {
    if is_int_literal(s) && i64::MIN <= signed_value(s) <= i64::MAX {
        Some(signed_value(s) as i64)
    } else {
        None
    }
}

/// `s` is an optional sign followed by digits and at most one `.`, with at
/// least one digit.
pub open spec fn is_decimal(s: Seq<u8>) -> bool {
    let u = unsigned_part(s);
    &&& exists|i: int| 0 <= i < u.len() && spec_is_digit(#[trigger] u[i])
    &&& forall|i: int| 0 <= i < u.len() ==> spec_is_digit(#[trigger] u[i]) || u[i] == DOT
    &&& forall|i: int, j: int|
        0 <= i < u.len() && 0 <= j < u.len() && #[trigger] u[i] == DOT && #[trigger] u[j] == DOT
            ==> i == j
}

/// What decoding `s` as a token of kind `kind` gives, or `None` when the
/// bytes do not fit the kind.
pub open spec fn decode(kind: TokenType, s: Seq<u8>) -> Option<TokenModel> {
    match kind {
        TokenType::OpenParen => if s.len() == 0 {
            Some(TokenModel::OpenParen)
        } else {
            None
        },
        TokenType::CloseParen => if s.len() == 0 {
            Some(TokenModel::CloseParen)
        } else {
            None
        },
        TokenType::Quote => if s == quote_word() {
            Some(TokenModel::Quote)
        } else {
            None
        },
        TokenType::Lambda => if s == lambda_word() {
            Some(TokenModel::Lambda)
        } else {
            None
        },
        TokenType::If => if s == if_word() {
            Some(TokenModel::If)
        } else {
            None
        },
        TokenType::Ident => match keyword(s) {
            Some(k) => Some(k),
            None => Some(TokenModel::Ident(s)),
        },
        TokenType::Bool => if s == seq![0x74u8] {
            Some(TokenModel::Bool(true))
        } else if s == seq![0x66u8] {
            Some(TokenModel::Bool(false))
        } else {
            None
        },
        TokenType::Int => match spec_parse_int(s) {
            Some(n) => Some(TokenModel::Int(n)),
            None => None,
        },
        TokenType::Float => if is_decimal(s) {
            Some(TokenModel::Float(s))
        } else {
            None
        },
        TokenType::String => Some(TokenModel::String(s)),
    }
}

/// `r` is the outcome that `expected` describes.
pub open spec fn decoded_as<T: View>(r: Result<T, VoidError>, expected: Option<T::V>) -> bool {
    match expected {
        Some(v) => r matches Ok(x) && x@ == v,
        None => r is Err,
    }
}

/// A reserved word decodes, as an identifier, to its own token; any longer
/// byte string that starts with it decodes to a plain identifier.
pub proof fn lemma_keyword_precedence(word: Seq<u8>, ext: Seq<u8>)
    requires
        keyword(word) is Some,
        ext.len() > 0,
    ensures
        decode(TokenType::Ident, word) == keyword(word),
        decode(TokenType::Ident, word + ext) == Some(TokenModel::Ident(word + ext)),
{
    let w = word + ext;
    assert(w[0] == word[0]);
    assert(w.len() > word.len());
    if w == quote_word() || w == lambda_word() || w == if_word() {
        assert(w[0] == word[0]);
        if word == quote_word() {
            assert(w.len() == 6 ==> w[1] != lambda_word()[1]);
        }
    }
}

/// The text of a decimal literal: an optional sign, digits and at most one
/// `.`. Only `TokenFromBytes::from_bytes` makes one, once the text is known
/// to have that shape.
#[derive(Clone, Debug, PartialEq)]
pub struct Decimal {
    text: Vec<u8>,
}

impl View for Decimal {
    type V = Seq<u8>;

    closed spec fn view(&self) -> Seq<u8> {
        self.text@
    }
}

impl Decimal {
    /// The literal's bytes.
    pub fn text(&self) -> (r: &Vec<u8>)
        ensures
            r@ == self@,
    {
        &self.text
    }
}

/// Values that can be read from the raw bytes of a token.
pub trait TokenFromBytes: Sized + View {
    /// The value that `bytes` stand for, if they stand for one.
    spec fn spec_from_bytes(bytes: Seq<u8>) -> Option<Self::V>;

    fn from_bytes(bytes: &[u8]) -> (r: Result<Self, VoidError>)
        ensures
            decoded_as(r, Self::spec_from_bytes(bytes@)),
    ;
}

impl TokenFromBytes for Vec<u8> {
    /// Any bytes, copied as they are.
    open spec fn spec_from_bytes(bytes: Seq<u8>) -> Option<Seq<u8>> {
        Some(bytes)
    }

    fn from_bytes(bytes: &[u8]) -> (r: Result<Vec<u8>, VoidError>) {
        Ok(slice_to_vec(bytes))
    }
}

impl TokenFromBytes for bool {
    /// `t` is true and `f` is false.
    open spec fn spec_from_bytes(bytes: Seq<u8>) -> Option<bool> {
        if bytes == seq![0x74u8] {
            Some(true)
        } else if bytes == seq![0x66u8] {
            Some(false)
        } else {
            None
        }
    }

    fn from_bytes(bytes: &[u8]) -> (r: Result<bool, VoidError>) {
        if bytes.len() == 1 && bytes[0] == 0x74 {
            assert(bytes@ =~= seq![0x74u8]);
            Ok(true)
        } else if bytes.len() == 1 && bytes[0] == 0x66 {
            assert(bytes@ =~= seq![0x66u8]);
            Ok(false)
        } else {
            proof {
                if bytes@ == seq![0x74u8] || bytes@ == seq![0x66u8] {
                    assert(bytes@.len() == 1);
                }
            }
            Err(VoidError)
        }
    }
}

impl TokenFromBytes for i64 {
    open spec fn spec_from_bytes(bytes: Seq<u8>) -> Option<i64> {
        spec_parse_int(bytes)
    }

    fn from_bytes(bytes: &[u8]) -> (r: Result<i64, VoidError>) {
        match parse_int(bytes) {
            Some(n) => Ok(n),
            None => Err(VoidError),
        }
    }
}

impl TokenFromBytes for Decimal {
    open spec fn spec_from_bytes(bytes: Seq<u8>) -> Option<Seq<u8>> {
        if is_decimal(bytes) {
            Some(bytes)
        } else {
            None
        }
    }

    fn from_bytes(bytes: &[u8]) -> (r: Result<Decimal, VoidError>) {
        if scan_decimal(bytes) {
            Ok(Decimal { text: slice_to_vec(bytes) })
        } else {
            Err(VoidError)
        }
    }
}

proof fn lemma_digits_value_nonneg(s: Seq<u8>)
    requires
        all_digits(s),
    ensures
        digits_value(s) >= 0,
    decreases s.len(),
{
    if s.len() > 0 {
        assert(all_digits(s.drop_last()));
        lemma_digits_value_nonneg(s.drop_last());
        assert(spec_is_digit(s[s.len() - 1]));
    }
}

/// A prefix of a digit string is worth no more than the whole.
proof fn lemma_digits_value_prefix(s: Seq<u8>, k: int)
    requires
        all_digits(s),
        0 <= k <= s.len(),
    ensures
        digits_value(s.subrange(0, k)) <= digits_value(s),
    decreases s.len(),
{
    if k < s.len() {
        let t = s.drop_last();
        assert(all_digits(t));
        lemma_digits_value_prefix(t, k);
        assert(t.subrange(0, k) == s.subrange(0, k));
        lemma_digits_value_nonneg(t);
        assert(spec_is_digit(s[s.len() - 1]));
    } else {
        assert(s.subrange(0, k) == s);
    }
}

/// Reads an optional sign and decimal digits as an `i64`; `None` for any
/// other bytes and for values out of range.
pub fn parse_int(bytes: &[u8]) -> (r: Option<i64>)
    ensures
        r == spec_parse_int(bytes@),
{
    let len = bytes.len();
    let neg = len > 0 && bytes[0] == MINUS;
    let signed = len > 0 && (bytes[0] == PLUS || bytes[0] == MINUS);
    let start: usize = if signed { 1 } else { 0 };
    let ghost u = unsigned_part(bytes@);
    assert(u == bytes@.subrange(start as int, len as int));
    if start == len {
        assert(u.len() == 0);
        return None;
    }
    let limit: u64 = if neg { 0x8000_0000_0000_0000 } else { 0x7fff_ffff_ffff_ffff };
    let mut acc: u64 = 0;
    let mut i: usize = start;
    while i < len
        invariant
            start <= i <= len,
            len == bytes@.len(),
            u == bytes@.subrange(start as int, len as int),
            u == unsigned_part(bytes@),
            limit >= 0x7fff_ffff_ffff_ffff,
            neg ==> limit == 0x8000_0000_0000_0000,
            !neg ==> limit == 0x7fff_ffff_ffff_ffff,
            neg == (bytes@.len() > 0 && bytes@[0] == MINUS),
            all_digits(u.subrange(0, i - start)),
            acc as int == digits_value(u.subrange(0, i - start)),
            acc <= limit,
        decreases len - i,
    {
        let c = bytes[i];
        let ghost k = i - start;
        if !is_digit(c) {
            assert(u[k] == c);
            return None;
        }
        let d: u64 = (c - DIGIT_ZERO) as u64;
        assert(d <= 9);
        assert(u.subrange(0, k + 1).drop_last() == u.subrange(0, k));
        assert(u.subrange(0, k + 1).last() == c);
        if acc > (limit - d) / 10 {
            proof {
                if all_digits(u) {
                    lemma_digits_value_prefix(u, k + 1);
                }
            }
            return None;
        }
        acc = acc * 10 + d;
        assert(all_digits(u.subrange(0, k + 1))) by {
            assert forall|j: int| 0 <= j < k + 1 implies spec_is_digit(#[trigger] u.subrange(0, k + 1)[j]) by {
                if j < k {
                    assert(u.subrange(0, k + 1)[j] == u.subrange(0, k)[j]);
                }
            }
        }
        i = i + 1;
    }
    assert(u.subrange(0, len - start) == u);
    if neg {
        if acc == 0x8000_0000_0000_0000 {
            Some(i64::MIN)
        } else {
            Some(-(acc as i64))
        }
    } else {
        Some(acc as i64)
    }
}

/// Tells whether `bytes` is a decimal literal (see `is_decimal`).
pub fn scan_decimal(bytes: &[u8]) -> (r: bool)
    ensures
        r == is_decimal(bytes@),
{
    let len = bytes.len();
    let signed = len > 0 && (bytes[0] == PLUS || bytes[0] == MINUS);
    let start: usize = if signed { 1 } else { 0 };
    let ghost u = unsigned_part(bytes@);
    assert(u == bytes@.subrange(start as int, len as int));
    let mut seen_digit = false;
    let mut seen_dot = false;
    let mut i: usize = start;
    while i < len
        invariant
            start <= i <= len,
            len == bytes@.len(),
            u == bytes@.subrange(start as int, len as int),
            u == unsigned_part(bytes@),
            forall|j: int| 0 <= j < i - start ==> spec_is_digit(#[trigger] u[j]) || u[j] == DOT,
            seen_digit == exists|j: int| 0 <= j < i - start && spec_is_digit(#[trigger] u[j]),
            seen_dot == exists|j: int| 0 <= j < i - start && #[trigger] u[j] == DOT,
            forall|j: int, m: int|
                0 <= j < i - start && 0 <= m < i - start && #[trigger] u[j] == DOT && #[trigger] u[m]
                    == DOT ==> j == m,
        decreases len - i,
    {
        let c = bytes[i];
        let ghost k = i - start;
        assert(u[k] == c);
        if is_digit(c) {
            seen_digit = true;
        } else if c == DOT {
            if seen_dot {
                proof {
                    let j = choose|j: int| 0 <= j < k && #[trigger] u[j] == DOT;
                    assert(u[j] == DOT && u[k] == DOT && j != k);
                    assert(!is_decimal(bytes@));
                }
                return false;
            }
            seen_dot = true;
        } else {
            assert(!(spec_is_digit(u[k]) || u[k] == DOT));
            return false;
        }
        i = i + 1;
    }
    assert(u.len() == len - start);
    seen_digit
}

fn is_quote_word(bytes: &[u8]) -> (r: bool)
    ensures
        r == (bytes@ == quote_word()),
{
    let w: [u8; 5] = [0x71, 0x75, 0x6f, 0x74, 0x65];
    assert(w@ == quote_word());
    bytes_equal(bytes, w.as_slice())
}

fn is_lambda_word(bytes: &[u8]) -> (r: bool)
    ensures
        r == (bytes@ == lambda_word()),
{
    let w: [u8; 6] = [0x6c, 0x61, 0x6d, 0x62, 0x64, 0x61];
    assert(w@ == lambda_word());
    bytes_equal(bytes, w.as_slice())
}

fn is_if_word(bytes: &[u8]) -> (r: bool)
    ensures
        r == (bytes@ == if_word()),
{
    let w: [u8; 2] = [0x69, 0x66];
    assert(w@ == if_word());
    bytes_equal(bytes, w.as_slice())
}

impl TokenType {
    /// Decodes `bytes` as a token of this kind. An identifier that spells a
    /// reserved word exactly becomes that word's token.
    pub fn parse(&self, bytes: &[u8]) -> (r: Result<Token, VoidError>)
        ensures
            decoded_as(r, decode(*self, bytes@)),
    {
        match self {
            TokenType::OpenParen => if bytes.len() == 0 {
                Ok(Token::OpenParen)
            } else {
                Err(VoidError)
            },
            TokenType::CloseParen => if bytes.len() == 0 {
                Ok(Token::CloseParen)
            } else {
                Err(VoidError)
            },
            TokenType::Quote => if is_quote_word(bytes) {
                Ok(Token::Quote)
            } else {
                Err(VoidError)
            },
            TokenType::Lambda => if is_lambda_word(bytes) {
                Ok(Token::Lambda)
            } else {
                Err(VoidError)
            },
            TokenType::If => if is_if_word(bytes) {
                Ok(Token::If)
            } else {
                Err(VoidError)
            },
            TokenType::Ident => if is_quote_word(bytes) {
                Ok(Token::Quote)
            } else if is_lambda_word(bytes) {
                Ok(Token::Lambda)
            } else if is_if_word(bytes) {
                Ok(Token::If)
            } else {
                Ok(Token::Ident(<Vec<u8> as TokenFromBytes>::from_bytes(bytes)?))
            },
            TokenType::Bool => Ok(Token::Bool(<bool as TokenFromBytes>::from_bytes(bytes)?)),
            TokenType::Int => Ok(Token::Int(<i64 as TokenFromBytes>::from_bytes(bytes)?)),
            TokenType::Float => Ok(Token::Float(<Decimal as TokenFromBytes>::from_bytes(bytes)?)),
            TokenType::String => Ok(Token::String(<Vec<u8> as TokenFromBytes>::from_bytes(bytes)?)),
        }
    }
}

/// The decimal digits of `n`.
pub open spec fn nat_text(n: nat) -> Seq<u8>
    decreases n,
{
    if n < 10 {
        seq![(DIGIT_ZERO + n) as u8]
    } else {
        nat_text(n / 10) + seq![(DIGIT_ZERO + n % 10) as u8]
    }
}

/// `n` in decimal, with a `-` when it is negative.
pub open spec fn int_text(n: int) -> Seq<u8> {
    if n < 0 {
        seq![MINUS] + nat_text((-n) as nat)
    } else {
        nat_text(n as nat)
    }
}

/// The lowercase hexadecimal digit of `d`, for `d < 16`.
pub open spec fn hex_digit(d: int) -> u8 {
    if d < 10 {
        (0x30 + d) as u8
    } else {
        (0x57 + d) as u8
    }
}

/// How a string token shows one of its bytes, as a Rust string literal
/// shows it in debug form: `"` and backslash after a backslash, `\n`,
/// `\t`, `\r` and `\0` for those four, `\u{..}` in lowercase hexadecimal
/// for the other ASCII control bytes, and any other byte as it is.
pub open spec fn escape_byte(c: u8) -> Seq<u8> {
    if c == QUOTE_MARK || c == BACKSLASH {
        seq![BACKSLASH, c]
    } else if c == 0x0au8 {
        seq![BACKSLASH, 0x6eu8]
    } else if c == 0x09u8 {
        seq![BACKSLASH, 0x74u8]
    } else if c == 0x0du8 {
        seq![BACKSLASH, 0x72u8]
    } else if c == 0x00u8 {
        seq![BACKSLASH, 0x30u8]
    } else if c < 0x20u8 || c == 0x7fu8 {
        seq![BACKSLASH, 0x75u8, 0x7bu8] + (if c >= 16 {
            seq![hex_digit(c as int / 16)]
        } else {
            Seq::empty()
        }) + seq![hex_digit(c as int % 16), 0x7du8]
    } else {
        seq![c]
    }
}

/// The bytes of `s`, each shown by `escape_byte`.
pub open spec fn escaped(s: Seq<u8>) -> Seq<u8>
    decreases s.len(),
{
    if s.len() == 0 {
        Seq::empty()
    } else {
        escaped(s.drop_last()) + escape_byte(s.last())
    }
}

pub(crate) fn hex_digit_exec(d: u8) -> (r: u8)
    requires
        d < 16,
    ensures
        r == hex_digit(d as int),
{
    if d < 10 {
        0x30 + d
    } else {
        0x57 + d
    }
}

fn push_escaped(out: &mut Vec<u8>, c: u8)
    ensures
        final(out)@ == old(out)@ + escape_byte(c),
{
    if c == QUOTE_MARK || c == BACKSLASH {
        out.push(BACKSLASH);
        out.push(c);
    } else if c == 0x0a {
        out.push(BACKSLASH);
        out.push(0x6e);
    } else if c == 0x09 {
        out.push(BACKSLASH);
        out.push(0x74);
    } else if c == 0x0d {
        out.push(BACKSLASH);
        out.push(0x72);
    } else if c == 0x00 {
        out.push(BACKSLASH);
        out.push(0x30);
    } else if c < 0x20 || c == 0x7f {
        out.push(BACKSLASH);
        out.push(0x75);
        out.push(0x7b);
        if c >= 16 {
            out.push(hex_digit_exec(c / 16));
        }
        out.push(hex_digit_exec(c % 16));
        out.push(0x7d);
    } else {
        out.push(c);
    }
    assert(final(out)@ =~= old(out)@ + escape_byte(c));
}

/// How a token is written in the language. A float keeps the text it was
/// read from.
pub open spec fn token_text(t: TokenModel) -> Seq<u8> {
    match t {
        TokenModel::OpenParen => seq![OPEN_PAREN],
        TokenModel::CloseParen => seq![CLOSE_PAREN],
        TokenModel::Quote => seq![APOSTROPHE],
        TokenModel::Lambda => lambda_word(),
        TokenModel::If => if_word(),
        TokenModel::Ident(s) => s,
        TokenModel::Bool(b) => if b {
            seq![0x23u8, 0x74u8]
        } else {
            seq![0x23u8, 0x66u8]
        },
        TokenModel::Int(n) => int_text(n as int),
        TokenModel::Float(s) => s,
        TokenModel::String(s) => seq![QUOTE_MARK] + escaped(s) + seq![QUOTE_MARK],
    }
}

pub(crate) fn push_digits(out: &mut Vec<u8>, m: u64)
    ensures
        final(out)@ == old(out)@ + nat_text(m as nat),
    decreases m,
{
    if m >= 10 {
        push_digits(out, m / 10);
    }
    out.push(DIGIT_ZERO + (m % 10) as u8);
    proof {
        if m >= 10 {
            assert(final(out)@ =~= old(out)@ + nat_text(m as nat));
        } else {
            assert(final(out)@ =~= old(out)@ + nat_text(m as nat));
        }
    }
}

pub(crate) fn push_all(out: &mut Vec<u8>, b: &[u8])
    ensures
        final(out)@ == old(out)@ + b@,
{
    let mut i: usize = 0;
    while i < b.len()
        invariant
            i <= b@.len(),
            out@ == old(out)@ + b@.subrange(0, i as int),
        decreases b@.len() - i,
    {
        out.push(b[i]);
        assert(b@.subrange(0, i + 1) =~= b@.subrange(0, i as int).push(b@[i as int]));
        i = i + 1;
    }
    assert(b@.subrange(0, i as int) =~= b@);
}

impl Token {
    /// The token as it is written in the language: a string in quotes with
    /// its bytes shown by `escape_byte`, a boolean as `#t` or `#f`, an integer in
    /// decimal, a float as the text it was read from.
    pub fn text(&self) -> (r: Vec<u8>)
        ensures
            r@ == token_text(self@),
    {
        let mut out: Vec<u8> = Vec::new();
        match self {
            Token::OpenParen => out.push(OPEN_PAREN),
            Token::CloseParen => out.push(CLOSE_PAREN),
            Token::Quote => out.push(APOSTROPHE),
            Token::Lambda => {
                let w: [u8; 6] = [0x6c, 0x61, 0x6d, 0x62, 0x64, 0x61];
                assert(w@ == lambda_word());
                push_all(&mut out, w.as_slice());
            },
            Token::If => {
                let w: [u8; 2] = [0x69, 0x66];
                assert(w@ == if_word());
                push_all(&mut out, w.as_slice());
            },
            Token::Ident(s) => push_all(&mut out, s.as_slice()),
            Token::Bool(b) => {
                out.push(0x23);
                out.push(if *b { 0x74 } else { 0x66 });
            },
            Token::Int(n) => {
                if *n < 0 {
                    out.push(MINUS);
                    let m: u64 = if *n == i64::MIN {
                        0x8000_0000_0000_0000
                    } else {
                        (-*n) as u64
                    };
                    push_digits(&mut out, m);
                } else {
                    push_digits(&mut out, *n as u64);
                }
            },
            Token::Float(d) => push_all(&mut out, d.text().as_slice()),
            Token::String(s) => {
                out.push(QUOTE_MARK);
                let mut i: usize = 0;
                while i < s.len()
                    invariant
                        i <= s@.len(),
                        out@ == seq![QUOTE_MARK] + escaped(s@.subrange(0, i as int)),
                    decreases s@.len() - i,
                {
                    let c = s[i];
                    assert(s@.subrange(0, i + 1).drop_last() =~= s@.subrange(0, i as int));
                    push_escaped(&mut out, c);
                    assert(out@ =~= seq![QUOTE_MARK] + escaped(s@.subrange(0, i + 1)));
                    i = i + 1;
                }
                assert(s@.subrange(0, i as int) =~= s@);
                out.push(QUOTE_MARK);
            },
        }
        proof {
            assert(out@ =~= token_text(self@));
        }
        out
    }
}

} // verus!
