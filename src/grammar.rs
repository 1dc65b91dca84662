//! The grammar notation: productions, their model, and the reader.
//!
//! A grammar is a sequence of lines, one production each:
//! `[_]Name[(param)] -> alt | alt | ...`. A leading `_` marks a syntax
//! production; without it the production is a lexical token rule. An
//! alternative is a run of space-separated terms, optionally followed by
//! `=> Output`; the alternative `c..d` stands for one single-byte literal
//! alternative per byte from `c` to `d`.

use vstd::prelude::*;
use vstd::slice::{slice_subrange, slice_to_vec};
use vstd::utf8::{pop_first_scalar, valid_first_scalar, valid_utf8};

use crate::table::{CLOSE_PAREN, DOT, MINUS, NEWLINE, OPEN_PAREN, PIPE, PLUS};
use crate::text::{
    bytes_equal, drop_empty, find_sep, words, is_space, is_utf8, split, split_by, trim, trim_spaces, trim_start,
    view_all, Separator,
};

verus! {

pub const UNDERSCORE: u8 = 0x5f;
pub const STAR: u8 = 0x2a;
pub const EQUALS: u8 = 0x3d;
pub const GREATER: u8 = 0x3e;

/// A repetition or void mark on a term.
#[derive(Clone, Copy, Debug, PartialEq, Eq, Structural)]
pub enum MatcherAttribute {
    /// `*`: zero or more.
    Many,
    /// `+`: one or more.
    Many1,
    /// `_`: matched but left out of the output.
    Void,
}

/// A term: a reference to another production, or a literal pattern.
#[derive(Clone, Debug, PartialEq)]
pub enum FormatPattern {
    Production(Vec<u8>),
    Literal(Vec<u8>),
}

#[derive(Clone, Debug, PartialEq)]
pub struct FormatPart {
    pub attr: Option<MatcherAttribute>,
    pub pattern: FormatPattern,
}

/// One alternative: its terms in order, and the name of its output
/// constructor, if it has one.
#[derive(Clone, Debug, PartialEq)]
pub struct ProductionInput {
    pub output: Option<Vec<u8>>,
    pub format: Vec<FormatPart>,
}

/// A production: its name, its parameter, whether it is a lexical token
/// rule, and its alternatives in order of precedence.
#[derive(Clone, Debug, PartialEq)]
pub struct Production {
    pub name: Vec<u8>,
    pub param: Option<Vec<u8>>,
    pub is_token: bool,
    pub inputs: Vec<ProductionInput>,
}

pub enum PatternModel {
    Production(Seq<u8>),
    Literal(Seq<u8>),
}

pub struct PartModel {
    pub attr: Option<MatcherAttribute>,
    pub pattern: PatternModel,
}

pub struct InputModel {
    pub output: Option<Seq<u8>>,
    pub format: Seq<PartModel>,
}

pub struct ProductionModel {
    pub name: Seq<u8>,
    pub param: Option<Seq<u8>>,
    pub is_token: bool,
    pub inputs: Seq<InputModel>,
}

pub open spec fn opt_view(o: Option<Vec<u8>>) -> Option<Seq<u8>> {
    match o {
        Some(v) => Some(v@),
        None => None,
    }
}

impl View for FormatPattern {
    type V = PatternModel;

    open spec fn view(&self) -> PatternModel {
        match self {
            FormatPattern::Production(v) => PatternModel::Production(v@),
            FormatPattern::Literal(v) => PatternModel::Literal(v@),
        }
    }
}

impl View for FormatPart {
    type V = PartModel;

    open spec fn view(&self) -> PartModel {
        PartModel { attr: self.attr, pattern: self.pattern@ }
    }
}

pub open spec fn parts_view(v: Seq<FormatPart>) -> Seq<PartModel> {
    v.map_values(|p: FormatPart| p@)
}

impl View for ProductionInput {
    type V = InputModel;

    open spec fn view(&self) -> InputModel {
        InputModel { output: opt_view(self.output), format: parts_view(self.format@) }
    }
}

pub open spec fn inputs_view(v: Seq<ProductionInput>) -> Seq<InputModel> {
    v.map_values(|i: ProductionInput| i@)
}

impl View for Production {
    type V = ProductionModel;

    open spec fn view(&self) -> ProductionModel {
        ProductionModel {
            name: self.name@,
            param: opt_view(self.param),
            is_token: self.is_token,
            inputs: inputs_view(self.inputs@),
        }
    }
}

pub open spec fn grammar_view(v: Seq<Production>) -> Seq<ProductionModel> {
    v.map_values(|p: Production| p@)
}

/// Why a grammar was refused.
#[derive(Clone, Copy, Debug, PartialEq, Eq, Structural)]
pub enum GrammarError {
    /// A production line has no `->` after its name (or its parameter).
    MissingArrow,
    /// A parameter list is not closed by `)`.
    UnterminatedParam,
    /// A name, parameter, term or output name is not well-formed UTF-8.
    InvalidUtf8,
    /// More than one word follows `=>` in an alternative.
    MultipleOutputs,
}

pub open spec fn attr_of(c: u8) -> Option<MatcherAttribute> {
    if c == STAR {
        Some(MatcherAttribute::Many)
    } else if c == PLUS {
        Some(MatcherAttribute::Many1)
    } else if c == UNDERSCORE {
        Some(MatcherAttribute::Void)
    } else {
        None
    }
}

pub open spec fn is_upper(c: u8) -> bool {
    0x41u8 <= c && c <= 0x5au8
}

/// The attribute that a word's last byte gives it; a word of one byte has none.
pub open spec fn word_attr(w: Seq<u8>) -> Option<MatcherAttribute> {
    if w.len() > 1 {
        attr_of(w.last())
    } else {
        None
    }
}

/// A word without its attribute mark.
pub open spec fn word_body(w: Seq<u8>) -> Seq<u8> {
    if word_attr(w) is Some {
        w.drop_last()
    } else {
        w
    }
}

/// A body of two or more bytes that starts with an ASCII capital names a
/// production; any other body is a literal.
pub open spec fn pattern_of(body: Seq<u8>) -> PatternModel {
    if body.len() > 1 && is_upper(body[0]) {
        PatternModel::Production(body)
    } else {
        PatternModel::Literal(body)
    }
}

pub open spec fn spec_parse_word(w: Seq<u8>) -> Result<PartModel, GrammarError> {
    if valid_utf8(word_body(w)) {
        Ok(PartModel { attr: word_attr(w), pattern: pattern_of(word_body(w)) })
    } else {
        Err(GrammarError::InvalidUtf8)
    }
}

/// The terms of an alternative, word by word; the first bad word decides.
pub open spec fn spec_parse_words(ws: Seq<Seq<u8>>) -> Result<Seq<PartModel>, GrammarError>
    decreases ws.len(),
{
    if ws.len() == 0 {
        Ok(Seq::empty())
    } else {
        match spec_parse_word(ws[0]) {
            Err(e) => Err(e),
            Ok(p) => match spec_parse_words(ws.drop_first()) {
                Err(e) => Err(e),
                Ok(ps) => Ok(seq![p] + ps),
            },
        }
    }
}

/// The bytes of `=>`.
pub open spec fn arrow_word() -> Seq<u8> {
    seq![EQUALS, GREATER]
}

/// The index of the first `=>` among `ws`, or `ws.len()`.
pub open spec fn find_arrow_word(ws: Seq<Seq<u8>>) -> nat
    decreases ws.len(),
{
    if ws.len() == 0 {
        0
    } else if ws[0] == arrow_word() {
        0
    } else {
        1 + find_arrow_word(ws.drop_first())
    }
}

/// An alternative of exactly the shape `c..d`.
pub open spec fn is_range(a: Seq<u8>) -> bool {
    a.len() == 4 && a[1] == DOT && a[2] == DOT
}

/// One literal alternative per byte from `lo` to `hi`.
pub open spec fn range_inputs(lo: u8, hi: u8) -> Seq<InputModel> {
    Seq::new(
        if lo <= hi {
            (hi - lo + 1) as nat
        } else {
            0
        },
        |i: int|
            InputModel {
                output: None,
                format: seq![
                    PartModel {
                        attr: None,
                        pattern: PatternModel::Literal(seq![(lo + i) as u8]),
                    },
                ],
            },
    )
}

/// The alternatives that one trimmed piece of a right-hand side stands for.
/// Its words are the runs of bytes between spaces.
pub open spec fn spec_parse_alt(a: Seq<u8>) -> Result<Seq<InputModel>, GrammarError> {
    if is_range(a) {
        if exists|c: u8| a[0] <= c <= a[3] && !valid_utf8(seq![c]) {
            Err(GrammarError::InvalidUtf8)
        } else {
            Ok(range_inputs(a[0], a[3]))
        }
    } else {
        let words = drop_empty(split_by(a, Separator::Space));
        let e = find_arrow_word(words) as int;
        let rest = if e < words.len() {
            words.subrange(e + 1, words.len() as int)
        } else {
            Seq::empty()
        };
        match spec_parse_words(words.subrange(0, e)) {
            Err(x) => Err(x),
            Ok(ps) => if rest.len() > 0 && !valid_utf8(rest[0]) {
                Err(GrammarError::InvalidUtf8)
            } else if rest.len() > 1 {
                Err(GrammarError::MultipleOutputs)
            } else {
                Ok(
                    seq![
                        InputModel {
                            output: if rest.len() == 1 {
                                Some(rest[0])
                            } else {
                                None
                            },
                            format: ps,
                        },
                    ],
                )
            },
        }
    }
}

/// The alternatives of a right-hand side cut at each `|`.
pub open spec fn spec_parse_alts(pieces: Seq<Seq<u8>>) -> Result<Seq<InputModel>, GrammarError>
    decreases pieces.len(),
{
    if pieces.len() == 0 {
        Ok(Seq::empty())
    } else {
        match spec_parse_alt(trim(pieces[0])) {
            Err(e) => Err(e),
            Ok(xs) => match spec_parse_alts(pieces.drop_first()) {
                Err(e) => Err(e),
                Ok(ys) => Ok(xs + ys),
            },
        }
    }
}

pub open spec fn spec_parse_right(rest: Seq<u8>) -> Result<Seq<InputModel>, GrammarError> {
    spec_parse_alts(split_by(rest, Separator::Byte(PIPE)))
}

fn parse_word(w: &[u8]) -> (r: Result<FormatPart, GrammarError>)
    ensures
        match spec_parse_word(w@) {
            Ok(p) => r matches Ok(x) && x@ == p,
            Err(e) => r == Err::<FormatPart, _>(e),
        },
{
    let len = w.len();
    let attr = if len > 1 {
        let c = w[len - 1];
        if c == STAR {
            Some(MatcherAttribute::Many)
        } else if c == PLUS {
            Some(MatcherAttribute::Many1)
        } else if c == UNDERSCORE {
            Some(MatcherAttribute::Void)
        } else {
            None
        }
    } else {
        None
    };
    let body = if attr.is_some() {
        slice_subrange(w, 0, len - 1)
    } else {
        w
    };
    assert(body@ =~= word_body(w@));
    if !is_utf8(body) {
        return Err(GrammarError::InvalidUtf8);
    }
    let text = slice_to_vec(body);
    let pattern = if body.len() > 1 && 0x41 <= body[0] && body[0] <= 0x5a {
        FormatPattern::Production(text)
    } else {
        FormatPattern::Literal(text)
    };
    Ok(FormatPart { attr, pattern })
}

fn is_arrow_word(w: &[u8]) -> (r: bool)
    ensures
        r == (w@ == arrow_word()),
{
    let r = w.len() == 2 && w[0] == EQUALS && w[1] == GREATER;
    if r {
        assert(w@ =~= arrow_word());
    }
    r
}

/// Reads one trimmed piece of a right-hand side.
fn parse_alt(a: &[u8]) -> (r: Result<Vec<ProductionInput>, GrammarError>)
    ensures
        match spec_parse_alt(a@) {
            Ok(xs) => r matches Ok(v) && inputs_view(v@) == xs,
            Err(e) => r matches Err(x) && x == e,
        },
{
    let mut inputs: Vec<ProductionInput> = Vec::new();
    if a.len() == 4 && a[1] == DOT && a[2] == DOT {
        let lo = a[0];
        let hi = a[3];
        let ghost n: int = if lo <= hi { hi - lo + 1 } else { 0 };
        if lo <= hi {
            let mut c: u8 = lo;
            loop
                invariant
                    is_range(a@),
                    lo <= c <= hi,
                    n == hi - lo + 1,
                    lo == a@[0],
                    hi == a@[3],
                    inputs_view(inputs@) == range_inputs(lo, hi).subrange(0, c - lo),
                    forall|d: u8| lo <= d < c ==> valid_utf8(seq![d]),
                decreases hi - c,
            {
                let byte: [u8; 1] = [c];
                if !is_utf8(byte.as_slice()) {
                    assert(byte@ =~= seq![c]);
                    assert(is_range(a@));
                    assert(a@[0] <= c <= a@[3] && !valid_utf8(seq![c]));
                    return Err(GrammarError::InvalidUtf8);
                }
                assert(byte@ =~= seq![c]);
                let ghost before = inputs@;
                let mut format: Vec<FormatPart> = Vec::new();
                format.push(FormatPart { attr: None, pattern: FormatPattern::Literal(vec![c]) });
                inputs.push(ProductionInput { output: None, format });
                assert(parts_view(inputs@.last().format@) =~= seq![
                    PartModel { attr: None, pattern: PatternModel::Literal(seq![c]) },
                ]);
                assert(inputs_view(inputs@) =~= range_inputs(lo, hi).subrange(0, c - lo + 1)) by {
                    assert(inputs_view(inputs@) =~= inputs_view(before).push(inputs@.last()@));
                };
                if c == hi {
                    assert(range_inputs(lo, hi).subrange(0, n) =~= range_inputs(lo, hi));
                    assert(is_range(a@));
                    assert(forall|d: u8| lo <= d <= hi ==> valid_utf8(seq![d]));
                    return Ok(inputs);
                }
                c = c + 1;
            }
        } else {
            assert(inputs_view(inputs@) =~= range_inputs(lo, hi));
            return Ok(inputs);
        }
    }
    let words = words(a);
    let ghost wv = view_all(words@);
    let mut e: usize = 0;
    assert(wv.skip(0) =~= wv);
    while e < words.len() && !is_arrow_word(words[e].as_slice())
        invariant
            e <= words@.len(),
            wv == view_all(words@),
            find_arrow_word(wv) == e + find_arrow_word(wv.skip(e as int)),
        decreases words@.len() - e,
    {
        assert(wv.skip(e as int).drop_first() =~= wv.skip(e + 1));
        e = e + 1;
    }
    proof {
        if e < words@.len() {
            assert(wv.skip(e as int)[0] == wv[e as int]);
        }
        assert(find_arrow_word(wv) == e);
    }
    let mut format: Vec<FormatPart> = Vec::new();
    let mut i: usize = 0;
    while i < e
        invariant
            i <= e <= words@.len(),
            wv == view_all(words@),
            wv == drop_empty(split_by(a@, Separator::Space)),
            !is_range(a@),
            find_arrow_word(wv) == e,
            spec_parse_words(wv.subrange(0, e as int)) == match spec_parse_words(
                wv.subrange(i as int, e as int),
            ) {
                Ok(ps) => Ok(parts_view(format@) + ps),
                Err(x) => Err(x),
            },
        decreases e - i,
    {
        assert(wv.subrange(i as int, e as int).drop_first() =~= wv.subrange(i + 1, e as int));
        assert(wv.subrange(i as int, e as int)[0] == words@[i as int]@);
        let part = parse_word(words[i].as_slice());
        match part {
            Ok(p) => {
                let ghost before = format@;
                format.push(p);
                assert(parts_view(format@) =~= parts_view(before) + seq![p@]);
                proof {
                    match spec_parse_words(wv.subrange(i + 1, e as int)) {
                        Ok(ps) => assert(parts_view(before) + (seq![p@] + ps) =~= parts_view(format@)
                            + ps),
                        Err(_) => {},
                    }
                }
            },
            Err(x) => {
                assert(spec_parse_words(wv.subrange(i as int, e as int)) == Err::<
                    Seq<PartModel>,
                    GrammarError,
                >(x));
                return Err(x);
            },
        }
        i = i + 1;
    }
    assert(parts_view(format@) + Seq::<PartModel>::empty() =~= parts_view(format@));
    let ghost rest = if e < wv.len() {
        wv.subrange(e + 1, wv.len() as int)
    } else {
        Seq::<Seq<u8>>::empty()
    };
    let mut output: Option<Vec<u8>> = None;
    if e < words.len() && e + 1 < words.len() {
        assert(rest[0] == words@[e + 1]@);
        if !is_utf8(words[e + 1].as_slice()) {
            return Err(GrammarError::InvalidUtf8);
        }
        if e + 2 < words.len() {
            return Err(GrammarError::MultipleOutputs);
        }
        output = Some(slice_to_vec(words[e + 1].as_slice()));
    }
    inputs.push(ProductionInput { output, format });
    assert(inputs_view(inputs@) =~= seq![inputs@[0]@]);
    Ok(inputs)
}

/// `->` starts at index `k` of `s`.
pub open spec fn arrow_at(s: Seq<u8>, k: int) -> bool {
    0 <= k && k + 1 < s.len() && s[k] == MINUS && s[k + 1] == GREATER
}

/// The index of the first `->` in `s` (or of the first `(`, when `paren`
/// holds, if that comes first), or `s.len()`.
pub open spec fn find_mark(s: Seq<u8>, paren: bool) -> nat
    decreases s.len(),
{
    if s.len() == 0 {
        0
    } else if (paren && s[0] == OPEN_PAREN) || arrow_at(s, 0) {
        0
    } else {
        1 + find_mark(s.drop_first(), paren)
    }
}

/// The production that a line makes, once its parts are found.
pub open spec fn spec_finish(
    is_token: bool,
    name: Seq<u8>,
    param: Option<Seq<u8>>,
    rest: Seq<u8>,
) -> Result<ProductionModel, GrammarError> {
    if !valid_utf8(name) || (param is Some && !valid_utf8(param->Some_0)) {
        Err(GrammarError::InvalidUtf8)
    } else {
        match spec_parse_right(rest) {
            Err(e) => Err(e),
            Ok(inputs) => Ok(ProductionModel { name, param, is_token, inputs }),
        }
    }
}

/// What one line that is not blank reads as. The name runs up to `(` or
/// `->`; a parameter runs from `(` to the next `)`, and whatever stands
/// between that `)` and the next `->` is ignored. Everything after the `->`
/// is the right-hand side.
pub open spec fn spec_parse_line(l: Seq<u8>) -> Result<ProductionModel, GrammarError> {
    let t = trim_start(l);
    let is_token = !(t.len() > 0 && t[0] == UNDERSCORE);
    let body = if is_token {
        t
    } else {
        t.drop_first()
    };
    let k = find_mark(body, true) as int;
    if k >= body.len() {
        Err(GrammarError::MissingArrow)
    } else if body[k] == OPEN_PAREN {
        let after = body.subrange(k + 1, body.len() as int);
        let q = find_sep(after, Separator::Byte(CLOSE_PAREN)) as int;
        if q >= after.len() {
            Err(GrammarError::UnterminatedParam)
        } else {
            let after2 = after.subrange(q + 1, after.len() as int);
            let a = find_mark(after2, false) as int;
            if a >= after2.len() {
                Err(GrammarError::MissingArrow)
            } else {
                spec_finish(
                    is_token,
                    trim(body.subrange(0, k)),
                    Some(trim(after.subrange(0, q))),
                    after2.subrange(a + 2, after2.len() as int),
                )
            }
        }
    } else {
        spec_finish(
            is_token,
            trim(body.subrange(0, k)),
            None,
            body.subrange(k + 2, body.len() as int),
        )
    }
}

pub open spec fn is_blank(l: Seq<u8>) -> bool {
    trim_start(l).len() == 0
}

/// The productions of the lines, in order, blank lines skipped; the first
/// bad line decides the error.
pub open spec fn spec_parse_lines(ls: Seq<Seq<u8>>) -> Result<Seq<ProductionModel>, GrammarError>
    decreases ls.len(),
{
    if ls.len() == 0 {
        Ok(Seq::empty())
    } else if is_blank(ls[0]) {
        spec_parse_lines(ls.drop_first())
    } else {
        match spec_parse_line(ls[0]) {
            Err(e) => Err(e),
            Ok(p) => match spec_parse_lines(ls.drop_first()) {
                Err(e) => Err(e),
                Ok(ps) => Ok(seq![p] + ps),
            },
        }
    }
}

/// The index of the production named `name` in `g`, or `g.len()`.
pub open spec fn index_of_name(g: Seq<ProductionModel>, name: Seq<u8>) -> nat
    decreases g.len(),
{
    if g.len() == 0 {
        0
    } else if g[0].name == name {
        0
    } else {
        1 + index_of_name(g.drop_first(), name)
    }
}

/// `g` with `p` added: a production of the same name is replaced where it
/// stands, otherwise `p` comes last.
pub open spec fn insert_production(g: Seq<ProductionModel>, p: ProductionModel) -> Seq<
    ProductionModel,
> {
    let i = index_of_name(g, p.name) as int;
    if i < g.len() {
        g.update(i, p)
    } else {
        g.push(p)
    }
}

/// The productions in order of first appearance, each name once, with the
/// definition that came last.
pub open spec fn collect(ps: Seq<ProductionModel>) -> Seq<ProductionModel>
    decreases ps.len(),
{
    if ps.len() == 0 {
        Seq::empty()
    } else {
        insert_production(collect(ps.drop_last()), ps.last())
    }
}

/// What a grammar text reads as.
pub open spec fn spec_parse_grammar(text: Seq<u8>) -> Result<Seq<ProductionModel>, GrammarError> {
    match spec_parse_lines(split_by(text, Separator::Byte(NEWLINE))) {
        Err(e) => Err(e),
        Ok(ps) => Ok(collect(ps)),
    }
}

/// Reads a right-hand side: its pieces between `|`, each trimmed.
fn parse_right(rest: &[u8]) -> (r: Result<Vec<ProductionInput>, GrammarError>)
    ensures
        match spec_parse_right(rest@) {
            Ok(xs) => r matches Ok(v) && inputs_view(v@) == xs,
            Err(e) => r matches Err(x) && x == e,
        },
{
    let pieces = split(rest, Separator::Byte(PIPE));
    let ghost pv = view_all(pieces@);
    let mut inputs: Vec<ProductionInput> = Vec::new();
    let mut i: usize = 0;
    assert(pv.skip(0) =~= pv);
    assert(inputs_view(inputs@) + Seq::<InputModel>::empty() =~= Seq::<InputModel>::empty());
    while i < pieces.len()
        invariant
            i <= pieces@.len(),
            pv == view_all(pieces@),
            pv == split_by(rest@, Separator::Byte(PIPE)),
            spec_parse_alts(pv) == match spec_parse_alts(pv.skip(i as int)) {
                Ok(xs) => Ok(inputs_view(inputs@) + xs),
                Err(x) => Err(x),
            },
        decreases pieces@.len() - i,
    {
        assert(pv.skip(i as int).drop_first() =~= pv.skip(i + 1));
        assert(pv.skip(i as int)[0] == pieces@[i as int]@);
        let alt = trim_spaces(pieces[i].as_slice());
        match parse_alt(alt) {
            Ok(mut more) => {
                let ghost before = inputs@;
                let ghost added = inputs_view(more@);
                let ghost rest_alts = spec_parse_alts(pv.skip(i + 1));
                inputs.append(&mut more);
                assert(inputs_view(inputs@) =~= inputs_view(before) + added);
                proof {
                    if let Ok(ys) = rest_alts {
                        assert(inputs_view(before) + (added + ys) =~= inputs_view(inputs@) + ys);
                    }
                }
            },
            Err(x) => {
                return Err(x);
            },
        }
        i = i + 1;
    }
    assert(pv.skip(i as int) =~= Seq::<Seq<u8>>::empty());
    assert(inputs_view(inputs@) + Seq::<InputModel>::empty() =~= inputs_view(inputs@));
    Ok(inputs)
}

fn find_mark_exec(s: &[u8], paren: bool) -> (r: usize)
    ensures
        r == find_mark(s@, paren),
        r <= s@.len(),
        r < s@.len() ==> (paren && s@[r as int] == OPEN_PAREN) || arrow_at(s@, r as int),
{
    let mut i: usize = 0;
    assert(s@.skip(0) =~= s@);
    while i < s.len()
        invariant
            i <= s@.len(),
            find_mark(s@, paren) == i + find_mark(s@.skip(i as int), paren),
        decreases s@.len() - i,
    {
        let ghost t = s@.skip(i as int);
        let hit = (paren && s[i] == OPEN_PAREN) || (i + 1 < s.len() && s[i] == MINUS && s[i + 1]
            == GREATER);
        assert(t[0] == s@[i as int]);
        assert(i + 1 < s@.len() ==> t[1] == s@[i + 1]);
        if hit {
            return i;
        }
        assert(t.drop_first() =~= s@.skip(i + 1));
        i = i + 1;
    }
    i
}

/// Reads one line that is not blank.
fn parse_line(l: &[u8]) -> (r: Result<Production, GrammarError>)
    requires
        !is_blank(l@),
    ensures
        match spec_parse_line(l@) {
            Ok(p) => r matches Ok(x) && x@ == p,
            Err(e) => r matches Err(x) && x == e,
        },
{
    let mut lo: usize = 0;
    let len = l.len();
    assert(l@.skip(0) =~= l@);
    while lo < len && is_space(l[lo])
        invariant
            lo <= len,
            len == l@.len(),
            trim_start(l@.skip(lo as int)) == trim_start(l@),
        decreases len - lo,
    {
        assert(l@.skip(lo as int).drop_first() =~= l@.skip(lo + 1));
        lo = lo + 1;
    }
    let t = slice_subrange(l, lo, len);
    assert(t@ =~= l@.skip(lo as int));
    assert(trim_start(l@) == t@);
    let is_token = !(t.len() > 0 && t[0] == UNDERSCORE);
    let body = if is_token {
        t
    } else {
        slice_subrange(t, 1, t.len())
    };
    assert(!is_token ==> body@ =~= t@.drop_first());
    let k = find_mark_exec(body, true);
    if k >= body.len() {
        return Err(GrammarError::MissingArrow);
    }
    let name_slice = trim_spaces(slice_subrange(body, 0, k));
    let name = slice_to_vec(name_slice);
    let param: Option<Vec<u8>>;
    let rest: &[u8];
    if body[k] == OPEN_PAREN {
        let after = slice_subrange(body, k + 1, body.len());
        let q = find_close(after);
        if q >= after.len() {
            return Err(GrammarError::UnterminatedParam);
        }
        let after2 = slice_subrange(after, q + 1, after.len());
        let a = find_mark_exec(after2, false);
        if a >= after2.len() {
            return Err(GrammarError::MissingArrow);
        }
        let p = trim_spaces(slice_subrange(after, 0, q));
        if !is_utf8(name_slice) || !is_utf8(p) {
            return Err(GrammarError::InvalidUtf8);
        }
        param = Some(slice_to_vec(p));
        rest = slice_subrange(after2, a + 2, after2.len());
    } else {
        if !is_utf8(name_slice) {
            return Err(GrammarError::InvalidUtf8);
        }
        param = None;
        rest = slice_subrange(body, k + 2, body.len());
    }
    let inputs = parse_right(rest)?;
    Ok(Production { name, param, is_token, inputs })
}

fn find_close(s: &[u8]) -> (r: usize)
    ensures
        r == find_sep(s@, Separator::Byte(CLOSE_PAREN)),
        r <= s@.len(),
{
    let mut i: usize = 0;
    assert(s@.skip(0) =~= s@);
    while i < s.len() && s[i] != CLOSE_PAREN
        invariant
            i <= s@.len(),
            find_sep(s@, Separator::Byte(CLOSE_PAREN)) == i + find_sep(
                s@.skip(i as int),
                Separator::Byte(CLOSE_PAREN),
            ),
        decreases s@.len() - i,
    {
        assert(s@.skip(i as int).drop_first() =~= s@.skip(i + 1));
        i = i + 1;
    }
    if i < s.len() {
        assert(s@.skip(i as int)[0] == s@[i as int]);
    }
    i
}

fn blank(l: &[u8]) -> (r: bool)
    ensures
        r == is_blank(l@),
{
    let mut i: usize = 0;
    assert(l@.skip(0) =~= l@);
    while i < l.len() && is_space(l[i])
        invariant
            i <= l@.len(),
            trim_start(l@.skip(i as int)) == trim_start(l@),
        decreases l@.len() - i,
    {
        assert(l@.skip(i as int).drop_first() =~= l@.skip(i + 1));
        i = i + 1;
    }
    if i < l.len() {
        assert(l@.skip(i as int)[0] == l@[i as int]);
    } else {
        assert(l@.skip(i as int) =~= Seq::<u8>::empty());
    }
    i == l.len()
}

/// The index of the production named `name`, or the number of productions.
fn find_name(g: &Vec<Production>, name: &Vec<u8>) -> (r: usize)
    ensures
        r == index_of_name(grammar_view(g@), name@),
{
    let ghost gv = grammar_view(g@);
    let mut i: usize = 0;
    assert(gv.skip(0) =~= gv);
    while i < g.len()
        invariant
            i <= g@.len(),
            gv == grammar_view(g@),
            index_of_name(gv, name@) == i + index_of_name(gv.skip(i as int), name@),
        decreases g@.len() - i,
    {
        assert(gv.skip(i as int)[0] == g@[i as int]@);
        if bytes_equal(g[i].name.as_slice(), name.as_slice()) {
            return i;
        }
        assert(gv.skip(i as int).drop_first() =~= gv.skip(i + 1));
        i = i + 1;
    }
    i
}

/// Reads a grammar text: one production per line, blank lines skipped.
/// Productions come in order of first appearance; a name defined twice
/// keeps its first place and its last definition.
pub fn parse_grammar(text: &[u8]) -> (r: Result<Vec<Production>, GrammarError>)
    ensures
        match spec_parse_grammar(text@) {
            Ok(g) => r matches Ok(v) && grammar_view(v@) == g,
            Err(e) => r matches Err(x) && x == e,
        },
{
    let lines = split(text, Separator::Byte(NEWLINE));
    let ghost lv = view_all(lines@);
    let ghost mut ps: Seq<ProductionModel> = Seq::empty();
    let mut result: Vec<Production> = Vec::new();
    let mut i: usize = 0;
    assert(lv.skip(0) =~= lv);
    assert(ps + Seq::<ProductionModel>::empty() =~= Seq::<ProductionModel>::empty());
    assert(grammar_view(result@) =~= collect(ps));
    while i < lines.len()
        invariant
            i <= lines@.len(),
            lv == view_all(lines@),
            lv == split_by(text@, Separator::Byte(NEWLINE)),
            grammar_view(result@) == collect(ps),
            spec_parse_lines(lv) == match spec_parse_lines(lv.skip(i as int)) {
                Ok(qs) => Ok(ps + qs),
                Err(x) => Err(x),
            },
        decreases lines@.len() - i,
    {
        assert(lv.skip(i as int).drop_first() =~= lv.skip(i + 1));
        assert(lv.skip(i as int)[0] == lines@[i as int]@);
        let line = lines[i].as_slice();
        if !blank(line) {
            let p = match parse_line(line) {
                Ok(p) => p,
                Err(x) => {
                    return Err(x);
                },
            };
            let ghost pm = p@;
            let ghost before = result@;
            let idx = find_name(&result, &p.name);
            if idx < result.len() {
                result.set(idx, p);
                assert(grammar_view(result@) =~= grammar_view(before).update(idx as int, pm));
            } else {
                result.push(p);
                assert(grammar_view(result@) =~= grammar_view(before).push(pm));
            }
            proof {
                let ps2 = ps.push(pm);
                assert(ps2.drop_last() =~= ps);
                if let Ok(qs) = spec_parse_lines(lv.skip(i + 1)) {
                    assert(ps + (seq![pm] + qs) =~= ps2 + qs);
                }
                ps = ps2;
            }
        }
        i = i + 1;
    }
    assert(lv.skip(i as int) =~= Seq::<Seq<u8>>::empty());
    assert(ps + Seq::<ProductionModel>::empty() =~= ps);
    Ok(result)
}

/// An alternative `c..d` over ASCII bytes, with `c <= d`, reads as
/// `d - c + 1` alternatives, the `i`-th of them the single literal byte
/// `c + i`, with no attribute and no output.
pub proof fn lemma_range_expansion(lo: u8, hi: u8)
    requires
        lo <= hi <= 0x7f,
    ensures
        spec_parse_alt(seq![lo, DOT, DOT, hi]) == Ok::<Seq<InputModel>, GrammarError>(
            range_inputs(lo, hi),
        ),
        range_inputs(lo, hi).len() == hi - lo + 1,
        forall|i: int|
            0 <= i < range_inputs(lo, hi).len() ==> #[trigger] range_inputs(lo, hi)[i] == (
            InputModel {
                output: None,
                format: seq![
                    PartModel {
                        attr: None,
                        pattern: PatternModel::Literal(seq![(lo + i) as u8]),
                    },
                ],
            }),
{
    let a = seq![lo, DOT, DOT, hi];
    assert(is_range(a));
    assert(a[0] == lo && a[3] == hi);
    assert forall|c: u8| a[0] <= c <= a[3] implies valid_utf8(seq![c]) by {
        let s = seq![c];
        assert(s[0] == c);
        assert((c & 0x7Fu8) as u32 <= 0x7f) by (bit_vector);
        assert(valid_first_scalar(s));
        assert(pop_first_scalar(s) =~= Seq::<u8>::empty());
        assert(valid_utf8(Seq::<u8>::empty()));
    }
}

} // verus!
