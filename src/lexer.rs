//! The lexer: a state machine that reads one byte at a time through the
//! transition table and emits decoded tokens.

use vstd::prelude::*;

use crate::error::{Error, ErrorKind, ErrorModel};
use crate::iter::{StreamAdapter, StreamMap};
use crate::table::{
    spec_is_control, spec_is_delimiter, transition, Consume, LexerState, TransitionTable, NEWLINE,
};
use crate::token::{decode, Token, TokenModel};

verus! {

/// What the lexer holds between two bytes.
pub struct LexerModel {
    pub file_name: Seq<char>,
    pub line: u32,
    pub state: LexerState,
    pub pending: Seq<u8>,
}

/// The result of reading one byte once against the table: the next state,
/// the pending bytes, the tokens emitted, and whether the byte must be read
/// again.
pub open spec fn step(s: LexerState, pending: Seq<u8>, c: u8) -> Result<
    (LexerState, Seq<u8>, Seq<TokenModel>, bool),
    ErrorKind,
> {
    match transition(s, c) {
        Err(_) => Err(ErrorKind::InvalidCharacter(c)),
        Ok(t) => {
            let p = if t.consume == Consume::Append {
                pending.push(c)
            } else {
                pending
            };
            let again = t.consume == Consume::Reprocess;
            match t.output {
                None => Ok((t.next_state, p, Seq::empty(), again)),
                Some(kind) => match decode(kind, p) {
                    None => Err(ErrorKind::InvalidToken(kind)),
                    Some(tok) => Ok((t.next_state, Seq::empty(), seq![tok], again)),
                },
            }
        },
    }
}

/// `Ready` is the only state that never asks for a byte to be read again.
pub open spec fn rank(s: LexerState) -> nat {
    if s is Ready {
        0
    } else {
        1
    }
}

/// A byte that is read again is read in `Ready`, coming from another state.
pub proof fn lemma_reprocess_lowers_rank(s: LexerState, pending: Seq<u8>, c: u8)
    ensures
        match step(s, pending, c) {
            Ok((s2, _p, _t, again)) => again ==> rank(s2) < rank(s),
            Err(_) => true,
        },
{
}

/// Prepends `toks` to the tokens of a successful outcome.
pub open spec fn prepend(
    toks: Seq<TokenModel>,
    r: Result<(LexerState, Seq<u8>, Seq<TokenModel>), ErrorKind>,
) -> Result<(LexerState, Seq<u8>, Seq<TokenModel>), ErrorKind> {
    match r {
        Ok((s, p, t)) => Ok((s, p, toks + t)),
        Err(e) => Err(e),
    }
}

proof fn lemma_prepend_assoc(
    a: Seq<TokenModel>,
    b: Seq<TokenModel>,
    r: Result<(LexerState, Seq<u8>, Seq<TokenModel>), ErrorKind>,
)
    ensures
        prepend(a, prepend(b, r)) == prepend(a + b, r),
{
    if let Ok((s, p, t)) = r {
        assert((a + b) + t =~= a + (b + t));
    }
}

/// The outcome of feeding one byte: table steps are taken until one does not
/// ask for the byte again. A byte is read again only on the way into `Ready`
/// (`lemma_reprocess_lowers_rank`), so there are at most two steps.
pub open spec fn feed(s: LexerState, pending: Seq<u8>, c: u8) -> Result<
    (LexerState, Seq<u8>, Seq<TokenModel>),
    ErrorKind,
>
    decreases rank(s),
{
    match step(s, pending, c) {
        Err(e) => Err(e),
        Ok((s2, p2, toks, again)) => if again && rank(s2) < rank(s) {
            prepend(toks, feed(s2, p2, c))
        } else {
            Ok((s2, p2, toks))
        },
    }
}

/// The line counter after reading `c`: one more on a line feed, held at the
/// largest `u32`.
pub open spec fn next_line(line: u32, c: u8) -> u32 {
    if c == NEWLINE && line < u32::MAX {
        (line + 1) as u32
    } else {
        line
    }
}

/// What pushing `c` into a lexer in state `m` gives: the lexer's new state
/// and the tokens emitted, or the error.
pub open spec fn push_result(m: LexerModel, c: u8) -> Result<(LexerModel, Seq<TokenModel>), ErrorModel> {
    let line = next_line(m.line, c);
    match feed(m.state, m.pending, c) {
        Err(kind) => Err(ErrorModel { file_name: m.file_name, line, kind }),
        Ok((s, p, toks)) => Ok(
            (LexerModel { file_name: m.file_name, line, state: s, pending: p }, toks),
        ),
    }
}

/// Whenever a byte completes a token, nothing is left pending afterwards.
pub proof fn lemma_pending_empty_after_emission(m: LexerModel, c: u8)
    ensures
        match push_result(m, c) {
            Ok((m2, toks)) => toks.len() > 0 ==> m2.pending.len() == 0,
            Err(_) => true,
        },
{
    if let Ok((s2, q2, t2, again)) = step(m.state, m.pending, c) {
        if again && rank(s2) < rank(m.state) {
            assert(spec_is_delimiter(c));
            assert(q2.len() == 0);
            match transition(LexerState::Ready, c) {
                Ok(t) => assert(t.consume != Consume::Append),
                Err(_) => {},
            }
            if let Ok((s3, q3, t3, again3)) = step(s2, q2, c) {
                assert(rank(s2) == 0);
                assert(feed(s2, q2, c) == Ok::<_, ErrorKind>((s3, q3, t3)));
                assert(q3.len() == 0);
            }
        } else {
            assert(t2.len() > 0 ==> q2.len() == 0);
        }
    }
}

/// The line counter moves only on a line feed, by one, and an error reports
/// the line as counted after its byte.
pub proof fn lemma_line_tracking(m: LexerModel, c: u8)
    requires
        m.line < u32::MAX,
    ensures
        match push_result(m, c) {
            Ok((m2, _)) => m2.line == if c == NEWLINE {
                m.line + 1
            } else {
                m.line as int
            },
            Err(e) => e.line == if c == NEWLINE {
                m.line + 1
            } else {
                m.line as int
            },
        },
{
}

/// In `Ready`, an ASCII control byte that is not whitespace is an invalid
/// character, and no token comes of it.
pub proof fn lemma_control_byte_rejected(m: LexerModel, c: u8)
    requires
        m.state is Ready,
        spec_is_control(c),
    ensures
        push_result(m, c) == Err::<(LexerModel, Seq<TokenModel>), _>(
            ErrorModel { file_name: m.file_name, line: next_line(m.line, c), kind: ErrorKind::InvalidCharacter(c) },
        ),
{
}

/// In `Ready` and in `Comment` nothing is pending: every lexer is so
/// between two bytes.
pub open spec fn settled(s: LexerState, pending: Seq<u8>) -> bool {
    (s is Ready || s is Comment) ==> pending.len() == 0
}

/// Feeding a byte to a settled lexer leaves it settled.
pub proof fn lemma_feed_settled(s: LexerState, pending: Seq<u8>, c: u8)
    requires
        settled(s, pending),
    ensures
        match feed(s, pending, c) {
            Ok((s2, p2, _)) => settled(s2, p2),
            Err(_) => true,
        },
{
    if let Ok((s2, q2, t2, again)) = step(s, pending, c) {
        if again && rank(s2) < rank(s) {
            assert(q2.len() == 0);
            if let Ok((s3, q3, t3, again3)) = step(s2, q2, c) {
                assert(rank(s2) == 0);
                assert(feed(s2, q2, c) == Ok::<_, ErrorKind>((s3, q3, t3)));
                match transition(LexerState::Ready, c) {
                    Ok(t) => assert(t.consume != Consume::Append),
                    Err(_) => {},
                }
                assert(settled(s3, q3));
            }
        } else {
            assert(feed(s, pending, c) == Ok::<_, ErrorKind>((s2, q2, t2)));
            assert(settled(s2, q2));
        }
    }
}

pub open spec fn tokens_view(v: Seq<Token>) -> Seq<TokenModel> {
    v.map_values(|t: Token| t@)
}

/// A lexer over one input, named `file_name` in its errors.
#[derive(Debug)]
pub struct Lexer<'a> {
    file_name: &'a str,
    table: &'a TransitionTable,
    line: u32,
    state: LexerState,
    current: Vec<u8>,
}

impl<'a> View for Lexer<'a> {
    type V = LexerModel;

    closed spec fn view(&self) -> LexerModel {
        LexerModel {
            file_name: self.file_name@,
            line: self.line,
            state: self.state,
            pending: self.current@,
        }
    }
}

impl<'a> Lexer<'a> {
    /// Nothing is pending in `Ready` or in `Comment`.
    #[verifier::type_invariant]
    closed spec fn inv(&self) -> bool {
        settled(self.state, self.current@)
    }

    /// A lexer at line 0, in `Ready`, with nothing pending.
    pub fn new(file_name: &'a str, table: &'a TransitionTable) -> (l: Lexer<'a>)
        ensures
            l@ == (LexerModel {
                file_name: file_name@,
                line: 0,
                state: LexerState::Ready,
                pending: Seq::empty(),
            }),
    {
        Lexer { file_name, table, line: 0, state: LexerState::Ready, current: Vec::new() }
    }

    /// The current line, counted from 0.
    pub fn line(&self) -> (r: u32)
        ensures
            r == self@.line,
    {
        self.line
    }

    /// The current state.
    pub fn state(&self) -> (r: LexerState)
        ensures
            r == self@.state,
            settled(self@.state, self@.pending),
    {
        proof {
            use_type_invariant(self);
        }
        self.state
    }

    /// The bytes of the token being assembled.
    pub fn pending(&self) -> (r: &[u8])
        ensures
            r@ == self@.pending,
            settled(self@.state, self@.pending),
    {
        proof {
            use_type_invariant(self);
        }
        self.current.as_slice()
    }

    fn error(&self, kind: ErrorKind) -> (e: Error)
        ensures
            e@ == (ErrorModel { file_name: self@.file_name, line: self@.line, kind }),
    {
        Error { file_name: self.file_name.to_string(), line: self.line, kind }
    }

    /// Reads one byte and appends the tokens it completes to `out`. On an
    /// error nothing is appended, and the lexer must not be fed again.
    pub fn push_char(&mut self, c: u8, out: &mut Vec<Token>) -> (r: Result<(), Error>)
        ensures
            match push_result(old(self)@, c) {
                Ok((m, toks)) => {
                    &&& r is Ok
                    &&& final(self)@ == m
                    &&& tokens_view(final(out)@) == tokens_view(old(out)@) + toks
                },
                Err(e) => {
                    &&& r matches Err(err) && err@ == e
                    &&& final(out)@ == old(out)@
                    &&& final(self)@.file_name == old(self)@.file_name
                    &&& final(self)@.line == next_line(old(self)@.line, c)
                },
            },
    {
        proof {
            use_type_invariant(&*self);
        }
        if c == NEWLINE && self.line < u32::MAX {
            self.line = self.line + 1;
        }
        let ghost start = self@;
        let mut state = self.state;
        let mut current: Vec<u8> = Vec::new();
        std::mem::swap(&mut current, &mut self.current);
        let mut emitted: Vec<Token> = Vec::new();
        loop
            invariant_except_break
                start.file_name == old(self)@.file_name,
                start.line == next_line(old(self)@.line, c),
                start.state == old(self)@.state,
                start.pending == old(self)@.pending,
                settled(start.state, start.pending),
                self@.file_name == start.file_name,
                self@.line == start.line,
                self.table == old(self).table,
                prepend(tokens_view(emitted@), feed(state, current@, c)) == feed(
                    start.state,
                    start.pending,
                    c,
                ),
            ensures
                self@.file_name == start.file_name,
                self@.line == start.line,
                settled(start.state, start.pending),
                feed(start.state, start.pending, c) == Ok::<_, ErrorKind>(
                    (state, current@, tokens_view(emitted@)),
                ),
            decreases rank(state),
        {
            let ghost before_state = state;
            let ghost before_pending = current@;
            proof {
                lemma_reprocess_lowers_rank(before_state, before_pending, c);
            }
            let ghost emitted_before = tokens_view(emitted@);
            let ghost mut step_toks: Seq<TokenModel> = Seq::empty();
            match self.table.lookup(state, c) {
                Err(()) => {
                    assert(feed(before_state, before_pending, c) == Err::<
                        (LexerState, Seq<u8>, Seq<TokenModel>),
                        _,
                    >(ErrorKind::InvalidCharacter(c)));
                    return Err(self.error(ErrorKind::InvalidCharacter(c)));
                },
                Ok(t) => {
                    if t.consume == Consume::Append {
                        current.push(c);
                    }
                    let ghost p = current@;
                    if let Some(kind) = t.output {
                        match kind.parse(current.as_slice()) {
                            Ok(tok) => {
                                assert(decode(kind, p) == Some(tok@));
                                emitted.push(tok);
                                current.clear();
                                proof {
                                    step_toks = seq![tok@];
                                }
                                assert(tokens_view(emitted@) =~= emitted_before + step_toks);
                            },
                            Err(_) => {
                                assert(feed(before_state, before_pending, c) == Err::<
                                    (LexerState, Seq<u8>, Seq<TokenModel>),
                                    _,
                                >(ErrorKind::InvalidToken(kind)));
                                return Err(self.error(ErrorKind::InvalidToken(kind)));
                            },
                        }
                    } else {
                        assert(tokens_view(emitted@) =~= emitted_before + step_toks);
                    }
                    state = t.next_state;
                    assert(step(before_state, before_pending, c) == Ok::<_, ErrorKind>(
                        (state, current@, step_toks, t.consume == Consume::Reprocess),
                    ));
                    if t.consume != Consume::Reprocess {
                        break ;
                    }
                    proof {
                        lemma_prepend_assoc(emitted_before, step_toks, feed(state, current@, c));
                    }
                },
            }
        }
        proof {
            lemma_feed_settled(start.state, start.pending, c);
        }
        self.state = state;
        self.current = current;
        let ghost total = tokens_view(emitted@);
        while emitted.len() > 0
            invariant
                tokens_view(old(out)@) + total == tokens_view(out@) + tokens_view(emitted@),
            decreases emitted.len(),
        {
            let tok = emitted.remove(0);
            out.push(tok);
        }
        Ok(())
    }
}

/// What an item of a lexer's output stands for.
pub open spec fn result_view(r: Result<Token, Error>) -> Result<TokenModel, ErrorModel> {
    match r {
        Ok(t) => Ok(t@),
        Err(e) => Err(e@),
    }
}

impl<'a> StreamMap<u8, Result<Token, Error>> for Lexer<'a> {
    /// A byte gives the tokens that `push_char` emits for it, each as `Ok`,
    /// or its error alone.
    open spec fn produces(pre: Self, x: u8, post: Self, out: Seq<Result<Token, Error>>) -> bool {
        match push_result(pre@, x) {
            Ok((m, toks)) => {
                &&& post@ == m
                &&& out.map_values(|r: Result<Token, Error>| result_view(r)) == toks.map_values(
                    |t: TokenModel| Ok::<TokenModel, ErrorModel>(t),
                )
            },
            Err(e) => out.map_values(|r: Result<Token, Error>| result_view(r)) == seq![
                Err::<TokenModel, ErrorModel>(e),
            ],
        }
    }

    fn produce(&mut self, x: u8) -> (out: Vec<Result<Token, Error>>) {
        let mut tokens: Vec<Token> = Vec::new();
        match self.push_char(x, &mut tokens) {
            Ok(()) => {
                let ghost toks = tokens_view(tokens@);
                let mut out: Vec<Result<Token, Error>> = Vec::new();
                while tokens.len() > 0
                    invariant
                        out@.map_values(|r: Result<Token, Error>| result_view(r)) + tokens_view(
                            tokens@,
                        ).map_values(|t: TokenModel| Ok::<TokenModel, ErrorModel>(t))
                            == toks.map_values(|t: TokenModel| Ok::<TokenModel, ErrorModel>(t)),
                    decreases tokens.len(),
                {
                    let t = tokens.remove(0);
                    out.push(Ok(t));
                    assert(out@.map_values(|r: Result<Token, Error>| result_view(r)) + tokens_view(
                        tokens@,
                    ).map_values(|t: TokenModel| Ok::<TokenModel, ErrorModel>(t))
                        =~= toks.map_values(|t: TokenModel| Ok::<TokenModel, ErrorModel>(t)));
                }
                out
            },
            Err(e) => {
                let out = vec![Err(e)];
                assert(out@.map_values(|r: Result<Token, Error>| result_view(r)) =~= seq![
                    Err::<TokenModel, ErrorModel>(e@),
                ]);
                out
            },
        }
    }
}

impl<'a> Lexer<'a> {
    /// The tokens of `source`, one result at a time, through a stream adapter.
    pub fn iter(self, source: Vec<u8>) -> (r: StreamAdapter<Self, u8, Result<Token, Error>>)
        ensures
            r.mapper() == self,
            r.remaining() == source@,
            r.buffered().len() == 0,
    {
        StreamAdapter::new(self, source)
    }
}

} // verus!
