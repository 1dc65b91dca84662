//! Writes productions back in the grammar notation, in canonical form.

use vstd::prelude::*;

use crate::grammar::{
    arrow_word, grammar_view, FormatPart, FormatPattern, GrammarError, InputModel,
    MatcherAttribute, PartModel, PatternModel, Production, ProductionInput, ProductionModel,
    parse_grammar, spec_parse_grammar, EQUALS, GREATER, STAR, UNDERSCORE,
};
use crate::table::{CLOSE_PAREN, MINUS, NEWLINE, OPEN_PAREN, PIPE, PLUS, SPACE};

verus! {

/// The pieces of `xs` with a `b` between each two.
pub open spec fn join(xs: Seq<Seq<u8>>, b: u8) -> Seq<u8>
    decreases xs.len(),
{
    if xs.len() == 0 {
        Seq::empty()
    } else if xs.len() == 1 {
        xs[0]
    } else {
        xs[0] + seq![b] + join(xs.drop_first(), b)
    }
}

pub open spec fn suffix(a: Option<MatcherAttribute>) -> Seq<u8> {
    match a {
        None => Seq::empty(),
        Some(MatcherAttribute::Many) => seq![STAR],
        Some(MatcherAttribute::Many1) => seq![PLUS],
        Some(MatcherAttribute::Void) => seq![UNDERSCORE],
    }
}

pub open spec fn pattern_text(p: PatternModel) -> Seq<u8> {
    match p {
        PatternModel::Production(s) => s,
        PatternModel::Literal(s) => s,
    }
}

/// A term as written: its text, then its attribute mark.
pub open spec fn part_text(p: PartModel) -> Seq<u8> {
    pattern_text(p.pattern) + suffix(p.attr)
}

pub open spec fn part_texts(fs: Seq<PartModel>) -> Seq<Seq<u8>> {
    fs.map_values(|p: PartModel| part_text(p))
}

/// The words of an alternative: its terms, then `=>` and the output name.
pub open spec fn alt_words(a: InputModel) -> Seq<Seq<u8>> {
    part_texts(a.format) + match a.output {
        Some(o) => seq![arrow_word(), o],
        None => Seq::empty(),
    }
}

/// An alternative as it stands between two `|`: its words, one space apart,
/// with a space on either side.
pub open spec fn alt_piece(a: InputModel) -> Seq<u8> {
    seq![SPACE] + join(alt_words(a), SPACE) + seq![SPACE]
}

pub open spec fn alt_pieces(inputs: Seq<InputModel>) -> Seq<Seq<u8>> {
    inputs.map_values(|a: InputModel| alt_piece(a))
}

/// The start of a production's line: the syntax mark, the name and the
/// parameter in parentheses.
pub open spec fn header(p: ProductionModel) -> Seq<u8> {
    (if p.is_token {
        Seq::empty()
    } else {
        seq![UNDERSCORE]
    }) + p.name + match p.param {
        Some(q) => seq![OPEN_PAREN] + q + seq![CLOSE_PAREN],
        None => Seq::empty(),
    }
}

/// A production's line, without its line feed.
pub open spec fn line_text(p: ProductionModel) -> Seq<u8> {
    header(p) + seq![SPACE, MINUS, GREATER] + join(alt_pieces(p.inputs), PIPE)
}

/// The canonical text of a grammar: one line per production, in order.
pub open spec fn spec_write_grammar(g: Seq<ProductionModel>) -> Seq<u8>
    decreases g.len(),
{
    if g.len() == 0 {
        Seq::empty()
    } else {
        spec_write_grammar(g.drop_last()) + line_text(g.last()) + seq![NEWLINE]
    }
}

/// Joining one more piece adds a separator and the piece at the end.
pub proof fn lemma_join_push(xs: Seq<Seq<u8>>, y: Seq<u8>, b: u8)
    requires
        xs.len() > 0,
    ensures
        join(xs.push(y), b) == join(xs, b) + seq![b] + y,
    decreases xs.len(),
{
    assert(xs.push(y)[0] == xs[0]);
    if xs.len() == 1 {
        assert(xs.push(y).drop_first() =~= seq![y]);
        assert(join(seq![y], b) == y);
        assert(join(xs, b) == xs[0]);
    } else {
        assert(xs.push(y).drop_first() =~= xs.drop_first().push(y));
        lemma_join_push(xs.drop_first(), y, b);
        assert(xs[0] + seq![b] + (join(xs.drop_first(), b) + seq![b] + y) =~= (xs[0] + seq![b]
            + join(xs.drop_first(), b)) + seq![b] + y);
    }
}

fn push_bytes(out: &mut Vec<u8>, b: &[u8])
    ensures
        final(out)@ == old(out)@ + b@,
{
    let mut i: usize = 0;
    while i < b.len()
        invariant
            i <= b@.len(),
            out@ == old(out)@ + b@.subrange(0, i as int),
        decreases b@.len() - i,
    {
        out.push(b[i]);
        assert(b@.subrange(0, i + 1) =~= b@.subrange(0, i as int).push(b@[i as int]));
        i = i + 1;
    }
    assert(b@.subrange(0, i as int) =~= b@);
}

fn write_part(out: &mut Vec<u8>, p: &FormatPart)
    ensures
        final(out)@ == old(out)@ + part_text(p@),
{
    match &p.pattern {
        FormatPattern::Production(s) => push_bytes(out, s.as_slice()),
        FormatPattern::Literal(s) => push_bytes(out, s.as_slice()),
    }
    match p.attr {
        None => {},
        Some(MatcherAttribute::Many) => out.push(STAR),
        Some(MatcherAttribute::Many1) => out.push(PLUS),
        Some(MatcherAttribute::Void) => out.push(UNDERSCORE),
    }
    assert(out@ =~= old(out)@ + part_text(p@));
}

fn write_alt(out: &mut Vec<u8>, a: &ProductionInput)
    ensures
        final(out)@ == old(out)@ + join(alt_words(a@), SPACE),
{
    let ghost words = alt_words(a@);
    let ghost texts = part_texts(a@.format);
    let mut i: usize = 0;
    assert(texts.subrange(0, 0) =~= Seq::<Seq<u8>>::empty());
    assert(out@ =~= old(out)@ + join(texts.subrange(0, 0), SPACE));
    while i < a.format.len()
        invariant
            i <= a.format@.len(),
            texts == part_texts(a@.format),
            texts.len() == a.format@.len(),
            out@ == old(out)@ + join(texts.subrange(0, i as int), SPACE),
        decreases a.format@.len() - i,
    {
        assert(texts[i as int] == part_text(a.format@[i as int]@));
        assert(texts.subrange(0, i + 1) =~= texts.subrange(0, i as int).push(texts[i as int]));
        if i > 0 {
            out.push(SPACE);
            write_part(out, &a.format[i]);
            proof {
                lemma_join_push(texts.subrange(0, i as int), texts[i as int], SPACE);
            }
            assert(out@ =~= old(out)@ + join(texts.subrange(0, i + 1), SPACE));
        } else {
            write_part(out, &a.format[i]);
            assert(texts.subrange(0, 1) =~= seq![texts[0]]);
            assert(out@ =~= old(out)@ + join(texts.subrange(0, i + 1), SPACE));
        }
        i = i + 1;
    }
    assert(texts.subrange(0, i as int) =~= texts);
    match &a.output {
        None => {
            assert(words =~= texts);
        },
        Some(o) => {
            let arrow: [u8; 2] = [EQUALS, GREATER];
            assert(arrow@ =~= arrow_word());
            if i > 0 {
                out.push(SPACE);
                push_bytes(out, arrow.as_slice());
                proof {
                    lemma_join_push(texts, arrow_word(), SPACE);
                }
            } else {
                push_bytes(out, arrow.as_slice());
                assert(texts.push(arrow_word()) =~= seq![arrow_word()]);
            }
            assert(out@ =~= old(out)@ + join(texts.push(arrow_word()), SPACE));
            out.push(SPACE);
            push_bytes(out, o.as_slice());
            proof {
                lemma_join_push(texts.push(arrow_word()), o@, SPACE);
                assert(words =~= texts.push(arrow_word()).push(o@));
            }
            assert(out@ =~= old(out)@ + join(words, SPACE));
        },
    }
}

fn write_production(out: &mut Vec<u8>, p: &Production)
    ensures
        final(out)@ == old(out)@ + line_text(p@) + seq![NEWLINE],
{
    if !p.is_token {
        out.push(UNDERSCORE);
    }
    push_bytes(out, p.name.as_slice());
    match &p.param {
        Some(q) => {
            out.push(OPEN_PAREN);
            push_bytes(out, q.as_slice());
            out.push(CLOSE_PAREN);
        },
        None => {},
    }
    out.push(SPACE);
    out.push(MINUS);
    out.push(GREATER);
    assert(out@ =~= old(out)@ + header(p@) + seq![SPACE, MINUS, GREATER]);
    let ghost base = out@;
    let ghost pieces = alt_pieces(p@.inputs);
    let mut i: usize = 0;
    assert(pieces.subrange(0, 0) =~= Seq::<Seq<u8>>::empty());
    assert(out@ =~= base + join(pieces.subrange(0, 0), PIPE));
    while i < p.inputs.len()
        invariant
            i <= p.inputs@.len(),
            pieces == alt_pieces(p@.inputs),
            pieces.len() == p.inputs@.len(),
            out@ == base + join(pieces.subrange(0, i as int), PIPE),
        decreases p.inputs@.len() - i,
    {
        assert(pieces[i as int] == alt_piece(p.inputs@[i as int]@));
        assert(pieces.subrange(0, i + 1) =~= pieces.subrange(0, i as int).push(pieces[i as int]));
        if i > 0 {
            out.push(PIPE);
        }
        let ghost mid = out@;
        out.push(SPACE);
        write_alt(out, &p.inputs[i]);
        out.push(SPACE);
        assert(out@ =~= mid + pieces[i as int]);
        if i > 0 {
            proof {
                lemma_join_push(pieces.subrange(0, i as int), pieces[i as int], PIPE);
            }
        } else {
            assert(pieces.subrange(0, 1) =~= seq![pieces[0]]);
        }
        assert(out@ =~= base + join(pieces.subrange(0, i + 1), PIPE));
        i = i + 1;
    }
    assert(pieces.subrange(0, i as int) =~= pieces);
    out.push(NEWLINE);
}

/// The canonical text of the productions, one line each, in order.
pub fn write_grammar(g: &Vec<Production>) -> (r: Vec<u8>)
    ensures
        r@ == spec_write_grammar(grammar_view(g@)),
{
    let ghost gv = grammar_view(g@);
    let mut out: Vec<u8> = Vec::new();
    let mut i: usize = 0;
    assert(gv.subrange(0, 0) =~= Seq::<ProductionModel>::empty());
    while i < g.len()
        invariant
            i <= g@.len(),
            gv == grammar_view(g@),
            out@ == spec_write_grammar(gv.subrange(0, i as int)),
        decreases g@.len() - i,
    {
        write_production(&mut out, &g[i]);
        assert(gv.subrange(0, i + 1).drop_last() =~= gv.subrange(0, i as int));
        assert(gv.subrange(0, i + 1).last() == g@[i as int]@);
        i = i + 1;
    }
    assert(gv.subrange(0, i as int) =~= gv);
    out
}

/// Reads a grammar text and writes it back in canonical form.
pub fn compile(text: &[u8]) -> (r: Result<Vec<u8>, GrammarError>)
    ensures
        match spec_parse_grammar(text@) {
            Ok(g) => r matches Ok(out) && out@ == spec_write_grammar(g),
            Err(e) => r matches Err(x) && x == e,
        },
{
    let g = parse_grammar(text)?;
    Ok(write_grammar(&g))
}

} // verus!
