//! The canonical text of a grammar reads back as the same grammar.

use vstd::prelude::*;
use vstd::utf8::valid_utf8;

use crate::grammar::{
    arrow_at, arrow_word, collect, find_arrow_word, find_mark, index_of_name,
    is_range, pattern_of, spec_parse_alt, spec_parse_alts, spec_parse_grammar, spec_parse_line,
    spec_parse_lines, spec_parse_word, spec_parse_words, word_attr, word_body, InputModel,
    PartModel, ProductionModel, UNDERSCORE,
};
use crate::table::{CLOSE_PAREN, MINUS, NEWLINE, OPEN_PAREN, PIPE, SPACE};
use crate::text::{
    drop_empty, find_sep, lemma_find_sep_append, no_sep, separates, spec_is_space, split_by, trim, trim_end,
    trim_start, Separator,
};
use crate::writer::{
    alt_piece, alt_pieces, alt_words, header, join, line_text, part_text, part_texts, pattern_text, spec_write_grammar,
    suffix,
};

verus! {

proof fn lemma_trim_padded(m: Seq<u8>)
    requires
        m.len() > 0,
        !spec_is_space(m[0]),
        !spec_is_space(m.last()),
    ensures
        trim(seq![SPACE] + m + seq![SPACE]) == m,
{
    let s = seq![SPACE] + m + seq![SPACE];
    assert(s.drop_first() =~= m + seq![SPACE]);
    assert((m + seq![SPACE])[0] == m[0]);
    assert(s[0] == SPACE);
    assert(trim_start(m + seq![SPACE]) == m + seq![SPACE]);
    assert(trim_start(s) == trim_start(s.drop_first()));
    assert(trim_start(s) == m + seq![SPACE]);
    assert((m + seq![SPACE]).drop_last() =~= m);
    assert(trim_end(m) == m);
}

proof fn lemma_split_cons(a: Seq<u8>, b: u8, rest: Seq<u8>, sep: Separator)
    requires
        no_sep(a, sep),
        separates(sep, b),
    ensures
        split_by(a + seq![b] + rest, sep) == seq![a] + split_by(rest, sep),
{
    let s = a + seq![b] + rest;
    assert(s =~= a + (seq![b] + rest));
    lemma_find_sep_append(a, seq![b] + rest, sep);
    assert((seq![b] + rest)[0] == b);
    assert(find_sep(s, sep) == a.len());
    assert(s.subrange(0, a.len() as int) =~= a);
    assert(s.subrange(a.len() as int + 1, s.len() as int) =~= rest);
}

proof fn lemma_split_single(a: Seq<u8>, sep: Separator)
    requires
        no_sep(a, sep),
    ensures
        split_by(a, sep) == seq![a],
{
    lemma_find_sep_append(a, Seq::empty(), sep);
    assert(a + Seq::<u8>::empty() =~= a);
}

/// Splitting a join at its separator gives back the pieces.
proof fn lemma_split_join(xs: Seq<Seq<u8>>, b: u8, sep: Separator)
    requires
        xs.len() > 0,
        separates(sep, b),
        forall|i: int| 0 <= i < xs.len() ==> no_sep(#[trigger] xs[i], sep),
    ensures
        split_by(join(xs, b), sep) == xs,
    decreases xs.len(),
{
    if xs.len() == 1 {
        lemma_split_single(xs[0], sep);
        assert(seq![xs[0]] =~= xs);
    } else {
        let t = xs.drop_first();
        assert forall|i: int| 0 <= i < t.len() implies no_sep(#[trigger] t[i], sep) by {
            assert(t[i] == xs[i + 1]);
        }
        lemma_split_join(t, b, sep);
        assert(no_sep(xs[0], sep));
        lemma_split_cons(xs[0], b, join(t, b), sep);
        assert(seq![xs[0]] + t =~= xs);
    }
}

/// A join holds no byte that neither the pieces nor the separator hold.
proof fn lemma_join_no_sep(xs: Seq<Seq<u8>>, b: u8, sep: Separator)
    requires
        !separates(sep, b),
        forall|i: int| 0 <= i < xs.len() ==> no_sep(#[trigger] xs[i], sep),
    ensures
        no_sep(join(xs, b), sep),
    decreases xs.len(),
{
    if xs.len() > 1 {
        let t = xs.drop_first();
        assert forall|i: int| 0 <= i < t.len() implies no_sep(#[trigger] t[i], sep) by {
            assert(t[i] == xs[i + 1]);
        }
        lemma_join_no_sep(t, b, sep);
        assert(no_sep(xs[0], sep));
        let j = join(xs, b);
        assert forall|i: int| 0 <= i < j.len() implies !separates(sep, #[trigger] j[i]) by {
            if i < xs[0].len() {
                assert(j[i] == xs[0][i]);
            } else if i > xs[0].len() {
                assert(j[i] == join(t, b)[i - xs[0].len() - 1]);
            }
        }
    } else if xs.len() == 1 {
        assert(no_sep(xs[0], sep));
    }
}

/// The ends of a join of non-empty pieces are the ends of its first and
/// last pieces, and the separator follows the first piece.
proof fn lemma_join_ends(xs: Seq<Seq<u8>>, b: u8)
    requires
        xs.len() > 0,
        forall|i: int| 0 <= i < xs.len() ==> (#[trigger] xs[i]).len() > 0,
    ensures
        join(xs, b).len() >= xs[0].len(),
        join(xs, b).len() > 0,
        join(xs, b)[0] == xs[0][0],
        join(xs, b).last() == xs.last().last(),
        xs.len() > 1 ==> join(xs, b).len() >= xs[0].len() + 2,
        xs.len() > 1 ==> join(xs, b)[xs[0].len() as int] == b,
    decreases xs.len(),
{
    if xs.len() > 1 {
        let t = xs.drop_first();
        assert forall|i: int| 0 <= i < t.len() implies (#[trigger] t[i]).len() > 0 by {
            assert(t[i] == xs[i + 1]);
        }
        lemma_join_ends(t, b);
        assert(t.last() == xs.last());
    }
}

proof fn lemma_drop_empty_nonempty(ws: Seq<Seq<u8>>)
    requires
        forall|i: int| 0 <= i < ws.len() ==> (#[trigger] ws[i]).len() > 0,
    ensures
        drop_empty(ws) == ws,
    decreases ws.len(),
{
    if ws.len() > 0 {
        let t = ws.drop_last();
        assert forall|i: int| 0 <= i < t.len() implies (#[trigger] t[i]).len() > 0 by {
            assert(t[i] == ws[i]);
        }
        lemma_drop_empty_nonempty(t);
        assert(ws.last().len() > 0);
        assert(t.push(ws.last()) =~= ws);
    }
}

proof fn lemma_find_arrow_word_append(a: Seq<Seq<u8>>, rest: Seq<Seq<u8>>)
    requires
        forall|i: int| 0 <= i < a.len() ==> #[trigger] a[i] != arrow_word(),
    ensures
        find_arrow_word(a + rest) == a.len() + find_arrow_word(rest),
    decreases a.len(),
{
    if a.len() > 0 {
        assert((a + rest).drop_first() =~= a.drop_first() + rest);
        assert((a + rest)[0] == a[0]);
        assert(a[0] != arrow_word());
        let t = a.drop_first();
        assert forall|i: int| 0 <= i < t.len() implies #[trigger] t[i] != arrow_word() by {
            assert(t[i] == a[i + 1]);
        }
        lemma_find_arrow_word_append(t, rest);
    } else {
        assert(a + rest =~= rest);
    }
}

proof fn lemma_find_mark_append(a: Seq<u8>, b: Seq<u8>, paren: bool)
    requires
        forall|k: int|
            0 <= k < a.len() ==> !(paren && #[trigger] a[k] == OPEN_PAREN) && !arrow_at(a + b, k),
    ensures
        find_mark(a + b, paren) == a.len() + find_mark(b, paren),
    decreases a.len(),
{
    if a.len() > 0 {
        let s = a + b;
        assert(s[0] == a[0]);
        assert(!arrow_at(s, 0));
        assert(!(paren && a[0] == OPEN_PAREN));
        let t = a.drop_first();
        assert(s.drop_first() =~= t + b);
        assert forall|k: int| 0 <= k < t.len() implies !(paren && #[trigger] t[k] == OPEN_PAREN)
            && !arrow_at(t + b, k) by {
            assert(t[k] == a[k + 1]);
            assert(!arrow_at(s, k + 1));
            assert((t + b)[k] == s[k + 1]);
            if k + 1 < (t + b).len() {
                assert((t + b)[k + 1] == s[k + 2]);
            }
        }
        lemma_find_mark_append(t, b, paren);
    } else {
        assert(a + b =~= b);
    }
}

/// Writing one more production adds its line at the front, seen from the
/// first production on.
proof fn lemma_write_front(g: Seq<ProductionModel>)
    requires
        g.len() > 0,
    ensures
        spec_write_grammar(g) == line_text(g[0]) + seq![NEWLINE] + spec_write_grammar(
            g.drop_first(),
        ),
    decreases g.len(),
{
    if g.len() == 1 {
        assert(g.drop_first() =~= Seq::<ProductionModel>::empty());
        assert(g.drop_last() =~= Seq::<ProductionModel>::empty());
        assert(spec_write_grammar(Seq::<ProductionModel>::empty()) == Seq::<u8>::empty());
        assert(g.last() == g[0]);
        assert(spec_write_grammar(g) == spec_write_grammar(g.drop_last()) + line_text(g.last())
            + seq![NEWLINE]);
        assert(spec_write_grammar(g) =~= line_text(g[0]) + seq![NEWLINE]);
    } else {
        lemma_write_front(g.drop_last());
        assert(g.drop_last().drop_first() =~= g.drop_first().drop_last());
        assert(g.drop_last()[0] == g[0]);
        assert(g.drop_first().last() == g.last());
        assert(spec_write_grammar(g) =~= line_text(g[0]) + seq![NEWLINE] + spec_write_grammar(
            g.drop_first(),
        ));
    }
}

proof fn lemma_index_of_absent(g: Seq<ProductionModel>, name: Seq<u8>)
    requires
        forall|i: int| 0 <= i < g.len() ==> (#[trigger] g[i]).name != name,
    ensures
        index_of_name(g, name) == g.len(),
    decreases g.len(),
{
    if g.len() > 0 {
        let t = g.drop_first();
        assert forall|i: int| 0 <= i < t.len() implies (#[trigger] t[i]).name != name by {
            assert(t[i] == g[i + 1]);
        }
        assert(g[0].name != name);
        lemma_index_of_absent(t, name);
    }
}

/// Collecting productions with distinct names keeps them as they are.
proof fn lemma_collect_distinct(g: Seq<ProductionModel>)
    requires
        forall|i: int, j: int| 0 <= i < j < g.len() ==> (#[trigger] g[i]).name != (#[trigger] g[j]).name,
    ensures
        collect(g) == g,
    decreases g.len(),
{
    if g.len() > 0 {
        let h = g.drop_last();
        assert forall|i: int, j: int| 0 <= i < j < h.len() implies (#[trigger] h[i]).name != (
        #[trigger] h[j]).name by {
            assert(h[i] == g[i] && h[j] == g[j]);
        }
        lemma_collect_distinct(h);
        assert forall|i: int| 0 <= i < h.len() implies (#[trigger] h[i]).name != g.last().name by {
            assert(h[i] == g[i]);
        }
        lemma_index_of_absent(h, g.last().name);
        assert(h.push(g.last()) =~= g);
    }
}

/// A word that the writer can put in an alternative and the reader reads
/// back: not empty, no spaces, no `|`, well-formed UTF-8.
pub open spec fn plain_word(w: Seq<u8>) -> bool {
    &&& bare_word(w)
    &&& valid_utf8(w)
}

/// Not empty, with no spaces and no `|`.
pub open spec fn bare_word(w: Seq<u8>) -> bool {
    &&& w.len() > 0
    &&& no_sep(w, Separator::Space)
    &&& no_sep(w, Separator::Byte(PIPE))
}

/// A term in canonical form: a plain word whose kind follows from its first
/// byte, and that, without an attribute, neither ends in an attribute mark
/// nor reads `=>`.
pub open spec fn canonical_part(p: PartModel) -> bool {
    let t = pattern_text(p.pattern);
    &&& plain_word(t)
    &&& p.pattern == pattern_of(t)
    &&& p.attr is None ==> word_attr(t) is None && t != arrow_word()
}

/// An alternative in canonical form: canonical terms (possibly none), a
/// plain output name if it has one, and not of the `c..d` shape.
pub open spec fn canonical_input(a: InputModel) -> bool {
    &&& forall|i: int| 0 <= i < a.format.len() ==> canonical_part(#[trigger] a.format[i])
    &&& a.output is Some ==> plain_word(a.output->Some_0)
    &&& !(a.output is None && a.format.len() == 1 && is_range(part_text(a.format[0])))
}

/// A production in canonical form: a name without spaces, `(` or `->` (and
/// without a leading `_` on a token rule), a parameter without spaces or
/// `)`, and at least one alternative, all canonical.
pub open spec fn canonical_production(p: ProductionModel) -> bool {
    &&& p.name.len() > 0
    &&& no_sep(p.name, Separator::Space)
    &&& no_sep(p.name, Separator::Byte(OPEN_PAREN))
    &&& forall|k: int| !arrow_at(p.name, k)
    &&& valid_utf8(p.name)
    &&& p.is_token ==> p.name[0] != UNDERSCORE
    &&& p.param is Some ==> {
        &&& no_sep(p.param->Some_0, Separator::Space)
        &&& no_sep(p.param->Some_0, Separator::Byte(CLOSE_PAREN))
        &&& valid_utf8(p.param->Some_0)
    }
    &&& p.inputs.len() > 0
    &&& forall|i: int| 0 <= i < p.inputs.len() ==> canonical_input(#[trigger] p.inputs[i])
}

/// A grammar in canonical form: canonical productions with distinct names.
pub open spec fn canonical_grammar(g: Seq<ProductionModel>) -> bool {
    &&& forall|i: int| 0 <= i < g.len() ==> canonical_production(#[trigger] g[i])
    &&& forall|i: int, j: int|
        0 <= i < j < g.len() ==> (#[trigger] g[i]).name != (#[trigger] g[j]).name
}

proof fn lemma_no_sep_concat(a: Seq<u8>, b: Seq<u8>, sep: Separator)
    requires
        no_sep(a, sep),
        no_sep(b, sep),
    ensures
        no_sep(a + b, sep),
{
    assert forall|i: int| 0 <= i < (a + b).len() implies !separates(sep, #[trigger] (a + b)[i]) by {
        if i < a.len() {
            assert((a + b)[i] == a[i]);
        } else {
            assert((a + b)[i] == b[i - a.len()]);
        }
    }
}

proof fn lemma_no_newline(w: Seq<u8>)
    requires
        no_sep(w, Separator::Space),
    ensures
        no_sep(w, Separator::Byte(NEWLINE)),
{
    assert forall|i: int| 0 <= i < w.len() implies !separates(
        Separator::Byte(NEWLINE),
        #[trigger] w[i],
    ) by {
        assert(!spec_is_space(w[i]));
    }
}

proof fn lemma_trim_plain(w: Seq<u8>)
    requires
        no_sep(w, Separator::Space),
    ensures
        trim(w) == w,
        trim_start(w) == w,
        trim_end(w) == w,
{
    if w.len() > 0 {
        assert(!spec_is_space(w[0]));
        assert(!spec_is_space(w[w.len() - 1]));
    }
}

proof fn lemma_parse_word(p: PartModel)
    requires
        canonical_part(p),
    ensures
        spec_parse_word(part_text(p)) == Ok::<PartModel, crate::grammar::GrammarError>(p),
{
    let t = pattern_text(p.pattern);
    let w = part_text(p);
    if p.attr is None {
        assert(w =~= t);
    } else {
        assert(w.len() == t.len() + 1);
        assert(w.drop_last() =~= t);
        assert(word_body(w) == t);
    }
}

proof fn lemma_parse_words(fs: Seq<PartModel>)
    requires
        forall|i: int| 0 <= i < fs.len() ==> canonical_part(#[trigger] fs[i]),
    ensures
        spec_parse_words(part_texts(fs)) == Ok::<
            Seq<PartModel>,
            crate::grammar::GrammarError,
        >(fs),
    decreases fs.len(),
{
    let ws = part_texts(fs);
    if fs.len() > 0 {
        let t = fs.drop_first();
        assert forall|i: int| 0 <= i < t.len() implies canonical_part(#[trigger] t[i]) by {
            assert(t[i] == fs[i + 1]);
        }
        lemma_parse_words(t);
        assert(ws.drop_first() =~= part_texts(t));
        assert(canonical_part(fs[0]));
        lemma_parse_word(fs[0]);
        assert(seq![fs[0]] + t =~= fs);
    } else {
        assert(fs =~= Seq::<PartModel>::empty());
    }
}

/// The words of a canonical alternative are plain, and none of its terms
/// reads `=>`.
proof fn lemma_alt_words(a: InputModel)
    requires
        canonical_input(a),
    ensures
        forall|i: int| 0 <= i < alt_words(a).len() ==> bare_word(#[trigger] alt_words(a)[i]),
        forall|i: int|
            0 <= i < a.format.len() ==> #[trigger] part_texts(a.format)[i]
                != arrow_word(),
{
    let texts = part_texts(a.format);
    let words = alt_words(a);
    assert forall|i: int| 0 <= i < texts.len() implies bare_word(#[trigger] texts[i])
        && texts[i] != arrow_word() by {
        let p = a.format[i];
        assert(canonical_part(p));
        let t = pattern_text(p.pattern);
        if p.attr is None {
            assert(texts[i] =~= t);
        } else {
            let c = suffix(p.attr)[0];
            assert(texts[i] =~= t.push(c));
            assert(texts[i].last() == c);
            assert(arrow_word().last() == 0x3eu8);
            assert(no_sep(texts[i], Separator::Space)) by {
                lemma_no_sep_concat(t, suffix(p.attr), Separator::Space);
            }
            assert(no_sep(texts[i], Separator::Byte(PIPE))) by {
                lemma_no_sep_concat(t, suffix(p.attr), Separator::Byte(PIPE));
            }
        }
    }
    assert forall|i: int| 0 <= i < words.len() implies bare_word(#[trigger] words[i]) by {
        if i < texts.len() {
            assert(words[i] == texts[i]);
        } else {
            let o = a.output->Some_0;
            if i == texts.len() {
                assert(words[i] == arrow_word());
            } else {
                assert(words[i] == o);
            }
        }
    }
}

proof fn lemma_parse_alt(a: InputModel)
    requires
        canonical_input(a),
    ensures
        spec_parse_alt(join(alt_words(a), SPACE)) == Ok::<
            Seq<InputModel>,
            crate::grammar::GrammarError,
        >(seq![a]),
{
    let words = alt_words(a);
    let texts = part_texts(a.format);
    let j = join(words, SPACE);
    lemma_alt_words(a);
    if words.len() == 0 {
        assert(texts.len() == 0);
        assert(a.format =~= Seq::<PartModel>::empty());
        assert(a.output is None);
        assert(j == Seq::<u8>::empty());
        assert(split_by(j, Separator::Space) == seq![Seq::<u8>::empty()]);
        let one = seq![Seq::<u8>::empty()];
        assert(one.drop_last() =~= Seq::<Seq<u8>>::empty());
        assert(one.last().len() == 0);
        assert(drop_empty(Seq::<Seq<u8>>::empty()) == Seq::<Seq<u8>>::empty());
        assert(drop_empty(one) == drop_empty(one.drop_last()));
        assert(drop_empty(one) == Seq::<Seq<u8>>::empty());
        assert(Seq::<Seq<u8>>::empty().subrange(0, 0) =~= Seq::<Seq<u8>>::empty());
        assert(spec_parse_words(Seq::<Seq<u8>>::empty()) == Ok::<
            Seq<PartModel>,
            crate::grammar::GrammarError,
        >(Seq::<PartModel>::empty()));
    } else {
        assert forall|i: int| 0 <= i < words.len() implies (#[trigger] words[i]).len() > 0 by {
            assert(bare_word(words[i]));
        }
        lemma_join_ends(words, SPACE);
        if words.len() == 1 {
            assert(j == words[0]);
            if a.output is Some {
                assert(words.len() == texts.len() + 2);
            }
            assert(a.format.len() == 1);
            assert(words[0] == part_text(a.format[0]));
        } else {
            assert(j[words[0].len() as int] == SPACE);
            if is_range(j) {
                assert(words[0].len() <= 2);
            }
        }
        assert(!is_range(j));
        assert forall|i: int| 0 <= i < words.len() implies no_sep(#[trigger] words[i], Separator::Space) by {
            assert(bare_word(words[i]));
        }
        lemma_split_join(words, SPACE, Separator::Space);
        lemma_drop_empty_nonempty(words);
        let tail = match a.output {
            Some(o) => seq![arrow_word(), o],
            None => Seq::<Seq<u8>>::empty(),
        };
        assert(words == texts + tail);
        lemma_find_arrow_word_append(texts, tail);
        assert(find_arrow_word(tail) == 0);
        let e = texts.len() as int;
        assert(find_arrow_word(words) == e);
        assert(words.subrange(0, e) =~= texts);
        lemma_parse_words(a.format);
        if a.output is Some {
            assert(words.subrange(e + 1, words.len() as int) =~= seq![a.output->Some_0]);
        } else {
            assert(e == words.len());
        }
    }
}

proof fn lemma_parse_alts(inputs: Seq<InputModel>)
    requires
        forall|i: int| 0 <= i < inputs.len() ==> canonical_input(#[trigger] inputs[i]),
    ensures
        spec_parse_alts(alt_pieces(inputs)) == Ok::<
            Seq<InputModel>,
            crate::grammar::GrammarError,
        >(inputs),
    decreases inputs.len(),
{
    let pieces = alt_pieces(inputs);
    if inputs.len() > 0 {
        let a = inputs[0];
        let t = inputs.drop_first();
        assert forall|i: int| 0 <= i < t.len() implies canonical_input(#[trigger] t[i]) by {
            assert(t[i] == inputs[i + 1]);
        }
        lemma_parse_alts(t);
        assert(pieces.drop_first() =~= alt_pieces(t));
        assert(canonical_input(a));
        let words = alt_words(a);
        lemma_alt_words(a);
        if words.len() == 0 {
            let pad = seq![SPACE, SPACE];
            assert(alt_piece(a) =~= pad);
            assert(pad.drop_first() =~= seq![SPACE]);
            assert(seq![SPACE].drop_first() =~= Seq::<u8>::empty());
            assert(trim_start(Seq::<u8>::empty()) == Seq::<u8>::empty());
            assert(seq![SPACE][0] == SPACE);
            assert(trim_start(seq![SPACE]) == trim_start(seq![SPACE].drop_first()));
            assert(pad[0] == SPACE);
            assert(trim_start(pad) == trim_start(pad.drop_first()));
            assert(trim_start(pad) == Seq::<u8>::empty());
            assert(trim(pad) == join(words, SPACE));
        } else {
            assert forall|i: int| 0 <= i < words.len() implies (#[trigger] words[i]).len() > 0 by {
                assert(bare_word(words[i]));
            }
            lemma_join_ends(words, SPACE);
            assert(bare_word(words[0]));
            assert(bare_word(words.last()));
            assert(!spec_is_space(words[0][0]));
            assert(!spec_is_space(words.last().last()));
            lemma_trim_padded(join(words, SPACE));
        }
        assert(pieces[0] == alt_piece(a));
        lemma_parse_alt(a);
        assert(seq![a] + t =~= inputs);
    } else {
        assert(inputs =~= Seq::<InputModel>::empty());
    }
}

/// The alternatives of a canonical production, as written, hold no `|` of
/// their own and no line feed.
proof fn lemma_pieces(inputs: Seq<InputModel>)
    requires
        forall|i: int| 0 <= i < inputs.len() ==> canonical_input(#[trigger] inputs[i]),
    ensures
        forall|i: int|
            0 <= i < inputs.len() ==> no_sep(
                #[trigger] alt_pieces(inputs)[i],
                Separator::Byte(PIPE),
            ),
        no_sep(join(alt_pieces(inputs), PIPE), Separator::Byte(NEWLINE)),
{
    let pieces = alt_pieces(inputs);
    assert forall|i: int| 0 <= i < inputs.len() implies no_sep(
        #[trigger] pieces[i],
        Separator::Byte(PIPE),
    ) && no_sep(pieces[i], Separator::Byte(NEWLINE)) by {
        let a = inputs[i];
        assert(canonical_input(a));
        let words = alt_words(a);
        lemma_alt_words(a);
        assert forall|k: int| 0 <= k < words.len() implies no_sep(
            #[trigger] words[k],
            Separator::Byte(PIPE),
        ) && no_sep(words[k], Separator::Byte(NEWLINE)) by {
            assert(bare_word(words[k]));
            lemma_no_newline(words[k]);
        }
        lemma_join_no_sep(words, SPACE, Separator::Byte(PIPE));
        lemma_join_no_sep(words, SPACE, Separator::Byte(NEWLINE));
        let j = join(words, SPACE);
        lemma_no_sep_concat(seq![SPACE], j, Separator::Byte(PIPE));
        lemma_no_sep_concat(seq![SPACE] + j, seq![SPACE], Separator::Byte(PIPE));
        lemma_no_sep_concat(seq![SPACE], j, Separator::Byte(NEWLINE));
        lemma_no_sep_concat(seq![SPACE] + j, seq![SPACE], Separator::Byte(NEWLINE));
    }
    lemma_join_no_sep(pieces, PIPE, Separator::Byte(NEWLINE));
}

proof fn lemma_tail_mark(r: Seq<u8>, paren: bool)
    ensures
        find_mark(seq![SPACE, MINUS, 0x3eu8] + r, paren) == 1,
{
    let tail = seq![SPACE, MINUS, 0x3eu8] + r;
    let t2 = tail.drop_first();
    assert(t2 =~= seq![MINUS, 0x3eu8] + r);
    assert(tail[0] == SPACE);
    assert(!arrow_at(tail, 0));
    assert(t2[0] == MINUS && t2[1] == 0x3eu8 && t2.len() >= 2);
    assert(arrow_at(t2, 0));
    assert(find_mark(t2, paren) == 0);
}

/// The name of a canonical production ends where its parameter or its
/// arrow begins.
proof fn lemma_name_mark(name: Seq<u8>, b2: Seq<u8>)
    requires
        no_sep(name, Separator::Byte(OPEN_PAREN)),
        forall|k: int| !arrow_at(name, k),
        b2.len() > 0,
        b2[0] != 0x3eu8,
    ensures
        find_mark(name + b2, true) == name.len() + find_mark(b2, true),
{
    assert forall|k: int| 0 <= k < name.len() implies !(#[trigger] name[k] == OPEN_PAREN)
        && !arrow_at(name + b2, k) by {
        assert(!separates(Separator::Byte(OPEN_PAREN), name[k]));
        assert((name + b2)[k] == name[k]);
        if k + 1 < name.len() {
            assert((name + b2)[k + 1] == name[k + 1]);
            assert(!arrow_at(name, k));
        } else {
            assert((name + b2)[k + 1] == b2[0]);
        }
    }
    lemma_find_mark_append(name, b2, true);
}

pub open spec fn param_text(param: Option<Seq<u8>>) -> Seq<u8> {
    match param {
        Some(q) => seq![OPEN_PAREN] + q + seq![CLOSE_PAREN],
        None => Seq::<u8>::empty(),
    }
}

/// What the reader sees of a line once the syntax mark is gone.
pub open spec fn line_body(p: ProductionModel) -> Seq<u8> {
    p.name + (param_text(p.param) + (seq![SPACE, MINUS, 0x3eu8] + join(alt_pieces(p.inputs), PIPE)))
}

proof fn lemma_line_start(p: ProductionModel)
    requires
        canonical_production(p),
    ensures
        trim_start(line_text(p)) == line_text(p),
        line_text(p).len() > 0,
        (line_text(p)[0] == UNDERSCORE) == !p.is_token,
        p.is_token ==> line_text(p) == line_body(p),
        !p.is_token ==> line_text(p).drop_first() == line_body(p),
{
    let l = line_text(p);
    let body = line_body(p);
    assert(!spec_is_space(p.name[0]));
    if p.is_token {
        assert(l =~= body);
        assert(l[0] == p.name[0]);
    } else {
        assert(l =~= seq![UNDERSCORE] + body);
        assert(l.drop_first() =~= body);
    }
}

/// The name, parameter and right-hand side that the reader finds in the body
/// of a canonical production's line.
proof fn lemma_body_parts(p: ProductionModel)
    requires
        canonical_production(p),
    ensures
        ({
            let body = line_body(p);
            let k = find_mark(body, true) as int;
            let r = join(alt_pieces(p.inputs), PIPE);
            &&& k < body.len()
            &&& trim(body.subrange(0, k)) == p.name
            &&& p.param is None ==> body[k] != OPEN_PAREN && k + 2 <= body.len() && body.subrange(
                k + 2,
                body.len() as int,
            ) == r
            &&& p.param is Some ==> {
                let after = body.subrange(k + 1, body.len() as int);
                let q = find_sep(after, Separator::Byte(CLOSE_PAREN)) as int;
                let after2 = after.subrange(q + 1, after.len() as int);
                let a = find_mark(after2, false) as int;
                &&& body[k] == OPEN_PAREN
                &&& q < after.len()
                &&& trim(after.subrange(0, q)) == p.param->Some_0
                &&& a < after2.len()
                &&& after2.subrange(a + 2, after2.len() as int) == r
            }
        }),
{
    let name = p.name;
    let r = join(alt_pieces(p.inputs), PIPE);
    let tail = seq![SPACE, MINUS, 0x3eu8] + r;
    let b2 = param_text(p.param) + tail;
    let body = line_body(p);
    assert(body == name + b2);
    lemma_trim_plain(name);
    lemma_tail_mark(r, true);
    lemma_tail_mark(r, false);
    if p.param is Some {
        let q = p.param->Some_0;
        assert(b2 =~= seq![OPEN_PAREN] + (q + (seq![CLOSE_PAREN] + tail)));
        assert(b2[0] == OPEN_PAREN);
        lemma_name_mark(name, b2);
        assert(find_mark(b2, true) == 0);
        let k = name.len() as int;
        assert(body[k] == OPEN_PAREN);
        assert(body.subrange(0, k) =~= name);
        let after = body.subrange(k + 1, body.len() as int);
        assert(after =~= q + (seq![CLOSE_PAREN] + tail));
        lemma_find_sep_append(q, seq![CLOSE_PAREN] + tail, Separator::Byte(CLOSE_PAREN));
        assert((seq![CLOSE_PAREN] + tail)[0] == CLOSE_PAREN);
        let qn = q.len() as int;
        assert(find_sep(after, Separator::Byte(CLOSE_PAREN)) == qn);
        let after2 = after.subrange(qn + 1, after.len() as int);
        assert(after2 =~= tail);
        assert(after.subrange(0, qn) =~= q);
        lemma_trim_plain(q);
        assert(after2.subrange(3, after2.len() as int) =~= r);
    } else {
        assert(b2 =~= tail);
        assert(b2[0] == SPACE);
        lemma_name_mark(name, b2);
        let k = name.len() as int + 1;
        assert(body[k] == MINUS);
        assert(body.subrange(0, k) =~= name + seq![SPACE]);
        assert((name + seq![SPACE])[0] == name[0]);
        assert(!spec_is_space(name[0]));
        assert(trim_start(name + seq![SPACE]) == name + seq![SPACE]);
        assert((name + seq![SPACE]).drop_last() =~= name);
        assert(trim(body.subrange(0, k)) == name);
        assert(body.subrange(k + 2, body.len() as int) =~= r);
    }
}

/// A canonical production's line reads back as the production.
proof fn lemma_parse_line(p: ProductionModel)
    requires
        canonical_production(p),
    ensures
        spec_parse_line(line_text(p)) == Ok::<ProductionModel, crate::grammar::GrammarError>(p),
{
    lemma_line_start(p);
    lemma_body_parts(p);
    lemma_pieces(p.inputs);
    lemma_split_join(alt_pieces(p.inputs), PIPE, Separator::Byte(PIPE));
    lemma_parse_alts(p.inputs);
}

pub open spec fn lines_of(g: Seq<ProductionModel>) -> Seq<Seq<u8>> {
    g.map_values(|p: ProductionModel| line_text(p))
}

proof fn lemma_line_no_newline(p: ProductionModel)
    requires
        canonical_production(p),
    ensures
        no_sep(line_text(p), Separator::Byte(NEWLINE)),
{
    let nl = Separator::Byte(NEWLINE);
    let prefix = if p.is_token {
        Seq::<u8>::empty()
    } else {
        seq![UNDERSCORE]
    };
    lemma_no_newline(p.name);
    assert(no_sep(prefix, nl));
    lemma_no_sep_concat(prefix, p.name, nl);
    let pt = param_text(p.param);
    if p.param is Some {
        let q = p.param->Some_0;
        lemma_no_newline(q);
        lemma_no_sep_concat(seq![OPEN_PAREN], q, nl);
        lemma_no_sep_concat(seq![OPEN_PAREN] + q, seq![CLOSE_PAREN], nl);
    }
    assert(no_sep(pt, nl));
    lemma_no_sep_concat(prefix + p.name, pt, nl);
    assert(header(p) =~= prefix + p.name + pt);
    lemma_pieces(p.inputs);
    let arrow = seq![SPACE, MINUS, 0x3eu8];
    assert(no_sep(arrow, nl));
    lemma_no_sep_concat(header(p), arrow, nl);
    lemma_no_sep_concat(header(p) + arrow, join(alt_pieces(p.inputs), PIPE), nl);
}

/// The canonical text splits into one line per production, and an empty
/// piece after the last line feed.
proof fn lemma_split_written(g: Seq<ProductionModel>)
    requires
        forall|i: int| 0 <= i < g.len() ==> canonical_production(#[trigger] g[i]),
    ensures
        split_by(spec_write_grammar(g), Separator::Byte(NEWLINE)) == lines_of(g) + seq![
            Seq::<u8>::empty(),
        ],
    decreases g.len(),
{
    if g.len() == 0 {
        assert(spec_write_grammar(g) == Seq::<u8>::empty());
        assert(lines_of(g) + seq![Seq::<u8>::empty()] =~= seq![Seq::<u8>::empty()]);
    } else {
        let t = g.drop_first();
        assert forall|i: int| 0 <= i < t.len() implies canonical_production(#[trigger] t[i]) by {
            assert(t[i] == g[i + 1]);
        }
        lemma_split_written(t);
        lemma_write_front(g);
        assert(canonical_production(g[0]));
        lemma_line_no_newline(g[0]);
        lemma_split_cons(line_text(g[0]), NEWLINE, spec_write_grammar(t), Separator::Byte(NEWLINE));
        assert(seq![line_text(g[0])] + (lines_of(t) + seq![Seq::<u8>::empty()]) =~= lines_of(g)
            + seq![Seq::<u8>::empty()]);
    }
}

proof fn lemma_parse_lines(g: Seq<ProductionModel>)
    requires
        forall|i: int| 0 <= i < g.len() ==> canonical_production(#[trigger] g[i]),
    ensures
        spec_parse_lines(lines_of(g) + seq![Seq::<u8>::empty()]) == Ok::<
            Seq<ProductionModel>,
            crate::grammar::GrammarError,
        >(g),
    decreases g.len(),
{
    let ls = lines_of(g) + seq![Seq::<u8>::empty()];
    if g.len() == 0 {
        assert(ls =~= seq![Seq::<u8>::empty()]);
        assert(ls.drop_first() =~= Seq::<Seq<u8>>::empty());
        assert(trim_start(Seq::<u8>::empty()).len() == 0);
        assert(ls[0] == Seq::<u8>::empty());
        assert(crate::grammar::is_blank(ls[0]));
        assert(spec_parse_lines(ls) == spec_parse_lines(ls.drop_first()));
        assert(g =~= Seq::<ProductionModel>::empty());
    } else {
        let t = g.drop_first();
        assert forall|i: int| 0 <= i < t.len() implies canonical_production(#[trigger] t[i]) by {
            assert(t[i] == g[i + 1]);
        }
        lemma_parse_lines(t);
        assert(canonical_production(g[0]));
        lemma_line_start(g[0]);
        lemma_parse_line(g[0]);
        assert(ls[0] == line_text(g[0]));
        assert(ls.drop_first() =~= lines_of(t) + seq![Seq::<u8>::empty()]);
        assert(!crate::grammar::is_blank(ls[0]));
        assert(seq![g[0]] + t =~= g);
    }
}

/// Reading the canonical text of a canonical grammar gives back the same
/// grammar: the same productions in the same order, with the same names,
/// parameters, token flags, alternatives and terms.
pub proof fn lemma_round_trip(g: Seq<ProductionModel>)
    requires
        canonical_grammar(g),
    ensures
        spec_parse_grammar(spec_write_grammar(g)) == Ok::<
            Seq<ProductionModel>,
            crate::grammar::GrammarError,
        >(g),
{
    lemma_split_written(g);
    lemma_parse_lines(g);
    lemma_collect_distinct(g);
}

} // verus!
