//! Splitting and trimming byte strings, as the grammar reader uses them.

use vstd::prelude::*;
use vstd::slice::{slice_subrange, slice_to_vec};
use vstd::utf8::*;

verus! {

/// Space, tab, line feed, vertical tab, form feed and carriage return.
pub open spec fn spec_is_space(c: u8) -> bool {
    c == 0x20u8 || (0x09u8 <= c && c <= 0x0du8)
}

pub fn is_space(c: u8) -> (r: bool)
    ensures
        r == spec_is_space(c),
{
    c == 0x20 || (0x09 <= c && c <= 0x0d)
}

/// What separates the pieces of a split.
#[derive(Clone, Copy, Debug, PartialEq, Eq, Structural)]
pub enum Separator {
    Byte(u8),
    Space,
}

pub open spec fn separates(sep: Separator, c: u8) -> bool {
    match sep {
        Separator::Byte(b) => c == b,
        Separator::Space => spec_is_space(c),
    }
}

fn is_separator(sep: Separator, c: u8) -> (r: bool)
    ensures
        r == separates(sep, c),
{
    match sep {
        Separator::Byte(b) => c == b,
        Separator::Space => is_space(c),
    }
}

/// The index of the first separator in `s`, or `s.len()` if there is none.
pub open spec fn find_sep(s: Seq<u8>, sep: Separator) -> nat
    decreases s.len(),
{
    if s.len() == 0 {
        0
    } else if separates(sep, s[0]) {
        0
    } else {
        1 + find_sep(s.drop_first(), sep)
    }
}

/// The pieces of `s` between separators, in order. Two separators in a row
/// give an empty piece, and so does a separator at either end.
pub open spec fn split_by(s: Seq<u8>, sep: Separator) -> Seq<Seq<u8>>
    decreases s.len(),
{
    let k = find_sep(s, sep) as int;
    if k >= s.len() {
        seq![s]
    } else {
        seq![s.subrange(0, k)] + split_by(s.subrange(k + 1, s.len() as int), sep)
    }
}

/// `s` without the spaces it starts with.
pub open spec fn trim_start(s: Seq<u8>) -> Seq<u8>
    decreases s.len(),
{
    if s.len() > 0 && spec_is_space(s[0]) {
        trim_start(s.drop_first())
    } else {
        s
    }
}

/// `s` without the spaces it ends with.
pub open spec fn trim_end(s: Seq<u8>) -> Seq<u8>
    decreases s.len(),
{
    if s.len() > 0 && spec_is_space(s.last()) {
        trim_end(s.drop_last())
    } else {
        s
    }
}

/// `s` without spaces at either end.
pub open spec fn trim(s: Seq<u8>) -> Seq<u8> {
    trim_end(trim_start(s))
}

pub open spec fn no_sep(s: Seq<u8>, sep: Separator) -> bool {
    forall|i: int| 0 <= i < s.len() ==> !separates(sep, #[trigger] s[i])
}

pub open spec fn view_all(v: Seq<Vec<u8>>) -> Seq<Seq<u8>> {
    v.map_values(|x: Vec<u8>| x@)
}

pub proof fn lemma_find_sep_bounds(s: Seq<u8>, sep: Separator)
    ensures
        0 <= find_sep(s, sep) <= s.len(),
        find_sep(s, sep) < s.len() ==> separates(sep, s[find_sep(s, sep) as int]),
        no_sep(s.subrange(0, find_sep(s, sep) as int), sep),
    decreases s.len(),
{
    if s.len() > 0 && !separates(sep, s[0]) {
        let t = s.drop_first();
        lemma_find_sep_bounds(t, sep);
        let k = find_sep(s, sep) as int;
        assert forall|i: int| 0 <= i < k implies !separates(sep, #[trigger] s.subrange(0, k)[i]) by {
            if i > 0 {
                assert(s.subrange(0, k)[i] == t.subrange(0, k - 1)[i - 1]);
            }
        }
    }
}

/// The first separator of `a + b`, where `a` holds none, is the first one of `b`.
pub proof fn lemma_find_sep_append(a: Seq<u8>, b: Seq<u8>, sep: Separator)
    requires
        no_sep(a, sep),
    ensures
        find_sep(a + b, sep) == a.len() + find_sep(b, sep),
    decreases a.len(),
{
    if a.len() > 0 {
        assert((a + b).drop_first() =~= a.drop_first() + b);
        assert(!separates(sep, a[0]));
        lemma_find_sep_append(a.drop_first(), b, sep);
    } else {
        assert(a + b =~= b);
    }
}

/// Splits `s` at every byte that `sep` matches.
pub fn split(s: &[u8], sep: Separator) -> (r: Vec<Vec<u8>>)
    ensures
        view_all(r@) == split_by(s@, sep),
{
    let mut pieces: Vec<Vec<u8>> = Vec::new();
    let mut start: usize = 0;
    let mut i: usize = 0;
    assert(s@.subrange(0, s@.len() as int) =~= s@);
    assert(view_all(pieces@) + split_by(s@, sep) =~= split_by(s@, sep));
    while i < s.len()
        invariant
            start <= i <= s@.len(),
            no_sep(s@.subrange(start as int, i as int), sep),
            view_all(pieces@) + split_by(s@.subrange(start as int, s@.len() as int), sep) == split_by(
                s@,
                sep,
            ),
        decreases s@.len() - i,
    {
        if is_separator(sep, s[i]) {
            let ghost rest = s@.subrange(start as int, s@.len() as int);
            let ghost a = s@.subrange(start as int, i as int);
            let ghost b = s@.subrange(i as int, s@.len() as int);
            proof {
                assert(rest =~= a + b);
                lemma_find_sep_append(a, b, sep);
                assert(find_sep(rest, sep) == a.len());
                assert(rest.subrange(0, a.len() as int) =~= a);
                assert(rest.subrange(a.len() as int + 1, rest.len() as int) =~= s@.subrange(
                    i + 1,
                    s@.len() as int,
                ));
            }
            let piece = slice_to_vec(slice_subrange(s, start, i));
            let ghost before = pieces@;
            pieces.push(piece);
            assert(view_all(pieces@) =~= view_all(before) + seq![a]);
            start = i + 1;
            assert(s@.subrange(start as int, start as int) =~= Seq::<u8>::empty());
        } else {
            assert(s@.subrange(start as int, i + 1) =~= s@.subrange(start as int, i as int).push(s@[i as int]));
        }
        i = i + 1;
    }
    let ghost last = s@.subrange(start as int, s@.len() as int);
    proof {
        lemma_find_sep_append(last, Seq::empty(), sep);
        assert(last + Seq::<u8>::empty() =~= last);
    }
    let piece = slice_to_vec(slice_subrange(s, start, s.len()));
    let ghost before = pieces@;
    pieces.push(piece);
    assert(view_all(pieces@) =~= view_all(before) + seq![last]);
    assert(view_all(pieces@) =~= split_by(s@, sep));
    pieces
}

/// `s` without spaces at either end.
pub fn trim_spaces(s: &[u8]) -> (r: &[u8])
    ensures
        r@ == trim(s@),
{
    let len = s.len();
    let mut lo: usize = 0;
    assert(s@.subrange(0, len as int) =~= s@);
    while lo < len && is_space(s[lo])
        invariant
            lo <= len,
            len == s@.len(),
            trim_start(s@.subrange(lo as int, len as int)) == trim_start(s@),
        decreases len - lo,
    {
        assert(s@.subrange(lo as int, len as int).drop_first() =~= s@.subrange(lo + 1, len as int));
        lo = lo + 1;
    }
    let mut hi: usize = len;
    while hi > lo && is_space(s[hi - 1])
        invariant
            lo <= hi <= len,
            len == s@.len(),
            trim_start(s@) == s@.subrange(lo as int, len as int),
            trim_end(s@.subrange(lo as int, hi as int)) == trim(s@),
        decreases hi,
    {
        assert(s@.subrange(lo as int, hi as int).drop_last() =~= s@.subrange(lo as int, hi - 1));
        hi = hi - 1;
    }
    slice_subrange(s, lo, hi)
}

/// Whether two byte strings are equal.
pub fn bytes_equal(a: &[u8], b: &[u8]) -> (r: bool)
    ensures
        r == (a@ == b@),
{
    if a.len() != b.len() {
        return false;
    }
    let mut i: usize = 0;
    while i < a.len()
        invariant
            a@.len() == b@.len(),
            i <= a@.len(),
            forall|j: int| 0 <= j < i ==> a@[j] == b@[j],
        decreases a@.len() - i,
    {
        if a[i] != b[i] {
            return false;
        }
        i = i + 1;
    }
    assert(a@ =~= b@);
    true
}

/// The pieces of `ws` that are not empty, in order.
pub open spec fn drop_empty(ws: Seq<Seq<u8>>) -> Seq<Seq<u8>>
    decreases ws.len(),
{
    if ws.len() == 0 {
        Seq::empty()
    } else if ws.last().len() == 0 {
        drop_empty(ws.drop_last())
    } else {
        drop_empty(ws.drop_last()).push(ws.last())
    }
}

/// The words of `s`: the runs of bytes between spaces.
pub fn words(s: &[u8]) -> (r: Vec<Vec<u8>>)
    ensures
        view_all(r@) == drop_empty(split_by(s@, Separator::Space)),
{
    let pieces = split(s, Separator::Space);
    let ghost pv = view_all(pieces@);
    let mut out: Vec<Vec<u8>> = Vec::new();
    let mut i: usize = 0;
    assert(pv.subrange(0, 0) =~= Seq::<Seq<u8>>::empty());
    assert(view_all(out@) =~= Seq::<Seq<u8>>::empty());
    while i < pieces.len()
        invariant
            i <= pieces@.len(),
            pv == view_all(pieces@),
            view_all(out@) == drop_empty(pv.subrange(0, i as int)),
        decreases pieces@.len() - i,
    {
        assert(pv.subrange(0, i + 1).drop_last() =~= pv.subrange(0, i as int));
        assert(pv.subrange(0, i + 1).last() == pieces@[i as int]@);
        if pieces[i].len() > 0 {
            let ghost before = out@;
            out.push(slice_to_vec(pieces[i].as_slice()));
            assert(view_all(out@) =~= view_all(before).push(pieces@[i as int]@));
        }
        i = i + 1;
    }
    assert(pv.subrange(0, i as int) =~= pv);
    out
}

fn is_continuation(c: u8) -> (r: bool)
    ensures
        r == is_continuation_byte(c),
{
    0x80 <= c && c <= 0xbf
}

/// The length of the well-formed UTF-8 scalar that starts at `b[i]`, or 0
/// if none does.
fn first_scalar_len(b: &[u8], i: usize) -> (r: usize)
    requires
        i < b@.len(),
    ensures
        r == 0 <==> !valid_first_scalar(b@.skip(i as int)),
        r != 0 ==> r == length_of_first_scalar(b@.skip(i as int)),
{
    let ghost s = b@.skip(i as int);
    let n = b.len() - i;
    let b0 = b[i];
    assert(s[0] == b0);
    if b0 <= 0x7f {
        return 1;
    }
    if 0xc0 <= b0 && b0 <= 0xdf {
        if n < 2 || !is_continuation(b[i + 1]) {
            return 0;
        }
        assert(s[1] == b@[i + 1]);
        let cp: u32 = (((b0 & 0x1F) as u32) << 6) | ((b[i + 1] & 0x3f) as u32);
        assert(cp == decode_first_codepoint(s));
        return if 0x80 <= cp && !(0xD800 <= cp && cp <= 0xDFFF) {
            2
        } else {
            0
        };
    }
    if 0xe0 <= b0 && b0 <= 0xef {
        if n < 3 || !is_continuation(b[i + 1]) || !is_continuation(b[i + 2]) {
            if n >= 2 {
                assert(s[1] == b@[i + 1]);
            }
            if n >= 3 {
                assert(s[2] == b@[i + 2]);
            }
            return 0;
        }
        assert(s[1] == b@[i + 1]);
        assert(s[2] == b@[i + 2]);
        let cp: u32 = (((b0 & 0x0F) as u32) << 12) | (((b[i + 1] & 0x3f) as u32) << 6) | ((b[i
            + 2] & 0x3f) as u32);
        assert(cp == decode_first_codepoint(s));
        return if 0x800 <= cp && !(0xD800 <= cp && cp <= 0xDFFF) {
            3
        } else {
            0
        };
    }
    if 0xf0 <= b0 && b0 <= 0xf7 {
        if n < 4 || !is_continuation(b[i + 1]) || !is_continuation(b[i + 2]) || !is_continuation(
            b[i + 3],
        ) {
            if n >= 2 {
                assert(s[1] == b@[i + 1]);
            }
            if n >= 3 {
                assert(s[2] == b@[i + 2]);
            }
            if n >= 4 {
                assert(s[3] == b@[i + 3]);
            }
            return 0;
        }
        assert(s[1] == b@[i + 1]);
        assert(s[2] == b@[i + 2]);
        assert(s[3] == b@[i + 3]);
        let cp: u32 = (((b0 & 0x07) as u32) << 18) | (((b[i + 1] & 0x3f) as u32) << 12) | (((b[i
            + 2] & 0x3f) as u32) << 6) | ((b[i + 3] & 0x3f) as u32);
        assert(cp == decode_first_codepoint(s));
        return if 0x10000 <= cp && cp <= 0x10ffff && !(0xD800 <= cp && cp <= 0xDFFF) {
            4
        } else {
            0
        };
    }
    0
}

/// Whether `b` is well-formed UTF-8.
pub fn is_utf8(b: &[u8]) -> (r: bool)
    ensures
        r == valid_utf8(b@),
{
    let mut i: usize = 0;
    assert(b@.skip(0) =~= b@);
    while i < b.len()
        invariant
            i <= b@.len(),
            valid_utf8(b@) == valid_utf8(b@.skip(i as int)),
        decreases b@.len() - i,
    {
        let ghost s = b@.skip(i as int);
        let k = first_scalar_len(b, i);
        if k == 0 {
            return false;
        }
        assert(pop_first_scalar(s) =~= b@.skip(i + k));
        i = i + k;
    }
    assert(b@.skip(i as int) =~= Seq::<u8>::empty());
    true
}

} // verus!
