//! A pull adapter that turns a mapping from one input element to any number
//! of outputs into a sequence of outputs.

use std::collections::VecDeque;
use vstd::prelude::*;

verus! {

broadcast use vstd::std_specs::vecdeque::group_vec_dequeue_axioms;

/// One input element in, zero or more outputs out.
pub trait StreamMap<T, U>: Sized {
    /// One call of `produce` on `x` may take the mapper from `pre` to `post`
    /// and hand back `out`.
    spec fn produces(pre: Self, x: T, post: Self, out: Seq<U>) -> bool;

    fn produce(&mut self, x: T) -> (out: Vec<U>)
        ensures
            Self::produces(*old(self), x, *final(self), out@),
    ;
}

/// The outputs of several calls, in order.
pub open spec fn concat_all<U>(outs: Seq<Seq<U>>) -> Seq<U>
    decreases outs.len(),
{
    if outs.len() == 0 {
        Seq::empty()
    } else {
        concat_all(outs.drop_last()) + outs.last()
    }
}

/// `states` and `outs` record a run of `produce` over `xs`, from the mapper
/// `m0` to `m1`, whose outputs come to `out`.
pub open spec fn trace<M: StreamMap<T, U>, T, U>(
    m0: M,
    xs: Seq<T>,
    m1: M,
    out: Seq<U>,
    states: Seq<M>,
    outs: Seq<Seq<U>>,
) -> bool {
    &&& states.len() == xs.len() + 1
    &&& outs.len() == xs.len()
    &&& states[0] == m0
    &&& states.last() == m1
    &&& forall|i: int|
        0 <= i < xs.len() ==> M::produces(states[i], #[trigger] xs[i], states[i + 1], outs[i])
    &&& out == concat_all(outs)
}

/// Every call but the last handed back nothing.
pub open spec fn quiet_before_last<U>(outs: Seq<Seq<U>>) -> bool {
    forall|i: int| 0 <= i < outs.len() - 1 ==> (#[trigger] outs[i]).len() == 0
}

/// Calling `produce` on each element of `xs` in turn, every call but the
/// last handing back nothing, can take the mapper from `m0` to `m1` and hand
/// back `out`, all outputs in order.
pub open spec fn runs<M: StreamMap<T, U>, T, U>(m0: M, xs: Seq<T>, m1: M, out: Seq<U>) -> bool {
    exists|states: Seq<M>, outs: Seq<Seq<U>>|
        #[trigger] trace(m0, xs, m1, out, states, outs) && quiet_before_last(outs)
}

/// The outputs that a call to `next` has produced: the one it returned,
/// then those it left buffered.
pub open spec fn yielded<U>(r: Option<U>, rest: Seq<U>) -> Seq<U> {
    match r {
        Some(u) => seq![u] + rest,
        None => Seq::empty(),
    }
}

/// Yields, in order, every output of the mapper over the source, pulling a
/// source element only when the outputs already produced are used up.
pub struct StreamAdapter<M, T, U> {
    map: M,
    source: VecDeque<T>,
    buffer: VecDeque<U>,
}

impl<M: StreamMap<T, U>, T, U> StreamAdapter<M, T, U> {
    /// The mapper, as it is now.
    pub closed spec fn mapper(&self) -> M {
        self.map
    }

    /// The source elements not yet pulled.
    pub closed spec fn remaining(&self) -> Seq<T> {
        self.source@
    }

    /// Outputs produced but not yet yielded.
    pub closed spec fn buffered(&self) -> Seq<U> {
        self.buffer@
    }

    pub fn new(map: M, iter: Vec<T>) -> (r: Self)
        ensures
            r.mapper() == map,
            r.remaining() == iter@,
            r.buffered() == Seq::<U>::empty(),
    {
        let mut iter = iter;
        let mut source: VecDeque<T> = VecDeque::new();
        let ghost all = iter@;
        while iter.len() > 0
            invariant
                iter@ + source@ == all,
            decreases iter.len(),
        {
            let x = iter.pop().unwrap();
            source.push_front(x);
            assert(iter@ + source@ =~= all);
        }
        assert(source@ =~= all);
        StreamAdapter { map, source, buffer: VecDeque::new() }
    }

    /// The next output. When none is buffered, source elements are pulled,
    /// one `produce` call each, until one yields output or the source ends.
    pub fn next(&mut self) -> (r: Option<U>)
        ensures
            old(self).buffered().len() > 0 ==> {
                &&& r == Some(old(self).buffered()[0])
                &&& final(self).buffered() == old(self).buffered().drop_first()
                &&& final(self).remaining() == old(self).remaining()
                &&& final(self).mapper() == old(self).mapper()
            },
            old(self).buffered().len() == 0 ==> exists|k: int|
                {
                    &&& 0 <= k <= old(self).remaining().len()
                    &&& final(self).remaining() == old(self).remaining().skip(k)
                    &&& #[trigger] runs(
                        old(self).mapper(),
                        old(self).remaining().take(k),
                        final(self).mapper(),
                        yielded(r, final(self).buffered()),
                    )
                    &&& r is None ==> final(self).remaining().len() == 0 && final(self).buffered().len() == 0
                },
    {
        if self.buffer.len() > 0 {
            return self.buffer.pop_front();
        }
        let ghost m0 = self.map;
        let ghost src0 = self.source@;
        let ghost mut k: int = 0;
        let ghost mut states: Seq<M> = seq![self.map];
        let ghost mut outs: Seq<Seq<U>> = Seq::empty();
        assert(concat_all(outs) =~= self.buffer@);
        while self.buffer.len() == 0 && self.source.len() > 0
            invariant
                0 <= k <= src0.len(),
                self.source@ == src0.skip(k),
                trace(m0, src0.take(k), self.map, self.buffer@, states, outs),
                quiet_before_last(outs),
            decreases self.source@.len(),
        {
            proof {
                if outs.len() > 0 {
                    assert(concat_all(outs) == concat_all(outs.drop_last()) + outs.last());
                    assert(outs.last().len() == 0);
                }
            }
            let ghost pre = self.map;
            let x = self.source.pop_front().unwrap();
            assert(x == src0[k]);
            let mut out = self.map.produce(x);
            let ghost out_seq = out@;
            let ghost post = self.map;
            let ghost src_after = self.source@;
            while out.len() > 0
                invariant
                    out@ + self.buffer@ == out_seq,
                    self.map == post,
                    self.source@ == src_after,
                decreases out.len(),
            {
                let y = out.pop().unwrap();
                self.buffer.push_front(y);
                assert(out@ + self.buffer@ =~= out_seq);
            }
            proof {
                assert(self.buffer@ =~= out_seq);
                let xs = src0.take(k + 1);
                assert(xs =~= src0.take(k).push(x));
                let states2 = states.push(self.map);
                let outs2 = outs.push(out_seq);
                assert(outs2.drop_last() =~= outs);
                assert(concat_all(outs) =~= Seq::<U>::empty());
                assert(concat_all(outs2) =~= out_seq);
                assert forall|i: int| 0 <= i < xs.len() implies M::produces(
                    states2[i],
                    #[trigger] xs[i],
                    states2[i + 1],
                    outs2[i],
                ) by {
                    if i < k {
                        assert(xs[i] == src0.take(k)[i]);
                        assert(states2[i] == states[i]);
                        assert(states2[i + 1] == states[i + 1]);
                        assert(outs2[i] == outs[i]);
                    } else {
                        assert(xs[i] == x);
                        assert(states2[i] == pre);
                        assert(states2[i + 1] == self.map);
                        assert(outs2[i] == out_seq);
                    }
                }
                assert forall|i: int| 0 <= i < outs2.len() - 1 implies (
                #[trigger] outs2[i]).len() == 0 by {
                    assert(outs2[i] == outs[i]);
                    if i < outs.len() - 1 {
                        assert(outs[i].len() == 0);
                    }
                }
                states = states2;
                outs = outs2;
                assert(self.source@ =~= src0.skip(k + 1));
                k = k + 1;
            }
        }
        let ghost buf = self.buffer@;
        let r = self.buffer.pop_front();
        proof {
            let xs = src0.take(k);
            if r is Some {
                let u = r->Some_0;
                assert(seq![u] + self.buffer@ =~= concat_all(outs));
                assert(trace(m0, xs, self.map, seq![u] + self.buffer@, states, outs));
            } else {
                assert(buf =~= Seq::<U>::empty());
                assert(trace(m0, xs, self.map, Seq::<U>::empty(), states, outs));
            }
            assert(runs(m0, xs, self.map, yielded(r, self.buffer@)));
            assert(runs(
                old(self).mapper(),
                old(self).remaining().take(k),
                self.mapper(),
                yielded(r, self.buffered()),
            ));
        }
        r
    }
}

} // verus!
