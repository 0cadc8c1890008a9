//! Adjacent symbol pairs: the window size two case without a buffer.
use vstd::prelude::*;

use crate::window::{windows_of, lemma_window_length};

verus! {

/// The adjacent pairs of `s`, in order: pair `i` is `(s[i], s[i + 1])`.
pub open spec fn pairs_of<T>(s: Seq<T>) -> Seq<(T, T)> {
    if s.len() >= 1 {
        Seq::new((s.len() - 1) as nat, |i: int| (s[i], s[i + 1]))
    } else {
        Seq::empty()
    }
}

/// Each pair as a window of two symbols.
pub open spec fn pair_windows<T>(ps: Seq<(T, T)>) -> Seq<Seq<T>> {
    ps.map_values(|x: (T, T)| seq![x.0, x.1])
}

/// A lazy producer of the adjacent pairs of one symbol sequence. It keeps
/// the previously pulled symbol and pairs it with the next one.
pub struct BiGramIterator<T> {
    previous: Option<T>,
    source: Vec<T>,
    pulled: usize,
}

impl<T: Copy> BiGramIterator<T> {
    /// The symbol sequence being paired.
    pub closed spec fn source(&self) -> Seq<T> {
        self.source@
    }

    /// The pairs not handed out yet, in order.
    pub closed spec fn remaining(&self) -> Seq<(T, T)> {
        if self.previous is Some {
            pairs_of(self.source@).skip(self.pulled - 1)
        } else {
            Seq::empty()
        }
    }

    /// The kept symbol is the last one pulled, until the source runs out.
    pub closed spec fn wf(&self) -> bool {
        &&& self.pulled <= self.source@.len()
        &&& self.previous is Some ==> 1 <= self.pulled && self.previous == Some(
            self.source@[self.pulled - 1],
        )
        &&& self.previous is None ==> self.pulled == self.source@.len()
    }

    /// Pulls the next symbol of the source, if any is left.
    fn pull(&mut self) -> (r: Option<T>)
        requires
            old(self).pulled <= old(self).source@.len(),
        ensures
            final(self).source == old(self).source,
            final(self).previous == old(self).previous,
            old(self).pulled < old(self).source@.len() ==> r == Some(
                old(self).source@[old(self).pulled as int],
            ) && final(self).pulled == old(self).pulled + 1,
            old(self).pulled == old(self).source@.len() ==> r is None && final(self).pulled
                == old(self).pulled,
    {
        if self.pulled < self.source.len() {
            let x = self.source[self.pulled];
            self.pulled = self.pulled + 1;
            Some(x)
        } else {
            None
        }
    }

    /// Starts pairing `source`, pulling its first symbol.
    pub fn new(source: Vec<T>) -> (r: Self)
        ensures
            r.wf(),
            r.source() == source@,
            r.remaining() == pairs_of(source@),
    {
        let mut r = BiGramIterator { previous: None, source, pulled: 0 };
        r.previous = r.pull();
        proof {
            if r.previous is Some {
                assert(r.remaining() =~= pairs_of(source@));
            } else {
                assert(pairs_of(source@) =~= Seq::<(T, T)>::empty());
            }
        }
        r
    }

    /// Returns the next adjacent pair, or `None` once the source is exhausted.
    pub fn next(&mut self) -> (r: Option<(T, T)>)
        requires
            old(self).wf(),
        ensures
            final(self).wf(),
            final(self).source() == old(self).source(),
            old(self).remaining().len() == 0 ==> r is None && final(self).remaining().len() == 0,
            old(self).remaining().len() > 0 ==> (r == Some(old(self).remaining()[0])
                && final(self).remaining() == old(self).remaining().skip(1)),
    {
        let ghost old_self = *self;
        let next = self.pull();
        let previous = self.previous;
        self.previous = next;
        match previous {
            None => None,
            Some(p) => match self.previous {
                Some(n) => {
                    assert(self.remaining() =~= old_self.remaining().skip(1));
                    Some((p, n))
                },
                None => {
                    assert(old_self.remaining().len() == 0);
                    None
                },
            },
        }
    }
}

/// All adjacent pairs of `source`, pulled one at a time from a
/// [`BiGramIterator`].
pub fn bigrams<T: Copy>(source: Vec<T>) -> (r: Vec<(T, T)>)
    ensures
        r@ == pairs_of(source@),
{
    let ghost s = source@;
    let mut it = BiGramIterator::new(source);
    let mut out: Vec<(T, T)> = Vec::new();
    loop
        invariant
            it.wf(),
            pairs_of(s) == out@ + it.remaining(),
        ensures
            out@ == pairs_of(s),
        decreases it.remaining().len(),
    {
        let ghost before = it.remaining();
        match it.next() {
            Some(x) => {
                out.push(x);
                assert(out@ + it.remaining() =~= pairs_of(s));
            },
            None => {
                assert(out@ =~= pairs_of(s));
                break ;
            },
        }
    }
    out
}

/// The adjacent pairs of a sequence are its windows of size two, pair for
/// window, in order.
pub proof fn lemma_pairs_are_windows<T>(s: Seq<T>)
    ensures
        pair_windows(pairs_of(s)) == windows_of(s, 2),
        pairs_of(s).len() == windows_of(s, 2).len(),
        forall|i: int|
            0 <= i < pairs_of(s).len() ==> #[trigger] windows_of(s, 2)[i] == seq![
                pairs_of(s)[i].0,
                pairs_of(s)[i].1,
            ],
{
    assert forall|i: int| 0 <= i < pairs_of(s).len() implies #[trigger] windows_of(s, 2)[i]
        == seq![pairs_of(s)[i].0, pairs_of(s)[i].1] by {
        lemma_window_length(s, 2, i);
        assert(windows_of(s, 2)[i] =~= seq![pairs_of(s)[i].0, pairs_of(s)[i].1]);
    }
    assert(pair_windows(pairs_of(s)) =~= windows_of(s, 2));
}

} // verus!
