//! Overlapping fixed-size windows over a single-pass symbol source.
use vstd::prelude::*;

use crate::MarkovError;

verus! {

/// The windows of size `n` over `s`, in order: window `i` starts at `s[i]`.
/// A source shorter than `n` has none.
pub open spec fn windows_of<T>(s: Seq<T>, n: nat) -> Seq<Seq<T>> {
    if n <= s.len() {
        Seq::new((s.len() - n + 1) as nat, |i: int| s.subrange(i, i + n))
    } else {
        Seq::empty()
    }
}

/// How many windows of size `n` a source of `len` symbols holds.
pub open spec fn window_count(len: nat, n: nat) -> nat {
    if n <= len {
        (len - n + 1) as nat
    } else {
        0
    }
}

/// A position `h + k` with both terms below `n` wraps around at most once.
proof fn lemma_wrap(h: int, k: int, n: int)
    requires
        0 <= h < n,
        0 <= k < n,
    ensures
        (h + k) % n == if h + k < n {
            h + k
        } else {
            h + k - n
        },
{
    if h + k < n {
        vstd::arithmetic::div_mod::lemma_small_mod((h + k) as nat, n as nat);
    } else {
        vstd::arithmetic::div_mod::lemma_mod_sub_multiples_vanish(h + k, n);
        vstd::arithmetic::div_mod::lemma_small_mod((h + k - n) as nat, n as nat);
    }
}

/// A lazy producer of the overlapping windows of one symbol sequence.
///
/// Symbols are pulled from the source one at a time into a circular buffer
/// of `window_size` slots; once the buffer is full, each pull yields a copy
/// of its contents, oldest first. The producer is not restartable.
pub struct OverlappingWindows<T> {
    source: Vec<T>,
    pulled: usize,
    window_size: usize,
    buffer: Vec<T>,
    head: usize,
}

impl<T: Copy> OverlappingWindows<T> {
    /// The symbol sequence being windowed.
    pub closed spec fn source(&self) -> Seq<T> {
        self.source@
    }

    /// The window size.
    pub closed spec fn size(&self) -> nat {
        self.window_size as nat
    }

    /// How many windows have been handed out so far.
    pub closed spec fn produced(&self) -> nat {
        window_count(self.pulled as nat, self.window_size as nat)
    }

    /// The windows not handed out yet, in order.
    pub open spec fn remaining(&self) -> Seq<Seq<T>> {
        windows_of(self.source(), self.size()).skip(self.produced() as int)
    }

    /// The buffer holds the last `min(pulled, window_size)` symbols pulled,
    /// oldest first from `head`, wrapping around.
    pub closed spec fn wf(&self) -> bool {
        &&& self.window_size >= 1
        &&& self.pulled <= self.source@.len()
        &&& self.head < self.window_size
        &&& self.buffer@.len() == if self.pulled < self.window_size {
            self.pulled as int
        } else {
            self.window_size as int
        }
        &&& self.buffer@.len() < self.window_size ==> self.head == 0
        &&& forall|k: int|
            0 <= k < self.buffer@.len() ==> #[trigger] self.buffer@[(self.head + k)
                % (self.window_size as int)] == self.source@[self.pulled - self.buffer@.len() + k]
    }

    /// Starts windowing `source` with windows of `window_size` symbols.
    pub fn new(source: Vec<T>, window_size: usize) -> (r: Result<Self, MarkovError>)
        ensures
            window_size == 0 <==> r is Err,
            r is Err ==> r == Err::<Self, MarkovError>(MarkovError::InvalidWindowSize),
            r matches Ok(w) ==> {
                &&& w.wf()
                &&& w.source() == source@
                &&& w.size() == window_size
                &&& w.produced() == 0
            },
    {
        if window_size == 0 {
            return Err(MarkovError::InvalidWindowSize);
        }
        Ok(OverlappingWindows { source, pulled: 0, window_size, buffer: Vec::new(), head: 0 })
    }

    /// The window size.
    pub fn window_size(&self) -> (r: usize)
        ensures
            r == self.size(),
    {
        self.window_size
    }

    /// Copies the buffer out, oldest symbol first.
    fn snapshot(&self) -> (r: Vec<T>)
        requires
            self.wf(),
            self.buffer@.len() == self.window_size,
        ensures
            r@ == self.source@.subrange(self.pulled - self.window_size, self.pulled as int),
    {
        let n = self.window_size;
        let mut out: Vec<T> = Vec::new();
        let mut k: usize = 0;
        while k < n
            invariant
                self.wf(),
                self.buffer@.len() == n,
                n == self.window_size,
                k <= n,
                out@ == self.source@.subrange(self.pulled - n, self.pulled - n + k),
            decreases n - k,
        {
            let j: usize = if k < n - self.head {
                self.head + k
            } else {
                k - (n - self.head)
            };
            proof {
                lemma_wrap(self.head as int, k as int, n as int);
            }
            let x = self.buffer[j];
            out.push(x);
            assert(out@ =~= self.source@.subrange(self.pulled - n, self.pulled - n + k + 1));
            k = k + 1;
        }
        out
    }

    /// Pulls symbols until the next window is complete and returns it, or
    /// returns `None` once the source is exhausted.
    pub fn next_window(&mut self) -> (r: Option<Vec<T>>)
        requires
            old(self).wf(),
        ensures
            final(self).wf(),
            final(self).source() == old(self).source(),
            final(self).size() == old(self).size(),
            old(self).remaining().len() == 0 ==> r is None && final(self).remaining().len() == 0,
            old(self).remaining().len() > 0 ==> (r matches Some(w) && w@ == old(self).remaining()[0]
                && final(self).remaining() == old(self).remaining().skip(1)),
            r matches Some(w) ==> w@.len() == old(self).size() && w@.len() >= 1,
    {
        proof {
            self.lemma_remaining();
        }
        while self.pulled < self.source.len()
            invariant
                self.wf(),
                self.source@ == old(self).source@,
                self.window_size == old(self).window_size,
                self.produced() == old(self).produced(),
            decreases self.source@.len() - self.pulled,
        {
            let x = self.source[self.pulled];
            let n = self.window_size;
            proof {
                self.lemma_remaining();
            }
            if self.buffer.len() < n {
                self.buffer.push(x);
                assert forall|k: int| 0 <= k < self.buffer@.len() implies #[trigger] self.buffer@[(
                self.head + k) % (n as int)] == self.source@[self.pulled + 1 - self.buffer@.len()
                    + k] by {
                    lemma_wrap(0, k, n as int);
                }
            } else {
                let ghost old_buf = self.buffer@;
                let ghost h = self.head as int;
                self.buffer.set(self.head, x);
                self.head = if self.head + 1 == n {
                    0
                } else {
                    self.head + 1
                };
                assert forall|k: int| 0 <= k < self.buffer@.len() implies #[trigger] self.buffer@[(
                self.head + k) % (n as int)] == self.source@[self.pulled + 1 - n + k] by {
                    lemma_wrap(self.head as int, k, n as int);
                    if k < n - 1 {
                        lemma_wrap(h, k + 1, n as int);
                        assert(old_buf[(h + (k + 1)) % (n as int)] == self.source@[self.pulled - n
                            + (k + 1)]);
                    } else {
                        lemma_wrap(h, 0, n as int);
                    }
                }
            }
            self.pulled = self.pulled + 1;
            if self.buffer.len() == n {
                let w = self.snapshot();
                proof {
                    self.lemma_remaining();
                }
                return Some(w);
            }
        }
        None
    }

    proof fn lemma_remaining(&self)
        requires
            self.wf(),
        ensures
            self.produced() <= window_count(self.source@.len(), self.window_size as nat),
            windows_of(self.source(), self.size()).len() == window_count(
                self.source@.len(),
                self.window_size as nat,
            ),
            self.remaining().len() == window_count(self.source@.len(), self.window_size as nat)
                - self.produced(),
            self.buffer@.len() == self.window_size ==> self.produced() == self.pulled
                - self.window_size + 1,
    {
    }
}

/// Windows the whole of `source` with windows of `window_size` symbols,
/// pulling them one at a time from an [`OverlappingWindows`].
pub fn collect_windows<T: Copy>(source: Vec<T>, window_size: usize) -> (r: Result<
    Vec<Vec<T>>,
    MarkovError,
>)
    ensures
        window_size == 0 <==> r is Err,
        r is Err ==> r == Err::<Vec<Vec<T>>, MarkovError>(MarkovError::InvalidWindowSize),
        r matches Ok(ws) ==> {
            &&& ws@.len() == window_count(source@.len(), window_size as nat)
            &&& forall|i: int| 0 <= i < ws@.len() ==> (#[trigger] ws@[i])@ == windows_of(
                source@,
                window_size as nat,
            )[i]
            &&& forall|i: int| 0 <= i < ws@.len() ==> (#[trigger] ws@[i])@.len() == window_size
        },
{
    let ghost s = source@;
    let mut w = match OverlappingWindows::new(source, window_size) {
        Ok(w) => w,
        Err(e) => {
            return Err(e);
        },
    };
    let mut out: Vec<Vec<T>> = Vec::new();
    proof {
        lemma_window_count(s, window_size as nat);
    }
    loop
        invariant
            w.wf(),
            w.source() == s,
            w.size() == window_size,
            windows_of(s, window_size as nat).len() == out@.len() + w.remaining().len(),
            w.remaining() == windows_of(s, window_size as nat).skip(out@.len() as int),
            forall|i: int| 0 <= i < out@.len() ==> (#[trigger] out@[i])@ == windows_of(
                s,
                window_size as nat,
            )[i],
        ensures
            out@.len() == windows_of(s, window_size as nat).len(),
            forall|i: int| 0 <= i < out@.len() ==> (#[trigger] out@[i])@ == windows_of(
                s,
                window_size as nat,
            )[i],
        decreases w.remaining().len(),
    {
        match w.next_window() {
            Some(x) => {
                proof {
                    lemma_window_length(s, window_size as nat, out@.len() as int);
                }
                out.push(x);
            },
            None => {
                break ;
            },
        }
    }
    proof {
        assert forall|i: int| 0 <= i < out@.len() implies (#[trigger] out@[i])@.len()
            == window_size by {
            lemma_window_length(s, window_size as nat, i);
        }
    }
    Ok(out)
}

/// A source of `len(s)` symbols holds `max(0, len(s) - n + 1)` windows of
/// size `n`.
pub proof fn lemma_window_count<T>(s: Seq<T>, n: nat)
    requires
        n >= 1,
    ensures
        windows_of(s, n).len() == window_count(s.len(), n),
        n <= s.len() ==> windows_of(s, n).len() == s.len() - n + 1,
        s.len() < n ==> windows_of(s, n).len() == 0,
{
}

/// Every window of size `n` holds exactly `n` symbols, those of the source
/// starting at the window's own position.
pub proof fn lemma_window_length<T>(s: Seq<T>, n: nat, i: int)
    requires
        n >= 1,
        0 <= i < windows_of(s, n).len(),
    ensures
        windows_of(s, n)[i].len() == n,
        forall|k: int| 0 <= k < n ==> #[trigger] windows_of(s, n)[i][k] == s[i + k],
{
}

/// With windows of one symbol, window `i` is exactly `[s[i]]`, and the
/// windows laid end to end give back the source.
pub proof fn lemma_unit_windows<T>(s: Seq<T>)
    ensures
        windows_of(s, 1).len() == s.len(),
        forall|i: int| 0 <= i < s.len() ==> #[trigger] windows_of(s, 1)[i] == seq![s[i]],
        windows_of(s, 1).flatten() == s,
    decreases s.len(),
{
    assert forall|i: int| 0 <= i < s.len() implies #[trigger] windows_of(s, 1)[i] == seq![s[i]] by {
        assert(windows_of(s, 1)[i] =~= seq![s[i]]);
    }
    if s.len() > 0 {
        let t = s.drop_last();
        lemma_unit_windows(t);
        assert(windows_of(s, 1).drop_last() =~= windows_of(t, 1));
        let last = windows_of(s, 1).last();
        assert(last == seq![s.last()]);
        assert(windows_of(s, 1) =~= windows_of(t, 1).push(last));
        windows_of(t, 1).lemma_flatten_push(last);
        assert(s =~= t + seq![s.last()]);
    } else {
        assert(windows_of(s, 1) =~= Seq::<Seq<T>>::empty());
    }
}

} // verus!
