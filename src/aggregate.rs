//! Streaming aggregation of windows into a frequency table, line by line.
use vstd::prelude::*;

use crate::bigram::{pair_windows, BiGramIterator};
use crate::table::{copy_front, prefix_windows, transitions, FrequencyTable};
use crate::window::{windows_of, OverlappingWindows};
use crate::MarkovError;

verus! {

/// The windows of size `n` of every line, line after line. No window spans
/// two lines: each line is windowed on its own.
pub open spec fn all_windows(lines: Seq<Seq<char>>, n: nat) -> Seq<Seq<char>>
    decreases lines.len(),
{
    if lines.len() == 0 {
        Seq::empty()
    } else {
        all_windows(lines.drop_last(), n) + windows_of(lines.last(), n)
    }
}

/// The number of symbols over all lines.
pub open spec fn symbol_count(lines: Seq<Seq<char>>) -> nat
    decreases lines.len(),
{
    if lines.len() == 0 {
        0
    } else {
        symbol_count(lines.drop_last()) + lines.last().len()
    }
}

/// The symbol sequences held by `lines`.
pub open spec fn lines_view(lines: Seq<Vec<char>>) -> Seq<Seq<char>> {
    lines.map_values(|l: Vec<char>| l@)
}

proof fn lemma_counts_push(ws: Seq<Seq<char>>, w: Seq<char>)
    ensures
        forall|p: Seq<char>, c: char| #[trigger]
            transitions(ws.push(w), p, c) == transitions(ws, p, c) + if w.len() >= 1
                && w.drop_last() == p && w.last() == c {
                1nat
            } else {
                0nat
            },
        forall|p: Seq<char>| #[trigger]
            prefix_windows(ws.push(w), p) == prefix_windows(ws, p) + if w.len() >= 1
                && w.drop_last() == p {
                1nat
            } else {
                0nat
            },
{
    assert(ws.push(w).drop_last() =~= ws);
}

/// Feeds every window that `items` has left into `frequencies`.
pub fn ngram_frequencies(items: OverlappingWindows<char>, frequencies: &mut FrequencyTable)
    requires
        items.wf(),
        old(frequencies).wf(),
        old(frequencies).observed() + items.remaining().len() <= u64::MAX,
    ensures
        final(frequencies).wf(),
        final(frequencies).observed() == old(frequencies).observed() + items.remaining().len(),
        forall|p: Seq<char>, c: char| #[trigger]
            final(frequencies).count(p, c) == old(frequencies).count(p, c) + transitions(
                items.remaining(),
                p,
                c,
            ),
        forall|p: Seq<char>| #[trigger]
            final(frequencies).prefix_total(p) == old(frequencies).prefix_total(p)
                + prefix_windows(items.remaining(), p),
{
    let ghost all = items.remaining();
    let mut items = items;
    let ghost mut done: Seq<Seq<char>> = Seq::empty();
    proof {
        assert(all =~= done + items.remaining());
    }
    loop
        invariant
            items.wf(),
            frequencies.wf(),
            all == done + items.remaining(),
            frequencies.observed() == old(frequencies).observed() + done.len(),
            old(frequencies).observed() + all.len() <= u64::MAX,
            forall|p: Seq<char>, c: char| #[trigger]
                frequencies.count(p, c) == old(frequencies).count(p, c) + transitions(done, p, c),
            forall|p: Seq<char>| #[trigger]
                frequencies.prefix_total(p) == old(frequencies).prefix_total(p) + prefix_windows(
                    done,
                    p,
                ),
        ensures
            frequencies.wf(),
            done == all,
            frequencies.observed() == old(frequencies).observed() + done.len(),
            forall|p: Seq<char>, c: char| #[trigger]
                frequencies.count(p, c) == old(frequencies).count(p, c) + transitions(done, p, c),
            forall|p: Seq<char>| #[trigger]
                frequencies.prefix_total(p) == old(frequencies).prefix_total(p) + prefix_windows(
                    done,
                    p,
                ),
        decreases items.remaining().len(),
    {
        let ghost before = items.remaining();
        match items.next_window() {
            Some(w) => {
                proof {
                    assert(all[done.len() as int] == before[0]);
                    lemma_counts_push(done, w@);
                }
                let r = frequencies.record_window(&w);
                proof {
                    assert(r is Ok);
                    done = done.push(w@);
                    assert(all =~= done + items.remaining());
                }
            },
            None => {
                assert(done =~= all);
                break ;
            },
        }
    }
}

/// Feeds every pair that `items` has left into `frequencies`, each pair as
/// its first symbol followed by its second.
pub fn bigram_frequencies(items: BiGramIterator<char>, frequencies: &mut FrequencyTable)
    requires
        items.wf(),
        old(frequencies).wf(),
        old(frequencies).observed() + items.remaining().len() <= u64::MAX,
    ensures
        final(frequencies).wf(),
        final(frequencies).observed() == old(frequencies).observed() + items.remaining().len(),
        forall|p: Seq<char>, c: char| #[trigger]
            final(frequencies).count(p, c) == old(frequencies).count(p, c) + transitions(
                pair_windows(items.remaining()),
                p,
                c,
            ),
        forall|p: Seq<char>| #[trigger]
            final(frequencies).prefix_total(p) == old(frequencies).prefix_total(p)
                + prefix_windows(pair_windows(items.remaining()), p),
{
    let ghost all = pair_windows(items.remaining());
    let mut items = items;
    let ghost mut done: Seq<(char, char)> = Seq::empty();
    proof {
        assert(items.remaining() =~= done + items.remaining());
    }
    loop
        invariant
            items.wf(),
            frequencies.wf(),
            all == pair_windows(done + items.remaining()),
            frequencies.observed() == old(frequencies).observed() + done.len(),
            old(frequencies).observed() + all.len() <= u64::MAX,
            forall|p: Seq<char>, c: char| #[trigger]
                frequencies.count(p, c) == old(frequencies).count(p, c) + transitions(
                    pair_windows(done),
                    p,
                    c,
                ),
            forall|p: Seq<char>| #[trigger]
                frequencies.prefix_total(p) == old(frequencies).prefix_total(p) + prefix_windows(
                    pair_windows(done),
                    p,
                ),
        ensures
            frequencies.wf(),
            all == pair_windows(done),
            frequencies.observed() == old(frequencies).observed() + done.len(),
            forall|p: Seq<char>, c: char| #[trigger]
                frequencies.count(p, c) == old(frequencies).count(p, c) + transitions(
                    pair_windows(done),
                    p,
                    c,
                ),
            forall|p: Seq<char>| #[trigger]
                frequencies.prefix_total(p) == old(frequencies).prefix_total(p) + prefix_windows(
                    pair_windows(done),
                    p,
                ),
        decreases items.remaining().len(),
    {
        let ghost before = items.remaining();
        match items.next() {
            Some(x) => {
                let mut w: Vec<char> = Vec::new();
                w.push(x.0);
                w.push(x.1);
                proof {
                    assert(w@ =~= seq![x.0, x.1]);
                    assert(pair_windows(done.push(x)) =~= pair_windows(done).push(w@));
                    lemma_counts_push(pair_windows(done), w@);
                }
                let r = frequencies.record_window(&w);
                proof {
                    assert(r is Ok);
                    done = done.push(x);
                    assert(done + items.remaining() =~= done.drop_last() + before);
                }
            },
            None => {
                assert(done + items.remaining() =~= done);
                break ;
            },
        }
    }
}

/// Builds the table of one run: every line is windowed on its own with
/// windows of `n` symbols, and every window is counted as its prefix
/// followed by its last symbol.
pub fn table_from_lines(lines: &Vec<Vec<char>>, n: usize) -> (r: Result<
    FrequencyTable,
    MarkovError,
>)
    requires
        symbol_count(lines_view(lines@)) <= u64::MAX,
    ensures
        n == 0 <==> r is Err,
        r is Err ==> r == Err::<FrequencyTable, MarkovError>(MarkovError::InvalidWindowSize),
        r matches Ok(t) ==> {
            &&& t.wf()
            &&& t.observed() == all_windows(lines_view(lines@), n as nat).len()
            &&& forall|p: Seq<char>, c: char| #[trigger]
                t.count(p, c) == transitions(all_windows(lines_view(lines@), n as nat), p, c)
            &&& forall|p: Seq<char>| #[trigger]
                t.prefix_total(p) == prefix_windows(all_windows(lines_view(lines@), n as nat), p)
        },
{
    if n == 0 {
        return Err(MarkovError::InvalidWindowSize);
    }
    let ghost lv = lines_view(lines@);
    let mut table = FrequencyTable::new();
    let mut i: usize = 0;
    proof {
        assert(lv.subrange(0, 0) =~= Seq::<Seq<char>>::empty());
    }
    while i < lines.len()
        invariant
            n >= 1,
            lv == lines_view(lines@),
            symbol_count(lv) <= u64::MAX,
            i <= lines@.len(),
            table.wf(),
            table.observed() == all_windows(lv.subrange(0, i as int), n as nat).len(),
            forall|p: Seq<char>, c: char| #[trigger]
                table.count(p, c) == transitions(all_windows(lv.subrange(0, i as int), n as nat), p, c),
            forall|p: Seq<char>| #[trigger]
                table.prefix_total(p) == prefix_windows(
                    all_windows(lv.subrange(0, i as int), n as nat),
                    p,
                ),
        decreases lines@.len() - i,
    {
        let line = copy_front(&lines[i], lines[i].len());
        let ghost before = lv.subrange(0, i as int);
        let ghost after = lv.subrange(0, i + 1);
        proof {
            assert(line@ =~= lv[i as int]);
            assert(after.drop_last() =~= before);
            lemma_all_windows_len(after, n as nat);
            lemma_symbol_count_prefix(lv, i + 1);
            lemma_transitions_concat(
                all_windows(before, n as nat),
                windows_of(line@, n as nat),
            );
        }
        let windows = match OverlappingWindows::new(line, n) {
            Ok(w) => w,
            Err(e) => {
                return Err(e);
            },
        };
        assert(windows.remaining() =~= windows_of(line@, n as nat));
        ngram_frequencies(windows, &mut table);
        i = i + 1;
    }
    proof {
        assert(lv.subrange(0, i as int) =~= lv);
    }
    Ok(table)
}

proof fn lemma_transitions_concat(x: Seq<Seq<char>>, y: Seq<Seq<char>>)
    ensures
        forall|p: Seq<char>, c: char| #[trigger]
            transitions(x + y, p, c) == transitions(x, p, c) + transitions(y, p, c),
        forall|p: Seq<char>| #[trigger]
            prefix_windows(x + y, p) == prefix_windows(x, p) + prefix_windows(y, p),
    decreases y.len(),
{
    if y.len() == 0 {
        assert(x + y =~= x);
        assert forall|p: Seq<char>, c: char| #[trigger] transitions(y, p, c) == 0 by {}
        assert forall|p: Seq<char>| #[trigger] prefix_windows(y, p) == 0 by {}
    } else {
        lemma_transitions_concat(x, y.drop_last());
        assert((x + y).drop_last() =~= x + y.drop_last());
        assert((x + y).last() == y.last());
        assert forall|p: Seq<char>, c: char| #[trigger]
            transitions(x + y, p, c) == transitions(x, p, c) + transitions(y, p, c) by {
            assert(transitions(x + y.drop_last(), p, c) == transitions(x, p, c) + transitions(
                y.drop_last(),
                p,
                c,
            ));
        }
        assert forall|p: Seq<char>| #[trigger]
            prefix_windows(x + y, p) == prefix_windows(x, p) + prefix_windows(y, p) by {
            assert(prefix_windows(x + y.drop_last(), p) == prefix_windows(x, p) + prefix_windows(
                y.drop_last(),
                p,
            ));
        }
    }
}

proof fn lemma_all_windows_len(lines: Seq<Seq<char>>, n: nat)
    requires
        n >= 1,
    ensures
        all_windows(lines, n).len() <= symbol_count(lines),
    decreases lines.len(),
{
    if lines.len() > 0 {
        lemma_all_windows_len(lines.drop_last(), n);
    }
}

proof fn lemma_symbol_count_prefix(lines: Seq<Seq<char>>, i: int)
    requires
        0 <= i <= lines.len(),
    ensures
        symbol_count(lines.subrange(0, i)) <= symbol_count(lines),
    decreases lines.len(),
{
    if i == lines.len() {
        assert(lines.subrange(0, i) =~= lines);
    } else {
        lemma_symbol_count_prefix(lines.drop_last(), i);
        assert(lines.drop_last().subrange(0, i) =~= lines.subrange(0, i));
    }
}

/// The windows of two runs of lines, one after the other, are those of each
/// run laid end to end; so the counts of a run over both are the sums of the
/// counts of the two runs, for every prefix and trailing symbol.
pub proof fn lemma_runs_add(a: Seq<Seq<char>>, b: Seq<Seq<char>>, n: nat)
    ensures
        all_windows(a + b, n) == all_windows(a, n) + all_windows(b, n),
        forall|p: Seq<char>, c: char| #[trigger]
            transitions(all_windows(a + b, n), p, c) == transitions(all_windows(a, n), p, c)
                + transitions(all_windows(b, n), p, c),
        forall|p: Seq<char>| #[trigger]
            prefix_windows(all_windows(a + b, n), p) == prefix_windows(all_windows(a, n), p)
                + prefix_windows(all_windows(b, n), p),
    decreases b.len(),
{
    if b.len() == 0 {
        assert(a + b =~= a);
        assert(all_windows(a, n) + all_windows(b, n) =~= all_windows(a, n));
    } else {
        lemma_runs_add(a, b.drop_last(), n);
        assert((a + b).drop_last() =~= a + b.drop_last());
        assert(all_windows(a + b, n) =~= all_windows(a, n) + all_windows(b, n));
    }
    lemma_transitions_concat(all_windows(a, n), all_windows(b, n));
}

} // verus!
