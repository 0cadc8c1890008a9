//! The two-level frequency table and the aggregation of windows into it.
use vstd::prelude::*;

use crate::MarkovError;

verus! {

/// The sum of `f` over the elements of `s`.
pub open spec fn sum_of<A>(s: Seq<A>, f: spec_fn(A) -> nat) -> nat
    decreases s.len(),
{
    if s.len() == 0 {
        0
    } else {
        sum_of(s.drop_last(), f) + f(s.last())
    }
}

proof fn lemma_sum_push<A>(s: Seq<A>, a: A, f: spec_fn(A) -> nat)
    ensures
        sum_of(s.push(a), f) == sum_of(s, f) + f(a),
{
    assert(s.push(a).drop_last() =~= s);
}

proof fn lemma_sum_update<A>(s: Seq<A>, i: int, a: A, f: spec_fn(A) -> nat)
    requires
        0 <= i < s.len(),
    ensures
        sum_of(s.update(i, a), f) + f(s[i]) == sum_of(s, f) + f(a),
    decreases s.len(),
{
    if i == s.len() - 1 {
        assert(s.update(i, a).drop_last() =~= s.drop_last());
    } else {
        lemma_sum_update(s.drop_last(), i, a, f);
        assert(s.update(i, a).drop_last() =~= s.drop_last().update(i, a));
    }
}

proof fn lemma_sum_single<A>(s: Seq<A>, i: int, f: spec_fn(A) -> nat)
    requires
        0 <= i < s.len(),
        forall|j: int| 0 <= j < s.len() && j != i ==> f(#[trigger] s[j]) == 0,
    ensures
        sum_of(s, f) == f(s[i]),
    decreases s.len(),
{
    if i == s.len() - 1 {
        lemma_sum_zero(s.drop_last(), f);
    } else {
        lemma_sum_single(s.drop_last(), i, f);
    }
}

proof fn lemma_sum_zero<A>(s: Seq<A>, f: spec_fn(A) -> nat)
    requires
        forall|j: int| 0 <= j < s.len() ==> f(#[trigger] s[j]) == 0,
    ensures
        sum_of(s, f) == 0,
    decreases s.len(),
{
    if s.len() > 0 {
        lemma_sum_zero(s.drop_last(), f);
    }
}

/// The count that one follower pair contributes to `symbol`.
pub open spec fn symbol_term(symbol: char) -> spec_fn((char, u64)) -> nat {
    |x: (char, u64)| if x.0 == symbol { x.1 as nat } else { 0 }
}

/// The count that one follower pair contributes to its prefix's total.
pub open spec fn any_symbol_term() -> spec_fn((char, u64)) -> nat {
    |x: (char, u64)| x.1 as nat
}

/// All symbols observed after one prefix, with their counts.
pub struct PrefixEntry {
    prefix: Vec<char>,
    followers: Vec<(char, u64)>,
}

/// How often each symbol was observed after each prefix.
///
/// Prefixes are unique, the symbols under a prefix are unique, and every
/// stored count is at least one: entries appear on first observation.
pub struct FrequencyTable {
    entries: Vec<PrefixEntry>,
    observed: u64,
}

spec fn count_term(prefix: Seq<char>, symbol: char) -> spec_fn(PrefixEntry) -> nat {
    |e: PrefixEntry| if e.prefix@ == prefix { sum_of(e.followers@, symbol_term(symbol)) } else { 0 }
}

spec fn total_term(prefix: Seq<char>) -> spec_fn(PrefixEntry) -> nat {
    |e: PrefixEntry| if e.prefix@ == prefix { sum_of(e.followers@, any_symbol_term()) } else { 0 }
}

/// Whether `window` splits into `prefix` followed by the single trailing
/// symbol `symbol`.
pub open spec fn splits_into(window: Seq<char>, prefix: Seq<char>, symbol: char) -> bool {
    window.len() >= 1 && window.drop_last() == prefix && window.last() == symbol
}

/// How many windows of `ws` are `prefix` followed by `symbol`.
pub open spec fn transitions(ws: Seq<Seq<char>>, prefix: Seq<char>, symbol: char) -> nat
    decreases ws.len(),
{
    if ws.len() == 0 {
        0
    } else {
        transitions(ws.drop_last(), prefix, symbol) + if splits_into(ws.last(), prefix, symbol) {
            1nat
        } else {
            0nat
        }
    }
}

/// How many windows of `ws` have `prefix` as their prefix.
pub open spec fn prefix_windows(ws: Seq<Seq<char>>, prefix: Seq<char>) -> nat
    decreases ws.len(),
{
    if ws.len() == 0 {
        0
    } else {
        prefix_windows(ws.drop_last(), prefix) + if ws.last().len() >= 1 && ws.last().drop_last()
            == prefix {
            1nat
        } else {
            0nat
        }
    }
}

impl FrequencyTable {
    /// How often `symbol` was observed after `prefix`.
    pub closed spec fn count(&self, prefix: Seq<char>, symbol: char) -> nat {
        sum_of(self.entries@, count_term(prefix, symbol))
    }

    /// The sum of the counts of all symbols observed after `prefix`.
    pub closed spec fn prefix_total(&self, prefix: Seq<char>) -> nat {
        sum_of(self.entries@, total_term(prefix))
    }

    /// How many transitions were recorded in all.
    pub closed spec fn observed(&self) -> nat {
        self.observed as nat
    }

    /// Prefixes are unique, and every follower list is well formed with
    /// counts bounded by the number of recorded transitions.
    pub closed spec fn wf(&self) -> bool {
        &&& forall|i: int, j: int|
            0 <= i < j < self.entries@.len() ==> (#[trigger] self.entries@[i]).prefix@
                != (#[trigger] self.entries@[j]).prefix@
        &&& forall|i: int| 0 <= i < self.entries@.len() ==> Self::followers_wf(
            #[trigger] self.entries@[i].followers@,
            self.observed,
        )
    }

    /// At least one follower, unique symbols, counts from one to `observed`.
    spec fn followers_wf(fs: Seq<(char, u64)>, observed: u64) -> bool {
        &&& fs.len() >= 1
        &&& forall|j: int, k: int| 0 <= j < k < fs.len() ==> (#[trigger] fs[j]).0 != (
        #[trigger] fs[k]).0
        &&& forall|j: int| 0 <= j < fs.len() ==> 1 <= (#[trigger] fs[j]).1 <= observed
    }

    /// An empty table.
    pub fn new() -> (r: Self)
        ensures
            r.wf(),
            r.observed() == 0,
            forall|p: Seq<char>, c: char| #[trigger] r.count(p, c) == 0,
            forall|p: Seq<char>| #[trigger] r.prefix_total(p) == 0,
    {
        FrequencyTable { entries: Vec::new(), observed: 0 }
    }

    /// The index of the entry whose prefix is `window` without its last
    /// symbol.
    fn find_entry(&self, window: &Vec<char>) -> (r: Option<usize>)
        requires
            window@.len() >= 1,
        ensures
            r matches Some(i) ==> i < self.entries@.len() && self.entries@[i as int].prefix@
                == window@.drop_last(),
            r is None ==> forall|i: int|
                0 <= i < self.entries@.len() ==> (#[trigger] self.entries@[i]).prefix@
                    != window@.drop_last(),
    {
        let mut i: usize = 0;
        while i < self.entries.len()
            invariant
                i <= self.entries@.len(),
                window@.len() >= 1,
                forall|k: int| 0 <= k < i ==> (#[trigger] self.entries@[k]).prefix@
                    != window@.drop_last(),
            decreases self.entries@.len() - i,
        {
            if is_prefix_of(&self.entries[i].prefix, window) {
                return Some(i);
            }
            i = i + 1;
        }
        None
    }

    /// Records one window: its last symbol was observed after the rest.
    pub fn record_window(&mut self, window: &Vec<char>) -> (r: Result<(), MarkovError>)
        requires
            old(self).wf(),
            old(self).observed() < u64::MAX,
        ensures
            final(self).wf(),
            window@.len() == 0 <==> r is Err,
            r is Err ==> r == Err::<(), MarkovError>(MarkovError::InvalidWindow) && *final(self)
                == *old(self),
            r is Ok ==> {
                &&& final(self).observed() == old(self).observed() + 1
                &&& forall|p: Seq<char>, c: char| #[trigger]
                    final(self).count(p, c) == old(self).count(p, c) + if splits_into(
                        window@,
                        p,
                        c,
                    ) {
                        1nat
                    } else {
                        0nat
                    }
                &&& forall|p: Seq<char>| #[trigger]
                    final(self).prefix_total(p) == old(self).prefix_total(p) + if window@.drop_last()
                        == p {
                        1nat
                    } else {
                        0nat
                    }
            },
    {
        let len = window.len();
        if len == 0 {
            return Err(MarkovError::InvalidWindow);
        }
        let c = window[len - 1];
        let ghost key = window@.drop_last();
        let ghost old_entries = self.entries@;
        match self.find_entry(window) {
            Some(i) => {
                let ghost old_e = self.entries@[i as int];
                match find_symbol(&self.entries[i].followers, c) {
                    Some(j) => {
                        let k = self.entries[i].followers[j].1;
                        self.entries[i].followers.set(j, (c, k + 1));
                        proof {
                            let new_e = self.entries@[i as int];
                            assert(self.entries@ == old_entries.update(i as int, new_e));
                            assert forall|p: Seq<char>, s: char| #[trigger]
                                sum_of(self.entries@, count_term(p, s)) == sum_of(old_entries, count_term(p, s)) + if splits_into(
                                    window@,
                                    p,
                                    s,
                                ) {
                                    1nat
                                } else {
                                    0nat
                                } by {
                                lemma_sum_update(old_entries, i as int, new_e, count_term(p, s));
                                lemma_sum_update(
                                    old_e.followers@,
                                    j as int,
                                    (c, (k + 1) as u64),
                                    symbol_term(s),
                                );
                            }
                            assert forall|p: Seq<char>| #[trigger]
                                sum_of(self.entries@, total_term(p)) == sum_of(old_entries, total_term(p)) + if key
                                    == p {
                                    1nat
                                } else {
                                    0nat
                                } by {
                                lemma_sum_update(old_entries, i as int, new_e, total_term(p));
                                lemma_sum_update(
                                    old_e.followers@,
                                    j as int,
                                    (c, (k + 1) as u64),
                                    any_symbol_term(),
                                );
                            }
                        }
                    },
                    None => {
                        self.entries[i].followers.push((c, 1));
                        proof {
                            let new_e = self.entries@[i as int];
                            assert(self.entries@ == old_entries.update(i as int, new_e));
                            assert forall|p: Seq<char>, s: char| #[trigger]
                                sum_of(self.entries@, count_term(p, s)) == sum_of(old_entries, count_term(p, s)) + if splits_into(
                                    window@,
                                    p,
                                    s,
                                ) {
                                    1nat
                                } else {
                                    0nat
                                } by {
                                lemma_sum_update(old_entries, i as int, new_e, count_term(p, s));
                                lemma_sum_push(old_e.followers@, (c, 1u64), symbol_term(s));
                            }
                            assert forall|p: Seq<char>| #[trigger]
                                sum_of(self.entries@, total_term(p)) == sum_of(old_entries, total_term(p)) + if key
                                    == p {
                                    1nat
                                } else {
                                    0nat
                                } by {
                                lemma_sum_update(old_entries, i as int, new_e, total_term(p));
                                lemma_sum_push(old_e.followers@, (c, 1u64), any_symbol_term());
                            }
                        }
                    },
                }
            },
            None => {
                let prefix = copy_prefix(window);
                let mut followers: Vec<(char, u64)> = Vec::new();
                followers.push((c, 1));
                let e = PrefixEntry { prefix, followers };
                self.entries.push(e);
                proof {
                    assert(self.entries@ == old_entries.push(e));
                    assert(e.followers@ == Seq::<(char, u64)>::empty().push((c, 1u64)));
                    assert forall|p: Seq<char>, s: char| #[trigger]
                        sum_of(self.entries@, count_term(p, s)) == sum_of(old_entries, count_term(p, s)) + if splits_into(
                            window@,
                            p,
                            s,
                        ) {
                            1nat
                        } else {
                            0nat
                        } by {
                        lemma_sum_push(old_entries, e, count_term(p, s));
                        lemma_sum_push(Seq::<(char, u64)>::empty(), (c, 1u64), symbol_term(s));
                    }
                    assert forall|p: Seq<char>| #[trigger]
                        sum_of(self.entries@, total_term(p)) == sum_of(old_entries, total_term(p)) + if key == p {
                            1nat
                        } else {
                            0nat
                        } by {
                        lemma_sum_push(old_entries, e, total_term(p));
                        lemma_sum_push(Seq::<(char, u64)>::empty(), (c, 1u64), any_symbol_term());
                    }
                }
            },
        }
        self.observed = self.observed + 1;
        Ok(())
    }
}

impl FrequencyTable {
    proof fn lemma_entry_count(&self, i: int, j: int)
        requires
            self.wf(),
            0 <= i < self.entries@.len(),
            0 <= j < self.entries@[i].followers@.len(),
        ensures
            self.count(self.entries@[i].prefix@, self.entries@[i].followers@[j].0)
                == self.entries@[i].followers@[j].1,
            self.prefix_total(self.entries@[i].prefix@) == sum_of(
                self.entries@[i].followers@,
                any_symbol_term(),
            ),
    {
        let es = self.entries@;
        let p = es[i].prefix@;
        let fs = es[i].followers@;
        let c = fs[j].0;
        assert forall|k: int| 0 <= k < es.len() && k != i implies count_term(p, c)(
            #[trigger] es[k],
        ) == 0 by {
            if k < i {
                assert(es[k].prefix@ != es[i].prefix@);
            } else {
                assert(es[i].prefix@ != es[k].prefix@);
            }
        }
        assert forall|k: int| 0 <= k < es.len() && k != i implies total_term(p)(#[trigger] es[k])
            == 0 by {
            if k < i {
                assert(es[k].prefix@ != es[i].prefix@);
            } else {
                assert(es[i].prefix@ != es[k].prefix@);
            }
        }
        lemma_sum_single(es, i, count_term(p, c));
        lemma_sum_single(es, i, total_term(p));
        assert(Self::followers_wf(fs, self.observed));
        assert forall|k: int| 0 <= k < fs.len() && k != j implies symbol_term(c)(#[trigger] fs[k])
            == 0 by {
            if k < j {
                assert(fs[k].0 != fs[j].0);
            } else {
                assert(fs[j].0 != fs[k].0);
            }
        }
        lemma_sum_single(fs, j, symbol_term(c));
    }

    proof fn lemma_count_absent(&self, p: Seq<char>, c: char)
        requires
            self.wf(),
            forall|i: int, j: int|
                0 <= i < self.entries@.len() && 0 <= j < self.entries@[i].followers@.len()
                    ==> !(self.entries@[i].prefix@ == p && (#[trigger] self.entries@[i].followers@[j]).0
                    == c),
        ensures
            self.count(p, c) == 0,
    {
        let es = self.entries@;
        assert forall|k: int| 0 <= k < es.len() implies count_term(p, c)(#[trigger] es[k]) == 0 by {
            if es[k].prefix@ == p {
                let fs = es[k].followers@;
                assert forall|j: int| 0 <= j < fs.len() implies symbol_term(c)(#[trigger] fs[j])
                    == 0 by {
                    assert(self.entries@[k].followers@[j] == fs[j]);
                }
                lemma_sum_zero(fs, symbol_term(c));
            }
        }
        lemma_sum_zero(es, count_term(p, c));
    }

    /// How often `symbol` was observed after `prefix`; zero if never.
    pub fn count_of(&self, prefix: &Vec<char>, symbol: char) -> (r: u64)
        requires
            self.wf(),
        ensures
            r == self.count(prefix@, symbol),
    {
        let mut i: usize = 0;
        while i < self.entries.len()
            invariant
                self.wf(),
                i <= self.entries@.len(),
                forall|k: int| 0 <= k < i ==> (#[trigger] self.entries@[k]).prefix@ != prefix@,
            decreases self.entries@.len() - i,
        {
            if same_symbols(&self.entries[i].prefix, prefix) {
                match find_symbol(&self.entries[i].followers, symbol) {
                    Some(j) => {
                        proof {
                            self.lemma_entry_count(i as int, j as int);
                        }
                        return self.entries[i].followers[j].1;
                    },
                    None => {
                        proof {
                            assert forall|a: int, b: int|
                                0 <= a < self.entries@.len() && 0 <= b
                                    < self.entries@[a].followers@.len() implies !(
                            self.entries@[a].prefix@ == prefix@ && (#[trigger] self.entries@[a].followers@[b]).0
                                == symbol) by {
                                if a < i {
                                } else if a > i {
                                    assert(self.entries@[i as int].prefix@ != self.entries@[a].prefix@);
                                }
                            }
                            self.lemma_count_absent(prefix@, symbol);
                        }
                        return 0;
                    },
                }
            }
            i = i + 1;
        }
        proof {
            self.lemma_count_absent(prefix@, symbol);
        }
        0
    }

    /// The table as rows: each observed prefix with every symbol observed
    /// after it and its count.
    pub fn rows(&self) -> (r: Vec<(Vec<char>, Vec<(char, u64)>)>)
        requires
            self.wf(),
        ensures
            forall|i: int, k: int|
                0 <= i < k < r@.len() ==> (#[trigger] r@[i]).0@ != (#[trigger] r@[k]).0@,
            forall|i: int, j: int, k: int|
                0 <= i < r@.len() && 0 <= j < k < r@[i].1@.len() ==> (#[trigger] r@[i].1@[j]).0
                    != (#[trigger] r@[i].1@[k]).0,
            forall|i: int, j: int|
                0 <= i < r@.len() && 0 <= j < r@[i].1@.len() ==> {
                    &&& (#[trigger] r@[i].1@[j]).1 >= 1
                    &&& self.count(r@[i].0@, r@[i].1@[j].0) == r@[i].1@[j].1
                },
            forall|i: int|
                0 <= i < r@.len() ==> r@[i].1@.len() >= 1 && self.prefix_total(
                    (#[trigger] r@[i]).0@,
                ) == sum_of(r@[i].1@, any_symbol_term()),
            forall|p: Seq<char>, c: char|
                #[trigger] self.count(p, c) > 0 ==> exists|i: int, j: int|
                    0 <= i < r@.len() && 0 <= j < r@[i].1@.len() && r@[i].0@ == p && (
                    #[trigger] r@[i].1@[j]).0 == c,
    {
        let mut out: Vec<(Vec<char>, Vec<(char, u64)>)> = Vec::new();
        let mut i: usize = 0;
        while i < self.entries.len()
            invariant
                self.wf(),
                i <= self.entries@.len(),
                out@.len() == i,
                forall|k: int|
                    0 <= k < i ==> (#[trigger] out@[k]).0@ == self.entries@[k].prefix@
                        && out@[k].1@ == self.entries@[k].followers@,
            decreases self.entries@.len() - i,
        {
            let prefix = copy_front(&self.entries[i].prefix, self.entries[i].prefix.len());
            let followers = copy_followers(&self.entries[i].followers);
            proof {
                assert(prefix@ =~= self.entries@[i as int].prefix@);
            }
            out.push((prefix, followers));
            i = i + 1;
        }
        proof {
            assert forall|a: int, j: int|
                0 <= a < out@.len() && 0 <= j < out@[a].1@.len() implies {
                &&& (#[trigger] out@[a].1@[j]).1 >= 1
                &&& self.count(out@[a].0@, out@[a].1@[j].0) == out@[a].1@[j].1
            } by {
                assert(Self::followers_wf(self.entries@[a].followers@, self.observed));
                self.lemma_entry_count(a, j);
            }
            assert forall|a: int| 0 <= a < out@.len() implies out@[a].1@.len() >= 1
                && self.prefix_total((#[trigger] out@[a]).0@) == sum_of(
                out@[a].1@,
                any_symbol_term(),
            ) by {
                assert(Self::followers_wf(self.entries@[a].followers@, self.observed));
                self.lemma_entry_count(a, 0);
            }
            assert forall|a: int, j: int, k: int|
                0 <= a < out@.len() && 0 <= j < k < out@[a].1@.len() implies (
            #[trigger] out@[a].1@[j]).0 != (#[trigger] out@[a].1@[k]).0 by {
                assert(Self::followers_wf(self.entries@[a].followers@, self.observed));
            }
            assert forall|p: Seq<char>, c: char| #[trigger] self.count(p, c) > 0 implies exists|
                a: int,
                j: int,
            |
                0 <= a < out@.len() && 0 <= j < out@[a].1@.len() && out@[a].0@ == p && (
                #[trigger] out@[a].1@[j]).0 == c by {
                if !exists|a: int, j: int|
                    0 <= a < out@.len() && 0 <= j < out@[a].1@.len() && out@[a].0@ == p && (
                    #[trigger] out@[a].1@[j]).0 == c {
                    assert forall|a: int, j: int|
                        0 <= a < self.entries@.len() && 0 <= j
                            < self.entries@[a].followers@.len() implies !(
                    self.entries@[a].prefix@ == p && (#[trigger] self.entries@[a].followers@[j]).0
                        == c) by {
                        assert(out@[a].1@[j] == self.entries@[a].followers@[j]);
                    }
                    self.lemma_count_absent(p, c);
                }
            }
        }
        out
    }
}

/// Whether `a` and `b` hold the same symbols.
fn same_symbols(a: &Vec<char>, b: &Vec<char>) -> (r: bool)
    ensures
        r == (a@ == b@),
{
    if a.len() != b.len() {
        return false;
    }
    let mut i: usize = 0;
    while i < a.len()
        invariant
            a@.len() == b@.len(),
            i <= a@.len(),
            forall|k: int| 0 <= k < i ==> a@[k] == b@[k],
        decreases a@.len() - i,
    {
        if a[i] != b[i] {
            return false;
        }
        i = i + 1;
    }
    assert(a@ =~= b@);
    true
}

/// A copy of a follower list.
fn copy_followers(fs: &Vec<(char, u64)>) -> (r: Vec<(char, u64)>)
    ensures
        r@ == fs@,
{
    let mut out: Vec<(char, u64)> = Vec::new();
    let mut i: usize = 0;
    while i < fs.len()
        invariant
            i <= fs@.len(),
            out@ == fs@.subrange(0, i as int),
        decreases fs@.len() - i,
    {
        out.push(fs[i]);
        assert(out@ =~= fs@.subrange(0, i + 1));
        i = i + 1;
    }
    assert(out@ =~= fs@);
    out
}

/// Whether `key` is `window` without its last symbol.
fn is_prefix_of(key: &Vec<char>, window: &Vec<char>) -> (r: bool)
    requires
        window@.len() >= 1,
    ensures
        r == (key@ == window@.drop_last()),
{
    let n = window.len() - 1;
    if key.len() != n {
        return false;
    }
    let mut i: usize = 0;
    while i < n
        invariant
            n == window@.len() - 1,
            key@.len() == n,
            i <= n,
            forall|k: int| 0 <= k < i ==> key@[k] == window@[k],
        decreases n - i,
    {
        if key[i] != window[i] {
            assert(key@[i as int] != window@.drop_last()[i as int]);
            return false;
        }
        i = i + 1;
    }
    assert(key@ =~= window@.drop_last());
    true
}

/// The position of `symbol` among `followers`.
fn find_symbol(followers: &Vec<(char, u64)>, symbol: char) -> (r: Option<usize>)
    ensures
        r matches Some(j) ==> j < followers@.len() && followers@[j as int].0 == symbol,
        r is None ==> forall|j: int| 0 <= j < followers@.len() ==> (#[trigger] followers@[j]).0
            != symbol,
{
    let mut j: usize = 0;
    while j < followers.len()
        invariant
            j <= followers@.len(),
            forall|k: int| 0 <= k < j ==> (#[trigger] followers@[k]).0 != symbol,
        decreases followers@.len() - j,
    {
        if followers[j].0 == symbol {
            return Some(j);
        }
        j = j + 1;
    }
    None
}

/// A copy of `window` without its last symbol.
fn copy_prefix(window: &Vec<char>) -> (r: Vec<char>)
    requires
        window@.len() >= 1,
    ensures
        r@ == window@.drop_last(),
{
    let r = copy_front(window, window.len() - 1);
    assert(r@ =~= window@.drop_last());
    r
}

/// A copy of the first `n` symbols of `window`.
pub(crate) fn copy_front(window: &Vec<char>, n: usize) -> (r: Vec<char>)
    requires
        n <= window@.len(),
    ensures
        r@ == window@.subrange(0, n as int),
{
    let mut out: Vec<char> = Vec::new();
    let mut i: usize = 0;
    while i < n
        invariant
            n <= window@.len(),
            i <= n,
            out@ == window@.subrange(0, i as int),
        decreases n - i,
    {
        out.push(window[i]);
        assert(out@ =~= window@.subrange(0, i + 1));
        i = i + 1;
    }
    out
}

} // verus!
