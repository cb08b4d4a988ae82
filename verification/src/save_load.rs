//! Saving an undo history with as little repeated data as possible: interners that give each
//! distinct value (or each distinct address) an index, and compression of index sequences into
//! ranges.

use vstd::prelude::*;
use std::ops::Range;
use std::collections::HashMap;
use crate::order::{lemma_lex_antisym, lemma_lex_refl, lemma_lex_total_ordering, Order, TotalPreorder};
use crate::bellcore::bell::Bell;
use crate::bellcore::block::annot_view;
use crate::bellcore::row::{bell_le_fn, permuted, Row};
use crate::proj::spec::{frag_view, same_method, Frag, MethodSpec, Spec};
use crate::text::{char_le_fn, lemma_char_total_ordering};

verus! {

/* ========== RANGE COMPRESSION ========== */

/// The numbers covered by the ranges, in order.
pub open spec fn expand_ranges(ranges: Seq<Range<usize>>) -> Seq<usize>
    decreases ranges.len(),
{
    if ranges.len() == 0 {
        seq![]
    } else {
        let last = ranges.last();
        expand_ranges(ranges.drop_last()) + Seq::new((last.end - last.start) as nat, |k: int| (last.start + k) as usize)
    }
}

/// The ranges are non-empty, and no range carries on where the one before stopped.
pub open spec fn maximal_runs(ranges: Seq<Range<usize>>) -> bool {
    &&& forall|k: int| 0 <= k < ranges.len() ==> (#[trigger] ranges[k]).start < ranges[k].end
    &&& forall|k: int| 0 < k < ranges.len() ==> (#[trigger] ranges[k]).start != ranges[k - 1].end
}

/// Compresses a sequence of numbers into ranges of consecutive numbers: `[1, 2, 3, 4, 10, 11, 12]`
/// becomes `[1..5, 10..13]`.  The ranges cover the numbers in order, and each is a maximal run of
/// numbers that go up one at a time.  No number may be the last `usize`.
pub fn range_compress(indices: Vec<usize>) -> (ranges: Vec<Range<usize>>)
    requires
        forall|i: int| 0 <= i < indices@.len() ==> #[trigger] indices@[i] < usize::MAX,
    ensures
        expand_ranges(ranges@) == indices@,
        maximal_runs(ranges@),
{
    let mut ranges: Vec<Range<usize>> = Vec::new();
    if indices.len() == 0 {
        proof {
            assert(expand_ranges(ranges@) =~= indices@);
        }
        return ranges;
    }
    let n = indices.len();
    // The start of the current range, and the number it starts with
    let mut start_index: usize = 0;
    let mut start_row: usize = indices[0];
    let mut i: usize = 1;
    while i < n
        invariant
            n == indices@.len(),
            forall|j: int| 0 <= j < n ==> #[trigger] indices@[j] < usize::MAX,
            0 <= start_index < i <= n,
            start_row == indices@[start_index as int],
            forall|j: int| start_index <= j < i ==> #[trigger] indices@[j] == start_row + (j - start_index),
            expand_ranges(ranges@) == indices@.take(start_index as int),
            maximal_runs(ranges@),
            ranges@.len() > 0 ==> ranges@.last().end == indices@[start_index - 1] + 1,
            ranges@.len() > 0 ==> start_row != ranges@.last().end,
        decreases n - i,
    {
        let r = indices[i];
        let rows_since_last_start = i - start_index;
        proof {
            assert(indices@[i - 1] == start_row + (i - 1 - start_index));
        }
        // Where the numbers stop going up one at a time, the last range is complete
        if r != start_row + rows_since_last_start {
            let ghost before = ranges@;
            ranges.push(start_row..start_row + rows_since_last_start);
            proof {
                let run = Seq::new(rows_since_last_start as nat, |k: int| (start_row + k) as usize);
                assert(expand_ranges(ranges@) == expand_ranges(before) + run) by {
                    assert(ranges@.drop_last() =~= before);
                }
                assert(indices@.take(i as int) =~= indices@.take(start_index as int) + run);
                assert(r != ranges@.last().end);
            }
            start_index = i;
            start_row = r;
        }
        i += 1;
    }
    // The last range is complete too
    let ghost before = ranges@;
    proof {
        assert(indices@[n - 1] == start_row + (n - 1 - start_index));
    }
    ranges.push(start_row..start_row + (n - start_index));
    proof {
        let run = Seq::new((n - start_index) as nat, |k: int| (start_row + k) as usize);
        assert(expand_ranges(ranges@) == expand_ranges(before) + run) by {
            assert(ranges@.drop_last() =~= before);
        }
        assert(indices@.take(n as int) =~= indices@);
        assert(indices@ =~= indices@.take(start_index as int) + run);
    }
    ranges
}

/* ========== INTERNING BY VALUE ========== */

/// An interner which gives each distinct value (values that compare equal are the same) an index:
/// the order in which the values were first seen.
#[derive(Debug, Clone)]
pub struct Dedup<T> {
    items: Vec<T>,
}

/// The index of the first of `items` that compares equal to `v`, if any.
pub open spec fn first_equal<T: TotalPreorder>(items: Seq<T>, v: T) -> Option<int>
    decreases items.len(),
{
    if items.len() == 0 {
        None
    } else {
        match first_equal(items.drop_last(), v) {
            Some(i) => Some(i),
            None => if items.last().le(v) && v.le(items.last()) {
                Some(items.len() - 1)
            } else {
                None
            },
        }
    }
}

proof fn lemma_first_equal_bound<T: TotalPreorder>(items: Seq<T>, v: T)
    ensures
        first_equal(items, v) matches Some(i) ==> 0 <= i < items.len(),
    decreases items.len(),
{
    if items.len() > 0 {
        lemma_first_equal_bound(items.drop_last(), v);
    }
}

/// No two of the values compare equal.
pub open spec fn no_equal_pair<T: TotalPreorder>(items: Seq<T>) -> bool {
    forall|x: int, y: int| 0 <= x < items.len() && 0 <= y < items.len() && x != y
        ==> !(#[trigger] items[x].le(items[y]) && #[trigger] items[y].le(items[x]))
}

/// When no value compares equal to `v`, none of them does.
proof fn lemma_first_equal_none<T: TotalPreorder>(items: Seq<T>, v: T)
    requires
        first_equal(items, v) is None,
    ensures
        forall|k: int| 0 <= k < items.len() ==> !(#[trigger] items[k].le(v) && v.le(items[k])),
    decreases items.len(),
{
    if items.len() > 0 {
        lemma_first_equal_none(items.drop_last(), v);
        assert forall|k: int| 0 <= k < items.len() implies !(#[trigger] items[k].le(v) && v.le(items[k])) by {
            if k < items.len() - 1 {
                assert(items.drop_last()[k] == items[k]);
            }
        }
    }
}

impl<T: TotalPreorder> Dedup<T> {
    /// The values interned so far, each at its index.
    pub closed spec fn items_view(&self) -> Seq<T> {
        self.items@
    }

    /// An interner holding no values.
    pub fn new() -> (d: Dedup<T>)
        ensures
            d.items_view() == Seq::<T>::empty(),
    {
        Dedup { items: Vec::new() }
    }

    /// The index of `v`: that of the value equal to it that was interned first, or (storing `v`)
    /// the next index if there is none.
    pub fn intern(&mut self, v: T) -> (i: usize)
        ensures
            match first_equal(old(self).items_view(), v) {
                Some(j) => i == j && final(self).items_view() == old(self).items_view(),
                None => i == old(self).items_view().len() && final(self).items_view() == old(self).items_view().push(v),
            },
            i < final(self).items_view().len(),
            final(self).items_view()[i as int].le(v) && v.le(final(self).items_view()[i as int]),
            no_equal_pair(old(self).items_view()) ==> no_equal_pair(final(self).items_view()),
    {
        proof {
            lemma_first_equal_bound(self.items@, v);
            lemma_first_equal_spec(self.items@, v);
            T::lemma_total_preorder(v, v, v);
            if first_equal(self.items@, v) is None {
                lemma_first_equal_none(self.items@, v);
                let pushed = self.items@.push(v);
                if no_equal_pair(self.items@) {
                    assert forall|x: int, y: int| 0 <= x < pushed.len() && 0 <= y < pushed.len() && x != y
                        implies !(#[trigger] pushed[x].le(pushed[y]) && #[trigger] pushed[y].le(pushed[x])) by {
                        if x < self.items@.len() && y < self.items@.len() {
                            assert(pushed[x] == self.items@[x] && pushed[y] == self.items@[y]);
                        } else if x < self.items@.len() {
                            assert(pushed[x] == self.items@[x]);
                        } else {
                            assert(pushed[y] == self.items@[y]);
                        }
                    }
                }
            }
        }
        let mut k: usize = 0;
        while k < self.items.len()
            invariant
                k <= self.items@.len(),
                first_equal(self.items@.take(k as int), v) is None,
            decreases self.items@.len() - k,
        {
            proof {
                assert(self.items@.take(k + 1).drop_last() =~= self.items@.take(k as int));
                assert(self.items@.take(k + 1).last() == self.items@[k as int]);
            }
            if self.items[k].compare(&v) == Order::Equal {
                proof {
                    lemma_first_equal_prefix(self.items@, (k + 1) as nat, v);
                }
                return k;
            }
            k += 1;
        }
        proof {
            assert(self.items@.take(k as int) =~= self.items@);
        }
        let i = self.items.len();
        self.items.push(v);
        i
    }

    /// The indices of each of `vs`, interning them in order.
    pub fn intern_iter(&mut self, vs: Vec<T>) -> (ids: Vec<usize>)
        ensures
            ids@.len() == vs@.len(),
            final(self).items_view().len() >= old(self).items_view().len(),
            forall|k: int| 0 <= k < ids@.len() ==> (#[trigger] ids@[k]) < final(self).items_view().len()
                && final(self).items_view()[ids@[k] as int].le(vs@[k]) && vs@[k].le(final(self).items_view()[ids@[k] as int]),
            forall|j: int| 0 <= j < old(self).items_view().len() ==> #[trigger] final(self).items_view()[j] == old(self).items_view()[j],
            no_equal_pair(old(self).items_view()) ==> no_equal_pair(final(self).items_view()),
    {
        let ghost distinct0 = no_equal_pair(self.items_view());
        let mut ids: Vec<usize> = Vec::new();
        let ghost items0 = self.items_view();
        let ghost vs0 = vs@;
        for v in it: vs
            invariant
                it.seq() == vs0,
                ids@.len() == it.index(),
                self.items_view().len() >= items0.len(),
                forall|j: int| 0 <= j < items0.len() ==> #[trigger] self.items_view()[j] == items0[j],
                forall|j: int| 0 <= j < ids@.len() ==> (#[trigger] ids@[j]) < self.items_view().len()
                    && self.items_view()[ids@[j] as int].le(vs0[j]) && vs0[j].le(self.items_view()[ids@[j] as int]),
                distinct0 ==> no_equal_pair(self.items_view()),
        {
            let ghost before = self.items_view();
            let ghost k = ids@.len();
            proof {
                assert(v == vs0[k as int]);
            }
            let id = self.intern(v);
            proof {
                lemma_first_equal_bound(before, v);
                lemma_first_equal_spec(before, v);
                if first_equal(before, v) is None {
                    T::lemma_total_preorder(v, v, v);
                }
            }
            ids.push(id);
        }
        ids
    }

    /// The interned values, each at its index.
    pub fn into_vec(self) -> (v: Vec<T>)
        ensures
            v@ == self.items_view(),
    {
        self.items
    }
}

/// An equal value found among the first `k` is the first equal value of all of them.
proof fn lemma_first_equal_prefix<T: TotalPreorder>(items: Seq<T>, k: nat, v: T)
    requires
        k <= items.len(),
        first_equal(items.take(k as int), v) is Some,
    ensures
        first_equal(items, v) == first_equal(items.take(k as int), v),
    decreases items.len() - k,
{
    if k < items.len() {
        assert(items.take((k + 1) as int).drop_last() =~= items.take(k as int));
        lemma_first_equal_prefix(items, k + 1, v);
    } else {
        assert(items.take(k as int) =~= items);
    }
}

/// What the first equal value is.
proof fn lemma_first_equal_spec<T: TotalPreorder>(items: Seq<T>, v: T)
    ensures
        first_equal(items, v) matches Some(i) ==> items[i].le(v) && v.le(items[i]),
    decreases items.len(),
{
    if items.len() > 0 {
        lemma_first_equal_spec(items.drop_last(), v);
        if let Some(i) = first_equal(items.drop_last(), v) {
            lemma_first_equal_bound(items.drop_last(), v);
            assert(items.drop_last()[i] == items[i]);
        }
    }
}

/* ========== INTERNING BY ADDRESS ========== */

/// An interner which gives each distinct address an index (the order in which the addresses were
/// first seen), storing a value made for it the first time it is seen.
#[derive(Debug, Clone)]
pub struct AddrDedup<T> {
    /// The addresses with their values, in the order of their indices.
    items: Vec<(usize, T)>,
    /// The index of each address seen so far.
    index: HashMap<usize, usize>,
}

/// No address has two entries.
pub open spec fn addrs_distinct<T>(items: Seq<(usize, T)>) -> bool {
    forall|x: int, y: int| 0 <= x < items.len() && 0 <= y < items.len() && x != y
        ==> #[trigger] items[x].0 != #[trigger] items[y].0
}

/// When an address has no entry, no entry has it.
proof fn lemma_index_of_addr_none<T>(items: Seq<(usize, T)>, addr: usize)
    requires
        index_of_addr(items, addr) is None,
    ensures
        forall|k: int| 0 <= k < items.len() ==> #[trigger] items[k].0 != addr,
    decreases items.len(),
{
    if items.len() > 0 {
        lemma_index_of_addr_none(items.drop_last(), addr);
        assert forall|k: int| 0 <= k < items.len() implies #[trigger] items[k].0 != addr by {
            if k < items.len() - 1 {
                assert(items.drop_last()[k] == items[k]);
            }
        }
    }
}

/// The index of the entry for address `addr`, if any.
pub open spec fn index_of_addr<T>(items: Seq<(usize, T)>, addr: usize) -> Option<int>
    decreases items.len(),
{
    if items.len() == 0 {
        None
    } else {
        match index_of_addr(items.drop_last(), addr) {
            Some(i) => Some(i),
            None => if items.last().0 == addr {
                Some(items.len() - 1)
            } else {
                None
            },
        }
    }
}

/// The index map gives each address of `items` its position, and nothing else.
pub open spec fn index_matches<T>(items: Seq<(usize, T)>, index: Map<usize, usize>) -> bool {
    &&& forall|k: int| 0 <= k < items.len() ==> index.contains_key((#[trigger] items[k]).0) && index[items[k].0] == k
    &&& forall|a: usize| #[trigger] index.contains_key(a) ==> index[a] < items.len() && items[index[a] as int].0 == a
}

/// With distinct addresses, the entry for an address is the one position that holds it.
proof fn lemma_index_of_addr_at<T>(items: Seq<(usize, T)>, addr: usize, k: int)
    requires
        addrs_distinct(items),
        0 <= k < items.len(),
        items[k].0 == addr,
    ensures
        index_of_addr(items, addr) == Some(k),
    decreases items.len(),
{
    if k < items.len() - 1 {
        let d = items.drop_last();
        assert(d[k] == items[k]);
        assert(addrs_distinct(d)) by {
            assert forall|x: int, y: int| 0 <= x < d.len() && 0 <= y < d.len() && x != y implies #[trigger] d[x].0 != #[trigger] d[y].0 by {
                assert(d[x] == items[x] && d[y] == items[y]);
            }
        }
        lemma_index_of_addr_at(d, addr, k);
    } else {
        lemma_index_of_addr_none_at(items.drop_last(), addr, items);
    }
}

proof fn lemma_index_of_addr_none_at<T>(d: Seq<(usize, T)>, addr: usize, items: Seq<(usize, T)>)
    requires
        addrs_distinct(items),
        items.len() >= 1,
        d == items.drop_last(),
        items.last().0 == addr,
    ensures
        index_of_addr(d, addr) is None,
{
    if index_of_addr(d, addr) is Some {
        lemma_index_of_addr_bound(d, addr);
        lemma_index_of_addr_spec(d, addr);
        let i = index_of_addr(d, addr)->0;
        assert(items[i].0 == addr);
        assert(items[items.len() - 1].0 == addr);
    }
}

proof fn lemma_index_of_addr_absent<T>(items: Seq<(usize, T)>, addr: usize)
    requires
        forall|k: int| 0 <= k < items.len() ==> #[trigger] items[k].0 != addr,
    ensures
        index_of_addr(items, addr) is None,
    decreases items.len(),
{
    if items.len() > 0 {
        let d = items.drop_last();
        assert forall|k: int| 0 <= k < d.len() implies #[trigger] d[k].0 != addr by {
            assert(d[k] == items[k]);
        }
        lemma_index_of_addr_absent(d, addr);
        assert(items[items.len() - 1].0 != addr);
    }
}

impl<T> AddrDedup<T> {
    /// The addresses interned so far with their values, each at its index.
    pub closed spec fn items_view(&self) -> Seq<(usize, T)> {
        self.items@
    }

    /// The index map agrees with the interned addresses (so no address is interned twice).
    pub closed spec fn wf(&self) -> bool {
        index_matches(self.items@, self.index@)
    }

    /// A well-formed interner has no address twice.
    pub proof fn lemma_wf_distinct(&self)
        requires
            self.wf(),
        ensures
            addrs_distinct(self.items_view()),
    {
        assert forall|x: int, y: int| 0 <= x < self.items@.len() && 0 <= y < self.items@.len() && x != y
            implies #[trigger] self.items@[x].0 != #[trigger] self.items@[y].0 by {
            assert(self.index@[self.items@[x].0] == x);
            assert(self.index@[self.items@[y].0] == y);
        }
    }

    /// An interner holding nothing.
    pub fn new() -> (d: AddrDedup<T>)
        ensures
            d.items_view() == Seq::<(usize, T)>::empty(),
            d.wf(),
    {
        let d = AddrDedup { items: Vec::new(), index: HashMap::new() };
        proof {
            assert(d.index@ == Map::<usize, usize>::empty());
        }
        d
    }

    /// Whether the address has been interned, and if so at which index.
    pub fn lookup(&self, addr: usize) -> (i: Option<usize>)
        requires
            self.wf(),
        ensures
            match index_of_addr(self.items_view(), addr) {
                Some(j) => i matches Some(k) && k == j,
                None => i is None,
            },
            i matches Some(k) ==> k < self.items_view().len() && self.items_view()[k as int].0 == addr,
    {
        broadcast use vstd::std_specs::hash::group_hash_axioms;
        proof {
            self.lemma_wf_distinct();
        }
        match self.index.get(&addr) {
            Some(k) => {
                proof {
                    lemma_index_of_addr_at(self.items@, addr, *k as int);
                }
                Some(*k)
            },
            None => {
                proof {
                    assert forall|k: int| 0 <= k < self.items@.len() implies #[trigger] self.items@[k].0 != addr by {
                        assert(self.index@.contains_key(self.items@[k].0));
                    }
                    lemma_index_of_addr_absent(self.items@, addr);
                }
                None
            },
        }
    }

    /// The index of the address `addr`: the index it was given when first interned, or (storing
    /// `v` for it) the next index if it is new.
    pub fn intern(&mut self, addr: usize, v: T) -> (i: usize)
        requires
            old(self).wf(),
        ensures
            final(self).wf(),
            match index_of_addr(old(self).items_view(), addr) {
                Some(j) => i == j && final(self).items_view() == old(self).items_view(),
                None => i == old(self).items_view().len() && final(self).items_view() == old(self).items_view().push((addr, v)),
            },
            addrs_distinct(old(self).items_view()) ==> addrs_distinct(final(self).items_view()),
    {
        proof {
            lemma_index_of_addr_bound(self.items@, addr);
            if index_of_addr(self.items@, addr) is None {
                lemma_index_of_addr_none(self.items@, addr);
                let pushed = self.items@.push((addr, v));
                assert forall|x: int, y: int| 0 <= x < pushed.len() && 0 <= y < pushed.len() && x != y
                    && addrs_distinct(self.items@) implies #[trigger] pushed[x].0 != #[trigger] pushed[y].0 by {
                    if x < self.items@.len() {
                        assert(pushed[x] == self.items@[x]);
                    }
                    if y < self.items@.len() {
                        assert(pushed[y] == self.items@[y]);
                    }
                }
            }
        }
        match self.lookup(addr) {
            Some(i) => i,
            None => {
                let i = self.items.len();
                self.push_new(addr, v);
                i
            },
        }
    }

    /// Appends a new address with its value, giving it the next index.
    fn push_new(&mut self, addr: usize, v: T)
        requires
            old(self).wf(),
            index_of_addr(old(self).items@, addr) is None,
        ensures
            final(self).wf(),
            final(self).items@ == old(self).items@.push((addr, v)),
    {
        broadcast use vstd::std_specs::hash::group_hash_axioms;
        proof {
            lemma_index_of_addr_none(self.items@, addr);
            if self.index@.contains_key(addr) {
                assert(self.items@[self.index@[addr] as int].0 == addr);
            }
        }
        let i = self.items.len();
        self.items.push((addr, v));
        self.index.insert(addr, i);
        proof {
            let items = self.items@;
            let index = self.index@;
            assert forall|k: int| 0 <= k < items.len() implies index.contains_key((#[trigger] items[k]).0) && index[items[k].0] == k by {
                if k < items.len() - 1 {
                    assert(items[k] == old(self).items@[k]);
                    assert(old(self).index@.contains_key(items[k].0));
                }
            }
            assert forall|a: usize| #[trigger] index.contains_key(a) implies index[a] < items.len() && items[index[a] as int].0 == a by {
                if a != addr {
                    assert(old(self).index@.contains_key(a));
                    assert(items[index[a] as int] == old(self).items@[index[a] as int]);
                }
            }
        }
    }

    /// The index of the address `addr` as [`AddrDedup::intern`] gives it, making the value to store
    /// with `f` only if the address is new.
    pub fn intern_with<F: FnOnce() -> T>(&mut self, addr: usize, f: F) -> (i: usize)
        requires
            f.requires(()),
            old(self).wf(),
        ensures
            final(self).wf(),
            match index_of_addr(old(self).items_view(), addr) {
                Some(j) => i == j && final(self).items_view() == old(self).items_view(),
                None => i == old(self).items_view().len() && final(self).items_view().len() == i + 1
                    && final(self).items_view().drop_last() == old(self).items_view()
                    && final(self).items_view().last().0 == addr && f.ensures((), final(self).items_view().last().1),
            },
    {
        proof {
            lemma_index_of_addr_bound(self.items@, addr);
        }
        match self.lookup(addr) {
            Some(i) => i,
            None => {
                let v = f();
                let i = self.items.len();
                self.push_new(addr, v);
                proof {
                    assert(self.items@.drop_last() =~= old(self).items@);
                }
                i
            },
        }
    }

    /// The indices of each of the addresses, interning them in order with the values given.
    pub fn intern_iter(&mut self, entries: Vec<(usize, T)>) -> (ids: Vec<usize>)
        requires
            old(self).wf(),
        ensures
            final(self).wf(),
            ids@.len() == entries@.len(),
            final(self).items_view().len() >= old(self).items_view().len(),
            forall|j: int| 0 <= j < old(self).items_view().len() ==> #[trigger] final(self).items_view()[j] == old(self).items_view()[j],
            forall|k: int| 0 <= k < ids@.len() ==> (#[trigger] ids@[k]) < final(self).items_view().len()
                && final(self).items_view()[ids@[k] as int].0 == entries@[k].0,
    {
        let mut ids: Vec<usize> = Vec::new();
        let ghost items0 = self.items_view();
        let ghost entries0 = entries@;
        for entry in it: entries
            invariant
                it.seq() == entries0,
                ids@.len() == it.index(),
                self.wf(),
                self.items_view().len() >= items0.len(),
                forall|j: int| 0 <= j < items0.len() ==> #[trigger] self.items_view()[j] == items0[j],
                forall|j: int| 0 <= j < ids@.len() ==> (#[trigger] ids@[j]) < self.items_view().len()
                    && self.items_view()[ids@[j] as int].0 == entries0[j].0,
        {
            let ghost before = self.items_view();
            let (addr, v) = entry;
            let id = self.intern(addr, v);
            proof {
                lemma_index_of_addr_bound(before, addr);
                lemma_index_of_addr_spec(before, addr);
            }
            ids.push(id);
        }
        ids
    }

    /// The values made for the interned addresses, each at its index.
    pub fn into_vec(self) -> (v: Vec<T>)
        ensures
            v@.len() == self.items_view().len(),
            forall|k: int| 0 <= k < v@.len() ==> #[trigger] v@[k] == self.items_view()[k].1,
    {
        let ghost items0 = self.items@;
        let mut out: Vec<T> = Vec::new();
        for item in it: self.items
            invariant
                it.seq() == items0,
                out@.len() == it.index(),
                forall|j: int| 0 <= j < out@.len() ==> #[trigger] out@[j] == items0[j].1,
        {
            let (_, v) = item;
            out.push(v);
        }
        out
    }
}

proof fn lemma_index_of_addr_bound<T>(items: Seq<(usize, T)>, addr: usize)
    ensures
        index_of_addr(items, addr) matches Some(i) ==> 0 <= i < items.len(),
    decreases items.len(),
{
    if items.len() > 0 {
        lemma_index_of_addr_bound(items.drop_last(), addr);
    }
}

proof fn lemma_index_of_addr_spec<T>(items: Seq<(usize, T)>, addr: usize)
    ensures
        index_of_addr(items, addr) matches Some(i) ==> items[i].0 == addr,
    decreases items.len(),
{
    if items.len() > 0 {
        lemma_index_of_addr_spec(items.drop_last(), addr);
        if let Some(i) = index_of_addr(items.drop_last(), addr) {
            lemma_index_of_addr_bound(items.drop_last(), addr);
            assert(items.drop_last()[i] == items[i]);
        }
    }
}

proof fn lemma_index_of_addr_prefix<T>(items: Seq<(usize, T)>, k: nat, addr: usize)
    requires
        k <= items.len(),
        index_of_addr(items.take(k as int), addr) is Some,
    ensures
        index_of_addr(items, addr) == index_of_addr(items.take(k as int), addr),
    decreases items.len() - k,
{
    if k < items.len() {
        assert(items.take((k + 1) as int).drop_last() =~= items.take(k as int));
        lemma_index_of_addr_prefix(items, k + 1, addr);
    } else {
        assert(items.take(k as int) =~= items);
    }
}

/* ========== LAWS ========== */

/// Interning a value that was just interned gives the same index and changes nothing: the index
/// found by the first call is where the second call finds it.
pub proof fn law_intern_twice<T: TotalPreorder>(items: Seq<T>, v: T)
    ensures
        ({
            let after = match first_equal(items, v) {
                Some(_) => items,
                None => items.push(v),
            };
            let index = match first_equal(items, v) {
                Some(j) => j,
                None => items.len() as int,
            };
            first_equal(after, v) == Some(index)
        }),
{
    if first_equal(items, v) is None {
        assert(items.push(v).drop_last() =~= items);
        T::lemma_total_preorder(v, v, v);
    }
}


/* ========== COMPACT UNDO HISTORIES ========== */

/// A fragment of a saved history: its rows (rung from its start row) as indices into the saved
/// rows, and whether it is muted.
#[derive(Debug)]
pub struct FragRecord {
    pub rows: Vec<usize>,
    pub is_muted: bool,
}

/// A method of a saved history, with its place notation as an index into the saved strings.
#[derive(Debug)]
pub struct MethodRecord {
    pub name: String,
    pub shorthand: String,
    pub place_not_string: usize,
}

/// A specification of a saved history: its fragments, part head text and methods as indices into
/// the saved fragments, strings and methods.
#[derive(Debug)]
pub struct SpecRecord {
    pub frags: Vec<usize>,
    pub part_head_str: usize,
    pub methods: Vec<usize>,
    pub stage: usize,
}

/// A saved undo history: the specifications, and every row, string, fragment and method that
/// they share, each stored once.
#[derive(Debug)]
pub struct HistoryRecord {
    pub specs: Vec<SpecRecord>,
    pub rows: Vec<Row>,
    pub strs: Vec<String>,
    pub frags: Vec<FragRecord>,
    pub methods: Vec<MethodRecord>,
}

/// The rows of a fragment, rung from its start row.
pub open spec fn frag_rows(f: Frag) -> Seq<Seq<Bell>> {
    Seq::new(f.block@.len(), |r: int| permuted(f.start_row@, f.block@[r].0))
}

/// `fr` records the fragment `f`, its rows being indices into `rows`.
pub open spec fn records_frag(fr: FragRecord, rows: Seq<Row>, f: Frag) -> bool {
    &&& fr.rows@.len() == f.block@.len()
    &&& forall|r: int| 0 <= r < fr.rows@.len() ==> (#[trigger] fr.rows@[r]) < rows.len()
        && rows[fr.rows@[r] as int]@ == frag_rows(f)[r]
    &&& fr.is_muted == f.is_muted
}

/// `mr` records the method `m`, its place notation being an index into `strs`.
pub open spec fn records_method(mr: MethodRecord, strs: Seq<String>, m: MethodSpec) -> bool {
    &&& mr.name@ == m.method.name_view()
    &&& mr.shorthand@ == m.shorthand@
    &&& mr.place_not_string < strs.len()
    &&& strs[mr.place_not_string as int]@ == m.place_not_string@
}

/// The fragments and methods found at the same address in the specifications are the same: an
/// address names one value.
pub open spec fn addresses_identify(specs: Seq<Spec>, frag_addrs: Seq<Vec<usize>>, method_addrs: Seq<Vec<usize>>) -> bool {
    &&& forall|i: int, j: int, i2: int, j2: int|
        0 <= i < specs.len() && 0 <= j < specs[i].frags@.len() && 0 <= i2 < specs.len() && 0 <= j2 < specs[i2].frags@.len()
            && #[trigger] frag_addrs[i]@[j] == #[trigger] frag_addrs[i2]@[j2]
            ==> frag_view(specs[i].frags@[j]) == frag_view(specs[i2].frags@[j2])
    &&& forall|i: int, j: int, i2: int, j2: int|
        0 <= i < specs.len() && 0 <= j < specs[i].methods@.len() && 0 <= i2 < specs.len() && 0 <= j2 < specs[i2].methods@.len()
            && #[trigger] method_addrs[i]@[j] == #[trigger] method_addrs[i2]@[j2]
            ==> same_method(specs[i].methods@[j], specs[i2].methods@[j2])
}

/// `sr` records the specification `s` against the saved rows, strings, fragments and methods.
pub open spec fn records_spec(
    sr: SpecRecord,
    s: Spec,
    rows: Seq<Row>,
    strs: Seq<String>,
    frags: Seq<FragRecord>,
    methods: Seq<MethodRecord>,
) -> bool {
    &&& sr.stage == s.stage.num_bells
    &&& sr.part_head_str < strs.len()
    &&& strs[sr.part_head_str as int]@ == s.part_heads.spec_view()
    &&& sr.frags@.len() == s.frags@.len()
    &&& forall|j: int| 0 <= j < s.frags@.len() ==> (#[trigger] sr.frags@[j]) < frags.len()
        && records_frag(frags[sr.frags@[j] as int], rows, s.frags@[j])
    &&& sr.methods@.len() == s.methods@.len()
    &&& forall|j: int| 0 <= j < s.methods@.len() ==> (#[trigger] sr.methods@[j]) < methods.len()
        && records_method(methods[sr.methods@[j] as int], strs, s.methods@[j])
}

/// `rec` records the specifications `specs`: reading each one back from it gives its stage, part
/// head text, fragments (rows and mutedness) and methods (names and place notation).
pub open spec fn records_history(rec: HistoryRecord, specs: Seq<Spec>) -> bool {
    &&& rec.specs@.len() == specs.len()
    &&& forall|i: int| 0 <= i < specs.len() ==> #[trigger] records_spec(rec.specs@[i], specs[i], rec.rows@, rec.strs@,
        rec.frags@, rec.methods@)
}

/// The values stored by an address interner, in order.
pub open spec fn stored<T>(items: Seq<(usize, T)>) -> Seq<T> {
    Seq::new(items.len(), |k: int| items[k].1)
}

/// `b` keeps the entries of `a` and may add more.
pub open spec fn extends<T>(a: Seq<T>, b: Seq<T>) -> bool {
    &&& a.len() <= b.len()
    &&& forall|x: int| 0 <= x < a.len() ==> #[trigger] b[x] == a[x]
}

/// Every fragment recorded so far records each fragment found at its address.
pub open spec fn frags_recorded(items: Seq<(usize, FragRecord)>, rows: Seq<Row>, specs: Seq<Spec>, frag_addrs: Seq<Vec<usize>>) -> bool {
    forall|k: int, i: int, j: int| 0 <= k < items.len() && 0 <= i < specs.len() && 0 <= j < specs[i].frags@.len()
        && #[trigger] items[k].0 == #[trigger] frag_addrs[i]@[j]
        ==> records_frag(items[k].1, rows, specs[i].frags@[j])
}

/// Every method recorded so far records each method found at its address.
pub open spec fn methods_recorded(items: Seq<(usize, MethodRecord)>, strs: Seq<String>, specs: Seq<Spec>, method_addrs: Seq<Vec<usize>>) -> bool {
    forall|k: int, i: int, j: int| 0 <= k < items.len() && 0 <= i < specs.len() && 0 <= j < specs[i].methods@.len()
        && #[trigger] items[k].0 == #[trigger] method_addrs[i]@[j]
        ==> records_method(items[k].1, strs, specs[i].methods@[j])
}

/// Rows equal in the order of rows are the same rows.
proof fn lemma_rows_equal(a: Row, b: Row)
    requires
        a.le(b),
        b.le(a),
    ensures
        a@ == b@,
{
    lemma_lex_total_ordering(bell_le_fn());
    lemma_lex_antisym(a@, b@, bell_le_fn());
}

/// Strings equal in the order of strings are the same strings.
proof fn lemma_strings_equal(a: String, b: String)
    requires
        a.le(b),
        b.le(a),
    ensures
        a@ == b@,
{
    lemma_char_total_ordering();
    lemma_lex_antisym(a@, b@, char_le_fn());
}

/// Saving more rows, strings, fragments and methods keeps what is already recorded.
proof fn lemma_records_spec_extend(
    sr: SpecRecord,
    s: Spec,
    rows: Seq<Row>,
    strs: Seq<String>,
    frags: Seq<FragRecord>,
    methods: Seq<MethodRecord>,
    rows2: Seq<Row>,
    strs2: Seq<String>,
    frags2: Seq<FragRecord>,
    methods2: Seq<MethodRecord>,
)
    requires
        records_spec(sr, s, rows, strs, frags, methods),
        extends(rows, rows2),
        extends(strs, strs2),
        extends(frags, frags2),
        extends(methods, methods2),
    ensures
        records_spec(sr, s, rows2, strs2, frags2, methods2),
{
    assert forall|j: int| 0 <= j < s.frags@.len() implies (#[trigger] sr.frags@[j]) < frags2.len()
        && records_frag(frags2[sr.frags@[j] as int], rows2, s.frags@[j]) by {
        let fr = frags[sr.frags@[j] as int];
        assert(frags2[sr.frags@[j] as int] == fr);
        assert forall|r: int| 0 <= r < fr.rows@.len() implies (#[trigger] fr.rows@[r]) < rows2.len()
            && rows2[fr.rows@[r] as int]@ == frag_rows(s.frags@[j])[r] by {
            assert(rows2[fr.rows@[r] as int] == rows[fr.rows@[r] as int]);
        }
    }
    assert forall|j: int| 0 <= j < s.methods@.len() implies (#[trigger] sr.methods@[j]) < methods2.len()
        && records_method(methods2[sr.methods@[j] as int], strs2, s.methods@[j]) by {
        let mr = methods[sr.methods@[j] as int];
        assert(methods2[sr.methods@[j] as int] == mr);
        assert(strs2[mr.place_not_string as int] == strs[mr.place_not_string as int]);
    }
    assert(strs2[sr.part_head_str as int] == strs[sr.part_head_str as int]);
}

/// Saving more rows keeps the fragments recorded.
proof fn lemma_frags_recorded_extend(items: Seq<(usize, FragRecord)>, rows: Seq<Row>, rows2: Seq<Row>, specs: Seq<Spec>, frag_addrs: Seq<Vec<usize>>)
    requires
        frags_recorded(items, rows, specs, frag_addrs),
        extends(rows, rows2),
    ensures
        frags_recorded(items, rows2, specs, frag_addrs),
{
    assert forall|k: int, i: int, j: int| 0 <= k < items.len() && 0 <= i < specs.len() && 0 <= j < specs[i].frags@.len()
        && #[trigger] items[k].0 == #[trigger] frag_addrs[i]@[j]
        implies records_frag(items[k].1, rows2, specs[i].frags@[j]) by {
        let fr = items[k].1;
        assert(records_frag(fr, rows, specs[i].frags@[j]));
        assert forall|r: int| 0 <= r < fr.rows@.len() implies (#[trigger] fr.rows@[r]) < rows2.len()
            && rows2[fr.rows@[r] as int]@ == frag_rows(specs[i].frags@[j])[r] by {
            assert(rows2[fr.rows@[r] as int] == rows[fr.rows@[r] as int]);
        }
    }
}

/// Saving more strings keeps the methods recorded.
proof fn lemma_methods_recorded_extend(items: Seq<(usize, MethodRecord)>, strs: Seq<String>, strs2: Seq<String>, specs: Seq<Spec>, method_addrs: Seq<Vec<usize>>)
    requires
        methods_recorded(items, strs, specs, method_addrs),
        extends(strs, strs2),
    ensures
        methods_recorded(items, strs2, specs, method_addrs),
{
    assert forall|k: int, i: int, j: int| 0 <= k < items.len() && 0 <= i < specs.len() && 0 <= j < specs[i].methods@.len()
        && #[trigger] items[k].0 == #[trigger] method_addrs[i]@[j]
        implies records_method(items[k].1, strs2, specs[i].methods@[j]) by {
        let mr = items[k].1;
        assert(records_method(mr, strs, specs[i].methods@[j]));
        assert(strs2[mr.place_not_string as int] == strs[mr.place_not_string as int]);
    }
}

/// Records a fragment, interning its rows.
fn record_frag(f: &Frag, rows: &mut Dedup<Row>) -> (fr: FragRecord)
    requires
        f.wf(),
    ensures
        records_frag(fr, final(rows).items_view(), *f),
        extends(old(rows).items_view(), final(rows).items_view()),
        no_equal_pair(old(rows).items_view()) ==> no_equal_pair(final(rows).items_view()),
{
    let block_rows = f.block.annot_rows();
    let mut abs_rows: Vec<Row> = Vec::new();
    let mut r: usize = 0;
    while r < block_rows.len()
        invariant
            r <= block_rows@.len(),
            annot_view(block_rows@) == f.block@,
            f.wf(),
            abs_rows@.len() == r,
            forall|x: int| 0 <= x < r ==> (#[trigger] abs_rows@[x])@ == frag_rows(*f)[x],
        decreases block_rows@.len() - r,
    {
        proof {
            assert(f.block@[r as int].0.len() == f.block@[0].0.len());
            assert(annot_view(block_rows@)[r as int].0 == block_rows@[r as int].0@);
        }
        abs_rows.push(f.start_row.mul_unchecked(&block_rows[r].0));
        r += 1;
    }
    let ghost abs = abs_rows@;
    let ids = rows.intern_iter(abs_rows);
    proof {
        assert forall|x: int| 0 <= x < ids@.len() implies (#[trigger] ids@[x]) < rows.items_view().len()
            && rows.items_view()[ids@[x] as int]@ == frag_rows(*f)[x] by {
            lemma_rows_equal(rows.items_view()[ids@[x] as int], abs[x]);
        }
    }
    FragRecord { rows: ids, is_muted: f.is_muted }
}

/// Records a method, interning its place notation.
fn record_method(m: &MethodSpec, strs: &mut Dedup<String>) -> (mr: MethodRecord)
    ensures
        records_method(mr, final(strs).items_view(), *m),
        extends(old(strs).items_view(), final(strs).items_view()),
        no_equal_pair(old(strs).items_view()) ==> no_equal_pair(final(strs).items_view()),
{
    let pn = m.place_not_string.clone();
    let place_not_string = strs.intern(pn);
    proof {
        lemma_strings_equal(strs.items_view()[place_not_string as int], pn);
    }
    MethodRecord { name: String::from_str(m.name()), shorthand: m.shorthand.clone(), place_not_string }
}

/// Records an undo history, storing each row and string once, and each fragment and method once
/// per address (`frag_addrs` and `method_addrs` give the address of each fragment and method of
/// each specification; an address must name one value).  Reading the record back gives the
/// specifications.
pub fn record_history(specs: &[Spec], frag_addrs: &[Vec<usize>], method_addrs: &[Vec<usize>]) -> (rec: HistoryRecord)
    requires
        frag_addrs@.len() == specs@.len(),
        method_addrs@.len() == specs@.len(),
        forall|i: int| 0 <= i < specs@.len() ==> (#[trigger] frag_addrs@[i])@.len() == specs@[i].frags@.len(),
        forall|i: int| 0 <= i < specs@.len() ==> (#[trigger] method_addrs@[i])@.len() == specs@[i].methods@.len(),
        forall|i: int| 0 <= i < specs@.len() ==> (#[trigger] specs@[i]).wf(),
        addresses_identify(specs@, frag_addrs@, method_addrs@),
    ensures
        records_history(rec, specs@),
        // Each row and each string is stored once
        forall|x: int, y: int| 0 <= x < y < rec.rows@.len() ==> #[trigger] rec.rows@[x]@ != #[trigger] rec.rows@[y]@,
        forall|x: int, y: int| 0 <= x < y < rec.strs@.len() ==> #[trigger] rec.strs@[x]@ != #[trigger] rec.strs@[y]@,
        // Fragments and methods at the same address are stored once
        forall|i: int, j: int, i2: int, j2: int|
            0 <= i < specs@.len() && 0 <= j < specs@[i].frags@.len() && 0 <= i2 < specs@.len() && 0 <= j2 < specs@[i2].frags@.len()
                && #[trigger] frag_addrs@[i]@[j] == #[trigger] frag_addrs@[i2]@[j2]
                ==> rec.specs@[i].frags@[j] == rec.specs@[i2].frags@[j2],
        forall|i: int, j: int, i2: int, j2: int|
            0 <= i < specs@.len() && 0 <= j < specs@[i].methods@.len() && 0 <= i2 < specs@.len() && 0 <= j2 < specs@[i2].methods@.len()
                && #[trigger] method_addrs@[i]@[j] == #[trigger] method_addrs@[i2]@[j2]
                ==> rec.specs@[i].methods@[j] == rec.specs@[i2].methods@[j2],
{
    let mut strs = Dedup::<String>::new();
    let mut rows = Dedup::<Row>::new();
    let mut frags = AddrDedup::<FragRecord>::new();
    let mut methods = AddrDedup::<MethodRecord>::new();
    let mut spec_records: Vec<SpecRecord> = Vec::new();
    let mut i: usize = 0;
    while i < specs.len()
        invariant
            i <= specs@.len(),
            frag_addrs@.len() == specs@.len(),
            method_addrs@.len() == specs@.len(),
            forall|x: int| 0 <= x < specs@.len() ==> (#[trigger] frag_addrs@[x])@.len() == specs@[x].frags@.len(),
            forall|x: int| 0 <= x < specs@.len() ==> (#[trigger] method_addrs@[x])@.len() == specs@[x].methods@.len(),
            forall|x: int| 0 <= x < specs@.len() ==> (#[trigger] specs@[x]).wf(),
            addresses_identify(specs@, frag_addrs@, method_addrs@),
            frags_recorded(frags.items_view(), rows.items_view(), specs@, frag_addrs@),
            methods_recorded(methods.items_view(), strs.items_view(), specs@, method_addrs@),
            spec_records@.len() == i,
            forall|k: int| 0 <= k < i ==> #[trigger] records_spec(spec_records@[k], specs@[k], rows.items_view(),
                strs.items_view(), stored(frags.items_view()), stored(methods.items_view())),
            no_equal_pair(rows.items_view()),
            no_equal_pair(strs.items_view()),
            addrs_distinct(frags.items_view()),
            addrs_distinct(methods.items_view()),
            frags.wf(),
            methods.wf(),
            forall|k: int, j: int| 0 <= k < i && 0 <= j < specs@[k].frags@.len()
                ==> frags.items_view()[#[trigger] spec_records@[k].frags@[j] as int].0 == frag_addrs@[k]@[j],
            forall|k: int, j: int| 0 <= k < i && 0 <= j < specs@[k].methods@.len()
                ==> methods.items_view()[#[trigger] spec_records@[k].methods@[j] as int].0 == method_addrs@[k]@[j],
        decreases specs@.len() - i,
    {
        let s = &specs[i];
        let ghost rows0 = rows.items_view();
        let ghost strs0 = strs.items_view();
        let ghost frags0 = frags.items_view();
        let ghost methods0 = methods.items_view();
        // The fragments, each recorded once per address
        let mut frag_ids: Vec<usize> = Vec::new();
        let mut j: usize = 0;
        while j < s.frags.len()
            invariant
                j <= specs@[i as int].frags@.len(),
                *s == specs@[i as int],
                i < specs@.len(),
                        frag_addrs@.len() == specs@.len(),
                forall|x: int| 0 <= x < specs@.len() ==> (#[trigger] frag_addrs@[x])@.len() == specs@[x].frags@.len(),
                forall|x: int| 0 <= x < specs@.len() ==> (#[trigger] method_addrs@[x])@.len() == specs@[x].methods@.len(),
                forall|x: int| 0 <= x < specs@.len() ==> (#[trigger] specs@[x]).wf(),
                addresses_identify(specs@, frag_addrs@, method_addrs@),
                frags_recorded(frags.items_view(), rows.items_view(), specs@, frag_addrs@),
                extends(rows0, rows.items_view()),
                extends(frags0, frags.items_view()),
                frag_ids@.len() == j,
                no_equal_pair(rows.items_view()),
                addrs_distinct(frags.items_view()),
                frags.wf(),
                methods.wf(),
                forall|jj: int| 0 <= jj < j ==> frags.items_view()[#[trigger] frag_ids@[jj] as int].0 == frag_addrs@[i as int]@[jj],
                forall|jj: int| 0 <= jj < j ==> (#[trigger] frag_ids@[jj]) < frags.items_view().len()
                    && records_frag(frags.items_view()[frag_ids@[jj] as int].1, rows.items_view(), s.frags@[jj]),
            decreases specs@[i as int].frags@.len() - j,
        {
            let addr = frag_addrs[i][j];
            proof {
                assert(frag_addrs@[i as int]@[j as int] == addr);
                assert(specs@[i as int].wf());
                assert(s.frags@[j as int].wf());
            }
            let ghost before_rows = rows.items_view();
            let ghost before_frags = frags.items_view();
            let id = match frags.lookup(addr) {
                Some(k) => k,
                None => {
                    let fr = record_frag(&s.frags[j], &mut rows);
                    proof {
                        lemma_frags_recorded_extend(frags.items_view(), before_rows, rows.items_view(), specs@, frag_addrs@);
                    }
                    let k = frags.intern(addr, fr);
                    proof {
                        let items = frags.items_view();
                        assert forall|k2: int, i2: int, j2: int| 0 <= k2 < items.len() && 0 <= i2 < specs@.len() && 0 <= j2 < specs@[i2].frags@.len()
                            && #[trigger] items[k2].0 == #[trigger] frag_addrs@[i2]@[j2]
                            implies records_frag(items[k2].1, rows.items_view(), specs@[i2].frags@[j2]) by {
                            if k2 == items.len() - 1 {
                                assert(frag_view(specs@[i as int].frags@[j as int]) == frag_view(specs@[i2].frags@[j2]));
                            } else {
                                assert(items[k2] == before_frags[k2]);
                            }
                        }
                    }
                    k
                },
            };
            proof {
                let items = frags.items_view();
                assert(items[id as int].0 == frag_addrs@[i as int]@[j as int]);
                assert forall|jj: int| 0 <= jj < j implies items[#[trigger] frag_ids@[jj] as int].0 == frag_addrs@[i as int]@[jj] by {
                    assert(items[frag_ids@[jj] as int] == before_frags[frag_ids@[jj] as int]);
                }
                assert(records_frag(items[id as int].1, rows.items_view(), specs@[i as int].frags@[j as int]));
                assert forall|jj: int| 0 <= jj < j implies (#[trigger] frag_ids@[jj]) < items.len()
                    && records_frag(items[frag_ids@[jj] as int].1, rows.items_view(), s.frags@[jj]) by {
                    let fr = before_frags[frag_ids@[jj] as int].1;
                    assert(items[frag_ids@[jj] as int] == before_frags[frag_ids@[jj] as int]);
                    assert forall|r: int| 0 <= r < fr.rows@.len() implies (#[trigger] fr.rows@[r]) < rows.items_view().len()
                        && rows.items_view()[fr.rows@[r] as int]@ == frag_rows(s.frags@[jj])[r] by {
                        assert(rows.items_view()[fr.rows@[r] as int] == before_rows[fr.rows@[r] as int]);
                    }
                }
            }
            frag_ids.push(id);
            j += 1;
        }
        // The methods, each recorded once per address
        let ghost strs1 = strs.items_view();
        let mut method_ids: Vec<usize> = Vec::new();
        let mut j: usize = 0;
        while j < s.methods.len()
            invariant
                j <= specs@[i as int].methods@.len(),
                *s == specs@[i as int],
                i < specs@.len(),
                        method_addrs@.len() == specs@.len(),
                forall|x: int| 0 <= x < specs@.len() ==> (#[trigger] frag_addrs@[x])@.len() == specs@[x].frags@.len(),
                forall|x: int| 0 <= x < specs@.len() ==> (#[trigger] method_addrs@[x])@.len() == specs@[x].methods@.len(),
                addresses_identify(specs@, frag_addrs@, method_addrs@),
                methods_recorded(methods.items_view(), strs.items_view(), specs@, method_addrs@),
                extends(strs1, strs.items_view()),
                extends(methods0, methods.items_view()),
                method_ids@.len() == j,
                no_equal_pair(strs.items_view()),
                addrs_distinct(methods.items_view()),
                methods.wf(),
                forall|jj: int| 0 <= jj < j ==> methods.items_view()[#[trigger] method_ids@[jj] as int].0 == method_addrs@[i as int]@[jj],
                forall|jj: int| 0 <= jj < j ==> (#[trigger] method_ids@[jj]) < methods.items_view().len()
                    && records_method(methods.items_view()[method_ids@[jj] as int].1, strs.items_view(), s.methods@[jj]),
            decreases specs@[i as int].methods@.len() - j,
        {
            let addr = method_addrs[i][j];
            proof {
                assert(method_addrs@[i as int]@[j as int] == addr);
            }
            let ghost before_strs = strs.items_view();
            let ghost before_methods = methods.items_view();
            let id = match methods.lookup(addr) {
                Some(k) => k,
                None => {
                    let mr = record_method(&s.methods[j], &mut strs);
                    proof {
                        lemma_methods_recorded_extend(methods.items_view(), before_strs, strs.items_view(), specs@, method_addrs@);
                    }
                    let k = methods.intern(addr, mr);
                    proof {
                        let items = methods.items_view();
                        assert forall|k2: int, i2: int, j2: int| 0 <= k2 < items.len() && 0 <= i2 < specs@.len() && 0 <= j2 < specs@[i2].methods@.len()
                            && #[trigger] items[k2].0 == #[trigger] method_addrs@[i2]@[j2]
                            implies records_method(items[k2].1, strs.items_view(), specs@[i2].methods@[j2]) by {
                            if k2 == items.len() - 1 {
                                assert(same_method(specs@[i as int].methods@[j as int], specs@[i2].methods@[j2]));
                            } else {
                                assert(items[k2] == before_methods[k2]);
                            }
                        }
                    }
                    k
                },
            };
            proof {
                let items = methods.items_view();
                assert(items[id as int].0 == method_addrs@[i as int]@[j as int]);
                assert forall|jj: int| 0 <= jj < j implies items[#[trigger] method_ids@[jj] as int].0 == method_addrs@[i as int]@[jj] by {
                    assert(items[method_ids@[jj] as int] == before_methods[method_ids@[jj] as int]);
                }
                assert(records_method(items[id as int].1, strs.items_view(), specs@[i as int].methods@[j as int]));
                assert forall|jj: int| 0 <= jj < j implies (#[trigger] method_ids@[jj]) < items.len()
                    && records_method(items[method_ids@[jj] as int].1, strs.items_view(), s.methods@[jj]) by {
                    let mr = before_methods[method_ids@[jj] as int].1;
                    assert(items[method_ids@[jj] as int] == before_methods[method_ids@[jj] as int]);
                    assert(strs.items_view()[mr.place_not_string as int] == before_strs[mr.place_not_string as int]);
                }
            }
            method_ids.push(id);
            j += 1;
        }
        // The part head text
        let ghost strs2 = strs.items_view();
        let ph = String::from_str(s.part_heads.spec_string());
        let part_head_str = strs.intern(ph);
        proof {
            lemma_strings_equal(strs.items_view()[part_head_str as int], ph);
            lemma_methods_recorded_extend(methods.items_view(), strs2, strs.items_view(), specs@, method_addrs@);
        }
        let ghost methods_now = methods.items_view();
        let ghost frags_now = frags.items_view();
        let sr = SpecRecord { frags: frag_ids, part_head_str, methods: method_ids, stage: s.stage.num_bells };
        proof {
            let rows_v = rows.items_view();
            let strs_v = strs.items_view();
            assert(extends(stored(frags0), stored(frags_now)));
            assert(extends(stored(methods0), stored(methods_now)));
            assert(extends(strs0, strs_v));
            assert forall|k: int| 0 <= k < i implies #[trigger] records_spec(spec_records@[k], specs@[k], rows_v, strs_v,
                stored(frags_now), stored(methods_now)) by {
                lemma_records_spec_extend(spec_records@[k], specs@[k], rows0, strs0, stored(frags0), stored(methods0),
                    rows_v, strs_v, stored(frags_now), stored(methods_now));
            }
            assert forall|jj: int| 0 <= jj < s.methods@.len() implies (#[trigger] sr.methods@[jj]) < stored(methods_now).len()
                && records_method(stored(methods_now)[sr.methods@[jj] as int], strs_v, s.methods@[jj]) by {
                let mr = methods_now[sr.methods@[jj] as int].1;
                assert(strs_v[mr.place_not_string as int] == strs2[mr.place_not_string as int]);
            }
            assert(records_spec(sr, specs@[i as int], rows_v, strs_v, stored(frags_now), stored(methods_now)));
            assert forall|k: int, j: int| 0 <= k < i && 0 <= j < specs@[k].frags@.len()
                implies frags_now[#[trigger] spec_records@[k].frags@[j] as int].0 == frag_addrs@[k]@[j] by {
                assert(records_spec(spec_records@[k], specs@[k], rows0, strs0, stored(frags0), stored(methods0)));
                assert(spec_records@[k].frags@[j] < frags0.len());
                assert(frags_now[spec_records@[k].frags@[j] as int] == frags0[spec_records@[k].frags@[j] as int]);
            }
            assert forall|k: int, j: int| 0 <= k < i && 0 <= j < specs@[k].methods@.len()
                implies methods_now[#[trigger] spec_records@[k].methods@[j] as int].0 == method_addrs@[k]@[j] by {
                assert(records_spec(spec_records@[k], specs@[k], rows0, strs0, stored(frags0), stored(methods0)));
                assert(spec_records@[k].methods@[j] < methods0.len());
                assert(methods_now[spec_records@[k].methods@[j] as int] == methods0[spec_records@[k].methods@[j] as int]);
            }
        }
        let ghost records_before = spec_records@;
        spec_records.push(sr);
        proof {
            assert forall|k: int, j: int| 0 <= k < i + 1 && 0 <= j < specs@[k].frags@.len()
                implies frags.items_view()[#[trigger] spec_records@[k].frags@[j] as int].0 == frag_addrs@[k]@[j] by {
                if k < i {
                    assert(spec_records@[k] == records_before[k]);
                }
            }
            assert forall|k: int, j: int| 0 <= k < i + 1 && 0 <= j < specs@[k].methods@.len()
                implies methods.items_view()[#[trigger] spec_records@[k].methods@[j] as int].0 == method_addrs@[k]@[j] by {
                if k < i {
                    assert(spec_records@[k] == records_before[k]);
                }
            }
            assert forall|k: int| 0 <= k < i + 1 implies #[trigger] records_spec(spec_records@[k], specs@[k], rows.items_view(),
                strs.items_view(), stored(frags.items_view()), stored(methods.items_view())) by {
                if k < i {
                    assert(spec_records@[k] == records_before[k]);
                }
            }
        }
        i += 1;
    }
    let ghost frag_items = frags.items_view();
    let ghost method_items = methods.items_view();
    let rec = HistoryRecord {
        specs: spec_records,
        rows: rows.into_vec(),
        strs: strs.into_vec(),
        frags: frags.into_vec(),
        methods: methods.into_vec(),
    };
    proof {
        assert(rec.frags@ =~= stored(frag_items));
        assert(rec.methods@ =~= stored(method_items));
        lemma_lex_total_ordering(bell_le_fn());
        lemma_char_total_ordering();
        assert forall|x: int, y: int| 0 <= x < y < rec.rows@.len() implies #[trigger] rec.rows@[x]@ != #[trigger] rec.rows@[y]@ by {
            if rec.rows@[x]@ == rec.rows@[y]@ {
                lemma_lex_refl(rec.rows@[x]@, bell_le_fn());
                assert(rec.rows@[x].le(rec.rows@[y]) && rec.rows@[y].le(rec.rows@[x]));
            }
        }
        assert forall|x: int, y: int| 0 <= x < y < rec.strs@.len() implies #[trigger] rec.strs@[x]@ != #[trigger] rec.strs@[y]@ by {
            if rec.strs@[x]@ == rec.strs@[y]@ {
                lemma_lex_refl(rec.strs@[x]@, char_le_fn());
                assert(rec.strs@[x].le(rec.strs@[y]) && rec.strs@[y].le(rec.strs@[x]));
            }
        }
        assert forall|i: int, j: int, i2: int, j2: int|
            0 <= i < specs@.len() && 0 <= j < specs@[i].frags@.len() && 0 <= i2 < specs@.len() && 0 <= j2 < specs@[i2].frags@.len()
                && #[trigger] frag_addrs@[i]@[j] == #[trigger] frag_addrs@[i2]@[j2]
                implies rec.specs@[i].frags@[j] == rec.specs@[i2].frags@[j2] by {
            let a = rec.specs@[i].frags@[j];
            let b = rec.specs@[i2].frags@[j2];
            assert(records_spec(rec.specs@[i], specs@[i], rec.rows@, rec.strs@, rec.frags@, rec.methods@));
            assert(records_spec(rec.specs@[i2], specs@[i2], rec.rows@, rec.strs@, rec.frags@, rec.methods@));
            assert(frag_items[a as int].0 == frag_addrs@[i]@[j]);
            assert(frag_items[b as int].0 == frag_addrs@[i2]@[j2]);
        }
        assert forall|i: int, j: int, i2: int, j2: int|
            0 <= i < specs@.len() && 0 <= j < specs@[i].methods@.len() && 0 <= i2 < specs@.len() && 0 <= j2 < specs@[i2].methods@.len()
                && #[trigger] method_addrs@[i]@[j] == #[trigger] method_addrs@[i2]@[j2]
                implies rec.specs@[i].methods@[j] == rec.specs@[i2].methods@[j2] by {
            let a = rec.specs@[i].methods@[j];
            let b = rec.specs@[i2].methods@[j2];
            assert(records_spec(rec.specs@[i], specs@[i], rec.rows@, rec.strs@, rec.frags@, rec.methods@));
            assert(records_spec(rec.specs@[i2], specs@[i2], rec.rows@, rec.strs@, rec.frags@, rec.methods@));
            assert(method_items[a as int].0 == method_addrs@[i]@[j]);
            assert(method_items[b as int].0 == method_addrs@[i2]@[j2]);
        }
    }
    rec
}

} // verus!
