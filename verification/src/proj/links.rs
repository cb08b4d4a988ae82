//! Which fragments of a composition can be joined onto which: fragment `f` links to fragment `g`
//! when `g` starts with (a part-equivalent of) the leftover row of `f`.  Links from the same row are
//! grouped, so that they can be drawn in the same colour.

use vstd::prelude::*;
use crate::bellcore::bell::Bell;
use crate::bellcore::row::{compare_bells, Row};
use crate::order::Order;
use super::derived_state::ExpandedRow;
use super::spec::{closed_under, transposition_of, PartHeads};

verus! {

/// Fragment `from` can be linked onto fragment `to`.
#[derive(Debug, Clone, Copy, PartialEq, Eq, Structural)]
pub struct FragLink {
    pub from: usize,
    pub to: usize,
    pub group: usize,
}

/// Which link groups the top and bottom of a fragment belong to.
#[derive(Debug, Clone, Copy, PartialEq, Eq, Structural)]
pub struct FragLinkGroups {
    pub top: Option<usize>,
    pub bottom: Option<usize>,
}

impl Default for FragLinkGroups {
    fn default() -> (g: FragLinkGroups)
        ensures
            g.top is None,
            g.bottom is None,
    {
        FragLinkGroups { top: None, bottom: None }
    }
}

/// The leftover row (in the first part) of each fragment's expanded rows.
pub open spec fn leftovers(gen: Seq<Vec<ExpandedRow>>) -> Seq<Seq<Bell>> {
    Seq::new(gen.len(), |f: int| gen[f]@.last().rows@[0]@)
}

/// The first row (in the first part) of each fragment's expanded rows.
pub open spec fn firsts(gen: Seq<Vec<ExpandedRow>>) -> Seq<Seq<Bell>> {
    Seq::new(gen.len(), |f: int| gen[f]@[0].rows@[0]@)
}

/// The fragment with leftover row `l` links onto the fragment starting with row `s`, under the part
/// heads `ph`: the transposition between them keeps the part heads among themselves.
pub open spec fn links_onto(ph: Seq<Row>, l: Seq<Bell>, s: Seq<Bell>) -> bool {
    closed_under(ph, transposition_of(l, s))
}

/// The linked pairs of fragments `(a, b)` with `a < i`, or `a == i` and `b < j`, in order (`n`
/// fragments in all).
pub open spec fn linked_pairs(ls: Seq<Seq<Bell>>, fs: Seq<Seq<Bell>>, ph: Seq<Row>, i: nat, j: nat) -> Seq<(int, int)>
    decreases i, j,
{
    if j == 0 {
        if i == 0 {
            seq![]
        } else {
            linked_pairs(ls, fs, ph, (i - 1) as nat, ls.len())
        }
    } else {
        linked_pairs(ls, fs, ph, i, (j - 1) as nat) + if links_onto(ph, ls[i as int], fs[j - 1]) {
            seq![(i as int, j - 1)]
        } else {
            seq![]
        }
    }
}

/// The first position of `x` in `s`, if it occurs.
pub open spec fn position_of(s: Seq<Seq<Bell>>, x: Seq<Bell>) -> Option<int>
    decreases s.len(),
{
    if s.len() == 0 {
        None
    } else {
        match position_of(s.drop_last(), x) {
            Some(p) => Some(p),
            None => if s.last() == x {
                Some(s.len() - 1)
            } else {
                None
            },
        }
    }
}

/// The distinct rows of `rows`, in order of first appearance.
pub open spec fn distinct_rows(rows: Seq<Seq<Bell>>) -> Seq<Seq<Bell>>
    decreases rows.len(),
{
    if rows.len() == 0 {
        seq![]
    } else {
        let d = distinct_rows(rows.drop_last());
        if position_of(d, rows.last()) is Some {
            d
        } else {
            d.push(rows.last())
        }
    }
}

/// The group of a link whose fragment has leftover row `l`, after the links whose leftover rows are
/// `earlier`: the number of the row among the distinct rows, in order of first appearance.
pub open spec fn group_of(earlier: Seq<Seq<Bell>>, l: Seq<Bell>) -> int {
    match position_of(distinct_rows(earlier.push(l)), l) {
        Some(p) => p,
        None => -1,
    }
}

/// The leftover rows of the first `k` links.
pub open spec fn link_rows(ls: Seq<Seq<Bell>>, pairs: Seq<(int, int)>, k: int) -> Seq<Seq<Bell>> {
    Seq::new(k as nat, |m: int| ls[pairs[m].0])
}

/// `links` are the links of the pairs `pairs`, grouped by leftover row.
pub open spec fn links_match(links: Seq<FragLink>, ls: Seq<Seq<Bell>>, pairs: Seq<(int, int)>) -> bool {
    &&& links.len() == pairs.len()
    &&& forall|k: int| 0 <= k < links.len() ==> {
        &&& (#[trigger] links[k]).from == pairs[k].0
        &&& links[k].to == pairs[k].1
        &&& links[k].group == group_of(link_rows(ls, pairs, k), ls[pairs[k].0])
    }
}

/// The group of the last link in `links` satisfying `p`, if any.
pub open spec fn last_group(links: Seq<FragLink>, p: spec_fn(FragLink) -> bool) -> Option<usize>
    decreases links.len(),
{
    if links.len() == 0 {
        None
    } else if p(links.last()) {
        Some(links.last().group)
    } else {
        last_group(links.drop_last(), p)
    }
}

/// The link leaves fragment `f`.
pub open spec fn from_frag(f: int) -> spec_fn(FragLink) -> bool {
    |l: FragLink| l.from == f
}

/// The link arrives at fragment `f`.
pub open spec fn to_frag(f: int) -> spec_fn(FragLink) -> bool {
    |l: FragLink| l.to == f
}

proof fn lemma_position_bound(s: Seq<Seq<Bell>>, x: Seq<Bell>)
    ensures
        position_of(s, x) matches Some(p) ==> 0 <= p < s.len() && s[p] == x,
        position_of(s, x) is None ==> forall|i: int| 0 <= i < s.len() ==> s[i] != x,
    decreases s.len(),
{
    if s.len() > 0 {
        lemma_position_bound(s.drop_last(), x);
        assert forall|i: int| 0 <= i < s.len() - 1 implies s.drop_last()[i] == s[i] by {}
    }
}

proof fn lemma_distinct_rows_len(rows: Seq<Seq<Bell>>)
    ensures
        distinct_rows(rows).len() <= rows.len(),
    decreases rows.len(),
{
    if rows.len() > 0 {
        lemma_distinct_rows_len(rows.drop_last());
    }
}

/// Where a row lies among the distinct rows seen so far.
fn find_row(seen: &Vec<&Row>, r: &Row) -> (p: Option<usize>)
    ensures
        match position_of(seen_view(seen@), r@) {
            Some(q) => p matches Some(k) && k == q,
            None => p is None,
        },
{
    let ghost sv = seen_view(seen@);
    let mut k: usize = 0;
    while k < seen.len()
        invariant
            sv == seen_view(seen@),
            k <= seen@.len(),
            position_of(sv.take(k as int), r@) is None,
        decreases seen@.len() - k,
    {
        proof {
            assert(sv.take(k + 1).drop_last() =~= sv.take(k as int));
            assert(sv.take(k + 1).last() == seen@[k as int]@);
        }
        if compare_bells(seen[k].slice(), r.slice()) == Order::Equal {
            proof {
                lemma_position_prefix(sv, (k + 1) as nat, r@);
            }
            return Some(k);
        }
        k += 1;
    }
    proof {
        assert(sv.take(k as int) =~= sv);
    }
    None
}

proof fn lemma_position_prefix(s: Seq<Seq<Bell>>, k: nat, x: Seq<Bell>)
    requires
        k <= s.len(),
        position_of(s.take(k as int), x) is Some,
    ensures
        position_of(s, x) == position_of(s.take(k as int), x),
    decreases s.len() - k,
{
    if k < s.len() {
        assert(s.take((k + 1) as int).drop_last() =~= s.take(k as int));
        lemma_position_prefix(s, k + 1, x);
    } else {
        assert(s.take(k as int) =~= s);
    }
}

/// The seen rows, by value.
pub open spec fn seen_view(seen: Seq<&Row>) -> Seq<Seq<Bell>> {
    Seq::new(seen.len(), |m: int| seen[m]@)
}

/// Records the link from fragment `i` (whose leftover row is `leftover`) to fragment `j`, after
/// the links of the pairs `pairs`.
fn add_link<'a>(
    frag_links: &mut Vec<FragLink>,
    frag_link_groups: &mut Vec<FragLinkGroups>,
    link_groups: &mut Vec<&'a Row>,
    leftover: &'a Row,
    i: usize,
    j: usize,
    Ghost(ls): Ghost<Seq<Seq<Bell>>>,
    Ghost(pairs): Ghost<Seq<(int, int)>>,
)
    requires
        i < old(frag_link_groups)@.len(),
        j < old(frag_link_groups)@.len(),
        i < ls.len(),
        leftover@ == ls[i as int],
        links_match(old(frag_links)@, ls, pairs),
        seen_view(old(link_groups)@) == distinct_rows(link_rows(ls, pairs, old(frag_links)@.len() as int)),
        forall|f: int| 0 <= f < old(frag_link_groups)@.len() ==> (#[trigger] old(frag_link_groups)@[f]).bottom == last_group(old(frag_links)@, from_frag(f))
            && old(frag_link_groups)@[f].top == last_group(old(frag_links)@, to_frag(f)),
    ensures
        links_match(final(frag_links)@, ls, pairs.push((i as int, j as int))),
        seen_view(final(link_groups)@) == distinct_rows(link_rows(ls, pairs.push((i as int, j as int)), final(frag_links)@.len() as int)),
        final(frag_link_groups)@.len() == old(frag_link_groups)@.len(),
        forall|f: int| 0 <= f < final(frag_link_groups)@.len() ==> (#[trigger] final(frag_link_groups)@[f]).bottom == last_group(final(frag_links)@, from_frag(f))
            && final(frag_link_groups)@[f].top == last_group(final(frag_links)@, to_frag(f)),
{
    let ghost before_rows = link_rows(ls, pairs, frag_links@.len() as int);
    let ghost pairs2 = pairs.push((i as int, j as int));
    proof {
        lemma_position_bound(distinct_rows(before_rows), ls[i as int]);
        assert(before_rows.push(ls[i as int]).drop_last() =~= before_rows);
        assert(seen_view(link_groups@) =~= Seq::new(link_groups@.len(), |m: int| link_groups@[m]@));
    }
    // Decide which group this link is in, so that links of the same row share a colour
    let ghost d = distinct_rows(before_rows);
    let ghost l = ls[i as int];
    let group = match find_row(link_groups, leftover) {
        Some(p) => {
            proof {
                assert(position_of(d, l) == Some(p as int));
                assert(distinct_rows(before_rows.push(l)) == d);
            }
            p
        },
        None => {
            let p = link_groups.len();
            link_groups.push(leftover);
            proof {
                assert(position_of(d, l) is None);
                assert(distinct_rows(before_rows.push(l)) == d.push(l));
                assert(d.push(l).drop_last() =~= d);
                assert(position_of(d.push(l), l) == Some(d.len() as int));
                assert(seen_view(link_groups@) =~= d.push(l));
            }
            p
        },
    };
    proof {
        assert(group == group_of(before_rows, l));
    }
    let ghost old_links = frag_links@;
    let link = FragLink { from: i, to: j, group };
    frag_links.push(link);
    proof {
        let sv = seen_view(link_groups@);
        assert(link_rows(ls, pairs2, frag_links@.len() as int) =~= before_rows.push(ls[i as int]));
        assert(sv =~= distinct_rows(before_rows.push(ls[i as int])));
        assert(link.group == group_of(before_rows, ls[i as int]));
        assert forall|m: int| 0 <= m < old_links.len() implies #[trigger] link_rows(ls, pairs2, m) == link_rows(ls, pairs, m) by {
            assert(link_rows(ls, pairs2, m) =~= link_rows(ls, pairs, m));
        }
        assert forall|k: int| 0 <= k < frag_links@.len() implies {
            &&& (#[trigger] frag_links@[k]).from == pairs2[k].0
            &&& frag_links@[k].to == pairs2[k].1
            &&& frag_links@[k].group == group_of(link_rows(ls, pairs2, k), ls[pairs2[k].0])
        } by {
            if k < old_links.len() {
                assert(frag_links@[k] == old_links[k]);
                assert(pairs2[k] == pairs[k]);
                assert(link_rows(ls, pairs2, k) == link_rows(ls, pairs, k));
            } else {
                assert(k == old_links.len());
                assert(link_rows(ls, pairs2, k) =~= before_rows);
            }
        }
    }
    let mut bottom = frag_link_groups.remove(i);
    bottom.bottom = Some(group);
    frag_link_groups.insert(i, bottom);
    let mut top = frag_link_groups.remove(j);
    top.top = Some(group);
    frag_link_groups.insert(j, top);
    proof {
        assert(frag_links@.drop_last() =~= old_links);
        assert(frag_links@.last() == link);
    }
}

/// Given the expanded rows of each fragment, finds which fragments link onto which: for every
/// pair `(i, j)` in order (including `i == j`), whether fragment `j` starts with a part-equivalent
/// of the leftover row of fragment `i`.  Links whose leftover rows are the same share a group,
/// numbered in order of first appearance.  Also returns, for each fragment, the group of the last
/// link leaving its bottom and of the last link arriving at its top.  Every fragment must have at
/// least one expanded row, with a row for at least one part, and these rows must have the stage of
/// the part heads.
#[verifier::spinoff_prover]
#[verifier::rlimit(60)]
pub fn gen_frag_links(generated_rows: &[Vec<ExpandedRow>], part_heads: &PartHeads) -> (r: (Vec<FragLink>, Vec<FragLinkGroups>))
    requires
        part_heads.wf(),
        forall|f: int| 0 <= f < generated_rows@.len() ==> (#[trigger] generated_rows@[f])@.len() >= 1,
        forall|f: int, k: int| 0 <= f < generated_rows@.len() && 0 <= k < generated_rows@[f]@.len()
            ==> (#[trigger] generated_rows@[f]@[k]).rows@.len() >= 1
                && generated_rows@[f]@[k].rows@[0]@.len() == part_heads.rows_view()[0]@.len(),
    ensures
        links_match(r.0@, leftovers(generated_rows@),
            linked_pairs(leftovers(generated_rows@), firsts(generated_rows@), part_heads.rows_view(), generated_rows@.len(), 0)),
        r.1@.len() == generated_rows@.len(),
        forall|f: int| 0 <= f < generated_rows@.len() ==> (#[trigger] r.1@[f]).bottom == last_group(r.0@, from_frag(f))
            && r.1@[f].top == last_group(r.0@, to_frag(f)),
{
    let n = generated_rows.len();
    let ghost ls = leftovers(generated_rows@);
    let ghost fs = firsts(generated_rows@);
    let ghost ph = part_heads.rows_view();
    // The distinct leftover rows seen so far: each one's position is its group
    let mut link_groups: Vec<&Row> = Vec::new();
    let mut frag_links: Vec<FragLink> = Vec::new();
    let mut frag_link_groups: Vec<FragLinkGroups> = Vec::new();
    let mut k: usize = 0;
    while k < n
        invariant
            k <= n,
            frag_link_groups@.len() == k,
            forall|f: int| 0 <= f < k ==> (#[trigger] frag_link_groups@[f]).top is None && frag_link_groups@[f].bottom is None,
        decreases n - k,
    {
        frag_link_groups.push(FragLinkGroups { top: None, bottom: None });
        k += 1;
    }
    proof {
        assert(linked_pairs(ls, fs, ph, 0, 0) =~= Seq::<(int, int)>::empty());
    }
    // Test every pair of fragments f -> g
    let mut i: usize = 0;
    while i < n
        invariant
            0 <= i <= n,
            n == generated_rows@.len(),
            ls == leftovers(generated_rows@),
            fs == firsts(generated_rows@),
            ph == part_heads.rows_view(),
            part_heads.wf(),
            forall|f: int| 0 <= f < generated_rows@.len() ==> (#[trigger] generated_rows@[f])@.len() >= 1,
            forall|f: int, m: int| 0 <= f < generated_rows@.len() && 0 <= m < generated_rows@[f]@.len()
                ==> (#[trigger] generated_rows@[f]@[m]).rows@.len() >= 1
                    && generated_rows@[f]@[m].rows@[0]@.len() == part_heads.rows_view()[0]@.len(),
            links_match(frag_links@, ls, linked_pairs(ls, fs, ph, i as nat, 0)),
            seen_view(link_groups@) == distinct_rows(link_rows(ls, linked_pairs(ls, fs, ph, i as nat, 0), frag_links@.len() as int)),
            frag_link_groups@.len() == n,
            forall|f: int| 0 <= f < n ==> (#[trigger] frag_link_groups@[f]).bottom == last_group(frag_links@, from_frag(f))
                && frag_link_groups@[f].top == last_group(frag_links@, to_frag(f)),
        decreases n - i,
    {
        let f = &generated_rows[i];
        let leftover_row_of_f = &f[f.len() - 1].rows[0];
        let mut j: usize = 0;
        while j < n
            invariant
                0 <= i < n,
                0 <= j <= n,
                n == generated_rows@.len(),
                ls == leftovers(generated_rows@),
                fs == firsts(generated_rows@),
                ph == part_heads.rows_view(),
                part_heads.wf(),
                leftover_row_of_f@ == ls[i as int],
                forall|f2: int| 0 <= f2 < generated_rows@.len() ==> (#[trigger] generated_rows@[f2])@.len() >= 1,
                forall|f2: int, m: int| 0 <= f2 < generated_rows@.len() && 0 <= m < generated_rows@[f2]@.len()
                    ==> (#[trigger] generated_rows@[f2]@[m]).rows@.len() >= 1
                        && generated_rows@[f2]@[m].rows@[0]@.len() == part_heads.rows_view()[0]@.len(),
                links_match(frag_links@, ls, linked_pairs(ls, fs, ph, i as nat, j as nat)),
                seen_view(link_groups@) == distinct_rows(link_rows(ls, linked_pairs(ls, fs, ph, i as nat, j as nat), frag_links@.len() as int)),
                frag_link_groups@.len() == n,
                forall|f2: int| 0 <= f2 < n ==> (#[trigger] frag_link_groups@[f2]).bottom == last_group(frag_links@, from_frag(f2))
                    && frag_link_groups@[f2].top == last_group(frag_links@, to_frag(f2)),
            decreases n - j,
        {
            let g = &generated_rows[j];
            let first_row_of_g = &g[0].rows[0];
            proof {
                assert(generated_rows@[i as int]@[generated_rows@[i as int]@.len() - 1].rows@[0]@.len() == ph[0]@.len());
                assert(first_row_of_g@ == fs[j as int]);
            }
            let linked = match part_heads.are_equivalent(leftover_row_of_f, first_row_of_g) {
                Ok(b) => b,
                Err(_) => {
                    proof {
                        assert(false);
                    }
                    false
                },
            };
            let ghost pairs = linked_pairs(ls, fs, ph, i as nat, j as nat);
            let ghost pairs2 = linked_pairs(ls, fs, ph, i as nat, (j + 1) as nat);
            proof {
                assert(pairs2 == pairs + if links_onto(ph, ls[i as int], fs[j as int]) {
                    seq![(i as int, j as int)]
                } else {
                    seq![]
                });
                assert(linked == links_onto(ph, ls[i as int], fs[j as int]));
            }
            if linked {
                add_link(&mut frag_links, &mut frag_link_groups, &mut link_groups, leftover_row_of_f, i, j,
                    Ghost(ls), Ghost(pairs));
                proof {
                    assert(pairs2 =~= pairs.push((i as int, j as int)));
                }
            } else {
                proof {
                    assert(pairs2 =~= pairs);
                }
            }
            j += 1;
        }
        proof {
            assert(linked_pairs(ls, fs, ph, (i + 1) as nat, 0) == linked_pairs(ls, fs, ph, i as nat, n as nat));
        }
        i += 1;
    }
    (frag_links, frag_link_groups)
}

} // verus!
