//! A heap-allocated row of [`Bell`]s.  This is also used as a permutation.

use vstd::prelude::*;
use vstd::set_lib::{lemma_int_range, lemma_len_subset, set_int_range};
use crate::group::{
    compose, distinct, identity, in_range, inverse, is_perm, lemma_compose_perm, lemma_perm_surjective,
    lemma_distinct_in_range, lemma_inverse, lemma_inverse_unique, lemma_order_exists,
    lemma_power_one, lemma_power_perm, power,
};
use super::bell::{bell_name_spec, parse_bells, parsed_bells, Bell};
use super::stage::{stage_text, Stage};
use crate::order::{
    lemma_lex_antisym, lemma_lex_refl, lemma_lex_skip, lemma_lex_total, lemma_lex_total_ordering,
    lemma_lex_trans, lex_le, Order, TotalPreorder,
};
use vstd::relations::total_ordering;

verus! {

/* ========== MATHEMATICAL MODEL ========== */

/// The 0-indexed positions of a sequence of bells.
pub open spec fn indices(s: Seq<Bell>) -> Seq<int> {
    Seq::new(s.len(), |i: int| s[i].index as int)
}

/// A sequence of bells is a valid row when it contains every bell below its length exactly once.
pub open spec fn valid_bells(s: Seq<Bell>) -> bool {
    is_perm(indices(s))
}

/// Rounds on `n` bells: `0, 1, ..., n - 1`.
pub open spec fn rounds_bells(n: nat) -> Seq<Bell> {
    Seq::new(n, |i: int| Bell { index: i as usize })
}

/// `a` permuted by `b`: the `i`th bell is the bell of `a` at the place given by `b[i]`.
pub open spec fn permuted(a: Seq<Bell>, b: Seq<Bell>) -> Seq<Bell> {
    Seq::new(b.len(), |i: int| a[b[i].index as int])
}

/// `s` followed by the bells from `s.len()` up to (but excluding) `n`.
pub open spec fn extended_to(s: Seq<Bell>, n: nat) -> Seq<Bell> {
    if s.len() >= n {
        s
    } else {
        s + Seq::new((n - s.len()) as nat, |i: int| Bell { index: (s.len() + i) as usize })
    }
}

/// The concatenated names of a sequence of bells.
pub open spec fn bells_string(s: Seq<Bell>) -> Seq<char>
    decreases s.len(),
{
    if s.len() == 0 {
        seq![]
    } else {
        bells_string(s.drop_last()) + bell_name_spec(s.last().idx())
    }
}

/// All the possible ways that a [`Row`] could be invalid.
#[derive(Debug, Clone, PartialEq, Eq, Structural, Hash)]
pub enum InvalidRowError {
    /// A [`Bell`] would appear twice in the new [`Row`] (for example in `113456` or `4152357`).
    DuplicateBell(Bell),
    /// A [`Bell`] is not within the range of the [`Stage`] of the new [`Row`] (for example `7` in
    /// `12745` or `5` in `5432`).
    BellOutOfStage(Bell, Stage),
    /// A given Bell would be missing from the [`Row`].  This is only generated if we already know
    /// the [`Stage`] of the new [`Row`].
    MissingBell(Bell),
}

/// The message describing an invalid row error.
pub open spec fn error_message(e: InvalidRowError) -> Seq<char> {
    match e {
        InvalidRowError::DuplicateBell(b) => "Bell '"@ + bell_name_spec(b.idx()) + "' appears twice."@,
        InvalidRowError::BellOutOfStage(b, stage) => "Bell '"@ + bell_name_spec(b.idx())
            + "' is not within the stage "@ + stage_text(stage),
        InvalidRowError::MissingBell(b) => "Bell '"@ + bell_name_spec(b.idx()) + "' is missing"@,
    }
}

impl InvalidRowError {
    /// The bell that this error is about.
    pub open spec fn bell(self) -> Bell {
        match self {
            InvalidRowError::DuplicateBell(b) => b,
            InvalidRowError::BellOutOfStage(b, _) => b,
            InvalidRowError::MissingBell(b) => b,
        }
    }

    /// Describes this error in words (as it is shown to the user).
    pub fn to_string(&self) -> (s: String)
        ensures
            s@ == error_message(*self),
    {
        let mut s = String::new();
        s.append("Bell '");
        match self {
            InvalidRowError::DuplicateBell(b) => {
                b.push_name(&mut s);
                s.append("' appears twice.");
            },
            InvalidRowError::BellOutOfStage(b, stage) => {
                b.push_name(&mut s);
                s.append("' is not within the stage ");
                let st = stage.to_string();
                s.append(st.as_str());
            },
            InvalidRowError::MissingBell(b) => {
                b.push_name(&mut s);
                s.append("' is missing");
            },
        }
        proof {
            assert(s@ =~= error_message(*self));
        }
        s
    }
}

/// The bell at position `i` of `s` is out of the stage, or repeats an earlier bell.
pub open spec fn is_bad(s: Seq<Bell>, stage: Stage, i: int) -> bool {
    s[i].index >= stage.num_bells || exists|j: int| 0 <= j < i && s[j].index == s[i].index
}

/// The error that the bell at position `i` of `s` gives rise to.
pub open spec fn error_at(s: Seq<Bell>, stage: Stage, i: int) -> InvalidRowError {
    if s[i].index >= stage.num_bells {
        InvalidRowError::BellOutOfStage(s[i], stage)
    } else {
        InvalidRowError::DuplicateBell(s[i])
    }
}

/// Scanning the first `k` bells of `s` from the front, the error given by the first bell that is
/// out of the stage or repeats an earlier bell.
pub open spec fn first_error(s: Seq<Bell>, stage: Stage, k: nat) -> Option<InvalidRowError>
    decreases k,
{
    if k == 0 {
        None
    } else {
        match first_error(s, stage, (k - 1) as nat) {
            Some(e) => Some(e),
            None => if is_bad(s, stage, k - 1) {
                Some(error_at(s, stage, k - 1))
            } else {
                None
            },
        }
    }
}

/// The largest index of any bell in `s` (0 if `s` is empty).
pub open spec fn max_index(s: Seq<Bell>) -> nat
    decreases s.len(),
{
    if s.len() == 0 {
        0
    } else {
        let m = max_index(s.drop_last());
        if s.last().index > m {
            s.last().index as nat
        } else {
            m
        }
    }
}

/// The smallest index below `k` that no bell of `s` has.
pub open spec fn first_missing(s: Seq<Bell>, k: nat) -> Option<nat>
    decreases k,
{
    if k == 0 {
        None
    } else {
        match first_missing(s, (k - 1) as nat) {
            Some(v) => Some(v),
            None => if indices(s).contains(k - 1) {
                None
            } else {
                Some((k - 1) as nat)
            },
        }
    }
}

/* ========== LEMMAS ========== */

proof fn lemma_first_error_none(s: Seq<Bell>, stage: Stage, k: nat)
    requires
        k <= s.len(),
    ensures
        first_error(s, stage, k) is None <==> forall|i: int| 0 <= i < k ==> !is_bad(s, stage, i),
    decreases k,
{
    if k > 0 {
        lemma_first_error_none(s, stage, (k - 1) as nat);
    }
}

proof fn lemma_first_error_extend(s: Seq<Bell>, stage: Stage, k: nat)
    requires
        k < s.len(),
        first_error(s, stage, k) is None,
    ensures
        first_error(s, stage, k + 1) == (if is_bad(s, stage, k as int) {
            Some(error_at(s, stage, k as int))
        } else {
            None::<InvalidRowError>
        }),
{
    assert(((k + 1) - 1) as nat == k);
}

/// No bell of `s` is bad exactly when `s` has distinct bells, all within the stage.
proof fn lemma_no_bad(s: Seq<Bell>, stage: Stage)
    ensures
        (forall|i: int| 0 <= i < s.len() ==> !is_bad(s, stage, i)) <==> (in_range(
            indices(s),
            stage.num_bells as int,
        ) && distinct(indices(s))),
{
    let ix = indices(s);
    if forall|i: int| 0 <= i < s.len() ==> !is_bad(s, stage, i) {
        assert forall|i: int, j: int|
            0 <= i < ix.len() && 0 <= j < ix.len() && i != j implies #[trigger] ix[i]
            != #[trigger] ix[j] by {
            if i < j {
                assert(!is_bad(s, stage, j));
            } else {
                assert(!is_bad(s, stage, i));
            }
        }
        assert forall|i: int| 0 <= i < ix.len() implies 0 <= #[trigger] ix[i]
            < stage.num_bells by {
            assert(!is_bad(s, stage, i));
        }
    }
    if in_range(ix, stage.num_bells as int) && distinct(ix) {
        assert forall|i: int| 0 <= i < s.len() implies !is_bad(s, stage, i) by {
            assert(0 <= ix[i] < stage.num_bells);
            if exists|j: int| 0 <= j < i && s[j].index == s[i].index {
                let j = choose|j: int| 0 <= j < i && s[j].index == s[i].index;
                assert(ix[j] == ix[i]);
            }
        }
    }
}

/// The bells of `s` are valid exactly when scanning them with the stage `s.len()` finds no error.
pub proof fn lemma_first_error_valid(s: Seq<Bell>)
    requires
        s.len() <= usize::MAX,
    ensures
        first_error(s, Stage { num_bells: s.len() as usize }, s.len()) is None <==> valid_bells(s),
{
    let stage = Stage { num_bells: s.len() as usize };
    lemma_first_error_none(s, stage, s.len());
    lemma_no_bad(s, stage);
    assert(indices(s).len() == s.len());
}

proof fn lemma_max_index(s: Seq<Bell>)
    ensures
        forall|j: int| 0 <= j < s.len() ==> s[j].index <= max_index(s),
        s.len() > 0 ==> exists|j: int| 0 <= j < s.len() && s[j].index == max_index(s),
    decreases s.len(),
{
    if s.len() > 0 {
        let t = s.drop_last();
        lemma_max_index(t);
        assert forall|j: int| 0 <= j < s.len() implies s[j].index <= max_index(s) by {
            if j < s.len() - 1 {
                assert(s[j] == t[j]);
            }
        }
        if s.last().index > max_index(t) {
            assert(s[s.len() - 1].index == max_index(s));
        } else if t.len() > 0 {
            let j = choose|j: int| 0 <= j < t.len() && t[j].index == max_index(t);
            assert(s[j] == t[j]);
        } else {
            assert(s[0].index == max_index(s));
        }
    }
}

proof fn lemma_max_index_below(s: Seq<Bell>, k: nat)
    requires
        forall|i: int| 0 <= i < s.len() ==> (#[trigger] s[i]).index < k,
    ensures
        max_index(s) <= k,
    decreases s.len(),
{
    if s.len() > 0 {
        let d = s.drop_last();
        assert forall|i: int| 0 <= i < d.len() implies (#[trigger] d[i]).index < k by {
            assert(d[i] == s[i]);
        }
        lemma_max_index_below(d, k);
        assert(s.last() == s[s.len() - 1]);
    }
}

/// Checking a valid row against its own stage never fails.
pub proof fn lemma_valid_row_checks(s: Seq<Bell>)
    requires
        valid_bells(s),
        s.len() <= usize::MAX,
    ensures
        forall|e: InvalidRowError| !checked_with_stage(s, Stage { num_bells: s.len() as usize }, Err(e)),
{
    lemma_first_error_valid(s);
    lemma_perm_surjective(indices(s));
    assert forall|i: int| 0 <= i < s.len() implies (#[trigger] s[i]).index < s.len() by {
        assert(indices(s)[i] == s[i].index);
    }
    lemma_max_index_below(s, s.len());
    lemma_first_missing_none(s, max_index(s));
}

proof fn lemma_first_missing_none(s: Seq<Bell>, k: nat)
    ensures
        first_missing(s, k) is None <==> forall|v: int| 0 <= v < k ==> indices(s).contains(v),
    decreases k,
{
    if k > 0 {
        lemma_first_missing_none(s, (k - 1) as nat);
    }
}

/// If the bells of `s` are distinct and lie within `n`, and every index below the largest one
/// occurs, then `s` followed by the bells from `s.len()` up to `n` is a valid row of `n` bells.
proof fn lemma_extend_valid(s: Seq<Bell>, n: nat)
    requires
        in_range(indices(s), n as int),
        distinct(indices(s)),
        first_missing(s, max_index(s)) is None,
        n <= usize::MAX,
    ensures
        s.len() <= n,
        valid_bells(extended_to(s, n)),
        extended_to(s, n).len() == n,
{
    let ix = indices(s);
    lemma_distinct_in_range(ix, n as int);
    lemma_max_index(s);
    lemma_first_missing_none(s, max_index(s));
    if s.len() > 0 {
        let m = max_index(s) as int;
        // Every value of `0..=m` occurs in `s`, so `s` has at least `m + 1` bells
        assert forall|v: int| #[trigger] set_int_range(0, m + 1).contains(v) implies ix.to_set().contains(v) by {
            if v == m {
                let j = choose|j: int| 0 <= j < s.len() && s[j].index == max_index(s);
                assert(ix[j] == v);
            }
        }
        lemma_int_range(0, m + 1);
        assert(ix.no_duplicates());
        ix.unique_seq_to_set();
        lemma_len_subset(set_int_range(0, m + 1), ix.to_set());
        assert forall|i: int| 0 <= i < ix.len() implies 0 <= #[trigger] ix[i] < s.len() by {
            assert(s[i].index <= m);
        }
    }
    let e = extended_to(s, n);
    let ie = indices(e);
    assert forall|i: int| s.len() <= i < ie.len() implies #[trigger] ie[i] == i by {
        assert(e[i] == Bell { index: (s.len() + (i - s.len())) as usize });
    }
    assert forall|i: int| 0 <= i < ie.len() implies 0 <= #[trigger] ie[i] < ie.len() by {
        if i < s.len() {
            assert(e[i] == s[i]);
            assert(ix[i] == ie[i]);
        }
    }
    assert forall|i: int, j: int|
        0 <= i < ie.len() && 0 <= j < ie.len() && i != j implies #[trigger] ie[i]
        != #[trigger] ie[j] by {
        if i < s.len() && j < s.len() {
            assert(ix[i] != ix[j]);
        } else if i < s.len() {
            assert(ix[i] < s.len());
        } else if j < s.len() {
            assert(ix[j] < s.len());
        }
    }
}

/// The product of two valid rows of the same length is a valid row.
pub proof fn lemma_permuted_valid(a: Seq<Bell>, b: Seq<Bell>)
    requires
        valid_bells(a),
        valid_bells(b),
        a.len() == b.len(),
    ensures
        valid_bells(permuted(a, b)),
        indices(permuted(a, b)) == compose(indices(a), indices(b)),
{
    assert(indices(permuted(a, b)) =~= compose(indices(a), indices(b)));
    lemma_compose_perm(indices(a), indices(b));
}

/// Rounds is a valid row.
pub proof fn lemma_rounds_valid(n: nat)
    requires
        n <= usize::MAX,
    ensures
        valid_bells(rounds_bells(n)),
        indices(rounds_bells(n)) == identity(n),
{
    assert(indices(rounds_bells(n)) =~= identity(n));
}

/* ========== ERRORS ========== */

/// An error created when two [`Row`]s of different [`Stage`]s were combined.
#[derive(Copy, Clone, Debug, Eq, PartialEq, Structural, Hash)]
pub struct IncompatibleStages {
    /// The [`Stage`] of the [`Row`] that was being permuted
    pub lhs_stage: Stage,
    /// The [`Stage`] of the [`Row`] that was doing the permuting
    pub rhs_stage: Stage,
}

impl IncompatibleStages {
    /// Compares two [`Stage`]s, returning `Ok(())` if they are equal and returning the appropriate
    /// `IncompatibleStages` error if not.
    pub fn test_err(lhs_stage: Stage, rhs_stage: Stage) -> (r: Result<(), IncompatibleStages>)
        ensures
            lhs_stage == rhs_stage ==> r is Ok,
            lhs_stage != rhs_stage ==> r == Err::<(), IncompatibleStages>(
                IncompatibleStages { lhs_stage, rhs_stage },
            ),
    {
        if lhs_stage.num_bells == rhs_stage.num_bells {
            Ok(())
        } else {
            Err(IncompatibleStages { lhs_stage, rhs_stage })
        }
    }

    /// Describes this error in words (as it is shown to the user).
    pub fn to_string(&self) -> (s: String)
        ensures
            s@ == incompatible_stages_message(*self),
    {
        let mut s = String::new();
        s.append("Incompatible stages: ");
        let l = self.lhs_stage.to_string();
        s.append(l.as_str());
        s.append(" (lhs), ");
        let r = self.rhs_stage.to_string();
        s.append(r.as_str());
        s.append(" (rhs)");
        proof {
            assert(s@ =~= incompatible_stages_message(*self));
        }
        s
    }
}

/// The message describing two incompatible stages.
pub open spec fn incompatible_stages_message(e: IncompatibleStages) -> Seq<char> {
    "Incompatible stages: "@ + stage_text(e.lhs_stage) + " (lhs), "@ + stage_text(e.rhs_stage) + " (rhs)"@
}

/* ========== VALIDITY CHECKS ========== */

/// Scans `bells` from the front, stopping at the first bell that is out of `stage` or repeats an
/// earlier bell.  On success, returns which bells of the stage were seen and the largest index.
fn scan_bells(bells: &Vec<Bell>, stage: Stage) -> (r: Result<(Vec<bool>, usize), InvalidRowError>)
    ensures
        match first_error(bells@, stage, bells@.len()) {
            Some(e) => r == Err::<(Vec<bool>, usize), InvalidRowError>(e),
            None => r matches Ok((checklist, biggest)) && checklist@.len() == stage.num_bells
                && biggest == max_index(bells@) && (forall|v: int|
                0 <= v < stage.num_bells ==> (#[trigger] checklist@[v] <==> indices(
                bells@,
            ).contains(v))),
        },
{
    let n = stage.num_bells;
    let mut checklist: Vec<bool> = Vec::new();
    let mut k: usize = 0;
    while k < n
        invariant
            k <= n,
            checklist@.len() == k,
            forall|v: int| 0 <= v < k ==> !#[trigger] checklist@[v],
        decreases n - k,
    {
        checklist.push(false);
        k += 1;
    }
    let mut biggest: usize = 0;
    let mut i: usize = 0;
    while i < bells.len()
        invariant
            i <= bells@.len(),
            n == stage.num_bells,
            checklist@.len() == n,
            first_error(bells@, stage, i as nat) is None,
            biggest == max_index(bells@.take(i as int)),
            forall|v: int|
                0 <= v < n ==> (#[trigger] checklist@[v] <==> exists|j: int|
                    0 <= j < i && bells@[j].index == v),
        decreases bells@.len() - i,
    {
        let b = bells[i];
        proof {
            lemma_first_error_extend(bells@, stage, i as nat);
        }
        if b.index >= n {
            proof {
                lemma_first_error_stays(bells@, stage, (i + 1) as nat, bells@.len());
            }
            return Err(InvalidRowError::BellOutOfStage(b, stage));
        }
        if checklist[b.index] {
            proof {
                lemma_first_error_stays(bells@, stage, (i + 1) as nat, bells@.len());
            }
            return Err(InvalidRowError::DuplicateBell(b));
        }
        checklist.set(b.index, true);
        proof {
            assert(bells@.take(i + 1).drop_last() =~= bells@.take(i as int));
        }
        if b.index > biggest {
            biggest = b.index;
        }
        i += 1;
    }
    proof {
        assert(bells@.take(i as int) =~= bells@);
        assert forall|v: int| 0 <= v < n implies (#[trigger] checklist@[v] <==> indices(
            bells@,
        ).contains(v)) by {
            if checklist@[v] {
                let j = choose|j: int| 0 <= j < i && bells@[j].index == v;
                assert(indices(bells@)[j] == v);
            }
        }
    }
    Ok((checklist, biggest))
}

proof fn lemma_first_error_stays(s: Seq<Bell>, stage: Stage, k: nat, m: nat)
    requires
        k <= m,
        first_error(s, stage, k) is Some,
    ensures
        first_error(s, stage, m) == first_error(s, stage, k),
    decreases m - k,
{
    if m > k {
        lemma_first_error_stays(s, stage, k, (m - 1) as nat);
    }
}

/// The outcome of checking a sequence of bells with [`Row::from_vec`]: the first bell that is out
/// of range or repeated gives the error, and otherwise the row is made of exactly these bells.
pub open spec fn checked(s: Seq<Bell>, r: Result<Row, InvalidRowError>) -> bool {
    match first_error(s, Stage { num_bells: s.len() as usize }, s.len()) {
        Some(e) => r == Err::<Row, InvalidRowError>(e),
        None => r matches Ok(row) && row@ == s,
    }
}

/// The error that checking a sequence of bells against a given stage reports, if any: the first
/// bell that is out of the stage or repeated, and otherwise the smallest missing bell below the
/// largest given one.
pub open spec fn stage_check_error(s: Seq<Bell>, stage: Stage) -> Option<InvalidRowError> {
    match first_error(s, stage, s.len()) {
        Some(e) => Some(e),
        None => match first_missing(s, max_index(s)) {
            Some(v) => Some(InvalidRowError::MissingBell(Bell { index: v as usize })),
            None => None,
        },
    }
}

/// The outcome of checking a sequence of bells against a given stage with
/// [`Row::parse_with_stage`]: the first bell that is out of the stage or repeated gives the
/// error; otherwise the smallest index below the largest bell that does not occur is reported as
/// missing; otherwise the row is these bells followed by the remaining bells of the stage (so it
/// has exactly the stage's number of bells).
pub open spec fn checked_with_stage(
    s: Seq<Bell>,
    stage: Stage,
    r: Result<Row, InvalidRowError>,
) -> bool {
    match first_error(s, stage, s.len()) {
        Some(e) => r == Err::<Row, InvalidRowError>(e),
        None => match first_missing(s, max_index(s)) {
            Some(v) => r == Err::<Row, InvalidRowError>(
                InvalidRowError::MissingBell(Bell { index: v as usize }),
            ),
            None => r matches Ok(row) && row@ == extended_to(s, stage.num_bells as nat)
                && row@.len() == stage.num_bells,
        },
    }
}

/// The bells of the inverse of the row `s`.
pub open spec fn inverse_bells(s: Seq<Bell>) -> Seq<Bell> {
    Seq::new(s.len(), |i: int| Bell { index: inverse(indices(s))[i] as usize })
}

/// The bells of the inverse of a valid row are the inverse of its bells.
pub proof fn lemma_inverse_bells(s: Seq<Bell>)
    requires
        valid_bells(s),
        s.len() <= usize::MAX,
    ensures
        indices(inverse_bells(s)) == inverse(indices(s)),
        valid_bells(inverse_bells(s)),
{
    lemma_inverse(indices(s));
    assert forall|i: int| 0 <= i < s.len() implies #[trigger] indices(inverse_bells(s))[i] == inverse(indices(s))[i] by {
        assert(0 <= inverse(indices(s))[i] < s.len());
    }
    assert(indices(inverse_bells(s)) =~= inverse(indices(s)));
}

/* ========== ROWS ========== */

/// A single `Row` of [`Bell`]s.
///
/// This can be viewed as a permutation of [rounds](Row::rounds) on a given [`Stage`].  A `Row`
/// must always be valid: it contains every [`Bell`] up to its [`Stage`] once and precisely once.
/// This is checked in the constructors and then used as assumed knowledge to avoid further checks.
#[derive(Eq, PartialEq, PartialOrd, Ord, Hash, Debug)]
pub struct Row {
    /// The [`Bell`]s in the order that they would be rung.
    bells: Vec<Bell>,
}

impl View for Row {
    type V = Seq<Bell>;

    closed spec fn view(&self) -> Seq<Bell> {
        self.bells@
    }
}

/// A copy of a sequence of bells.
fn copy_bells(v: &[Bell]) -> (r: Vec<Bell>)
    ensures
        r@ == v@,
{
    let mut bells: Vec<Bell> = Vec::new();
    let mut i: usize = 0;
    while i < v.len()
        invariant
            i <= v@.len(),
            bells@ == v@.take(i as int),
        decreases v@.len() - i,
    {
        bells.push(v[i]);
        proof {
            assert(v@.take(i + 1) =~= v@.take(i as int).push(v@[i as int]));
        }
        i += 1;
    }
    proof {
        assert(v@.take(i as int) =~= v@);
    }
    bells
}

impl Clone for Row {
    fn clone(&self) -> (r: Row)
        ensures
            r@ == self@,
    {
        proof {
            use_type_invariant(self);
        }
        Row { bells: copy_bells(self.bells.as_slice()) }
    }
}

impl Row {
    #[verifier::type_invariant]
    spec fn is_valid(self) -> bool {
        valid_bells(self.bells@)
    }

    /// Checks the validity of a potential `Row`, returning it if valid and returning an
    /// [`InvalidRowError`] otherwise.
    fn check_validity(bells: Vec<Bell>) -> (r: Result<Row, InvalidRowError>)
        ensures
            checked(bells@, r),
    {
        let stage = Stage::new(bells.len());
        match scan_bells(&bells, stage) {
            Err(e) => Err(e),
            Ok(_) => {
                proof {
                    lemma_first_error_valid(bells@);
                }
                Ok(Row { bells })
            },
        }
    }

    /// Checks the validity of a potential `Row`, extending it to the given [`Stage`] if valid and
    /// returning an [`InvalidRowError`] otherwise.  This gives nicer errors than
    /// [`Row::check_validity`], because it knows the desired [`Stage`] of the potential `Row`.
    fn check_validity_with_stage(bells: Vec<Bell>, stage: Stage) -> (r: Result<Row, InvalidRowError>)
        ensures
            checked_with_stage(bells@, stage, r),
    {
        let n = stage.num_bells;
        let (checklist, biggest) = match scan_bells(&bells, stage) {
            Err(e) => {
                return Err(e);
            },
            Ok(x) => x,
        };
        assert(first_error(bells@, stage, bells@.len()) is None);
        proof {
            lemma_first_error_none(bells@, stage, bells@.len());
            lemma_no_bad(bells@, stage);
            lemma_max_index(bells@);
            if bells@.len() > 0 {
                let j = choose|j: int| 0 <= j < bells@.len() && bells@[j].index == max_index(bells@);
                assert(indices(bells@)[j] == max_index(bells@));
            }
        }
        let mut v: usize = 0;
        while v < biggest
            invariant
                v <= biggest,
                biggest == max_index(bells@),
                biggest == 0 || biggest < n,
                checklist@.len() == n,
                forall|w: int| 0 <= w < n ==> (#[trigger] checklist@[w] <==> indices(
                    bells@,
                ).contains(w)),
                first_missing(bells@, v as nat) is None,
                first_error(bells@, stage, bells@.len()) is None,
            decreases biggest - v,
        {
            if !checklist[v] {
                proof {
                    assert(!indices(bells@).contains(v as int));
                    assert(first_missing(bells@, (v + 1) as nat) == Some(v as nat));
                    lemma_first_missing_stays(bells@, (v + 1) as nat, biggest as nat);
                    assert(first_missing(bells@, max_index(bells@)) == Some(v as nat));
                    assert(first_error(bells@, stage, bells@.len()) is None);
                }
                return Err(InvalidRowError::MissingBell(Bell::from_index(v)));
            }
            v += 1;
        }
        proof {
            lemma_extend_valid(bells@, n as nat);
        }
        let mut bells = bells;
        let ghost orig = bells@;
        let mut k: usize = bells.len();
        while k < n
            invariant
                orig.len() <= k <= n,
                bells@ == orig + Seq::new((k - orig.len()) as nat, |i: int| Bell { index: (orig.len() + i) as usize }),
            decreases n - k,
        {
            bells.push(Bell::from_index(k));
            k += 1;
            proof {
                assert(bells@ =~= orig + Seq::new((k - orig.len()) as nat, |i: int| Bell { index: (orig.len() + i) as usize }));
            }
        }
        proof {
            assert(bells@ =~= extended_to(orig, n as nat));
        }
        Ok(Row { bells })
    }

    /// Creates rounds on a given [`Stage`].
    pub fn rounds(stage: Stage) -> (r: Row)
        ensures
            r@ == rounds_bells(stage.num_bells as nat),
    {
        let mut bells: Vec<Bell> = Vec::new();
        let mut i: usize = 0;
        while i < stage.num_bells
            invariant
                i <= stage.num_bells,
                bells@ == rounds_bells(i as nat),
            decreases stage.num_bells - i,
        {
            bells.push(Bell::from_index(i));
            i += 1;
            proof {
                assert(bells@ =~= rounds_bells(i as nat));
            }
        }
        proof {
            lemma_rounds_valid(stage.num_bells as nat);
        }
        Row { bells }
    }

    /// Creates a `Row` from a [`Vec`] of [`Bell`]s, **without** checking that the resulting `Row`
    /// is valid.  The caller must make sure that the bells form a valid row.
    pub fn from_vec_unchecked(bells: Vec<Bell>) -> (r: Row)
        requires
            valid_bells(bells@),
        ensures
            r@ == bells@,
    {
        Row { bells }
    }

    /// Creates a `Row` from a [`Vec`] of [`Bell`]s, checking that the resulting `Row` is valid.
    pub fn from_vec(bells: Vec<Bell>) -> (r: Result<Row, InvalidRowError>)
        ensures
            checked(bells@, r),
    {
        Self::check_validity(bells)
    }

    /// Returns the [`Stage`] of this `Row`.  Every `Row` is valid, so this also says so.
    pub fn stage(&self) -> (s: Stage)
        ensures
            s.num_bells == self@.len(),
            valid_bells(self@),
    {
        proof {
            use_type_invariant(self);
        }
        Stage::new(self.bells.len())
    }

    /// Returns an immutable reference to the underlying slice of [`Bell`]s that makes up this
    /// `Row`.
    pub fn slice(&self) -> (s: &[Bell])
        ensures
            s@ == self@,
            valid_bells(self@),
    {
        proof {
            use_type_invariant(self);
        }
        self.bells.as_slice()
    }
}

/// Backrounds on `n` bells: `n - 1, ..., 1, 0`.
pub open spec fn backrounds_bells(n: nat) -> Seq<Bell> {
    Seq::new(n, |i: int| Bell { index: (n - 1 - i) as usize })
}

/// Queens on `n` bells: the odd-numbered bells in order, then the even-numbered ones (as
/// 0-indexed positions: the even indices, then the odd ones).
pub open spec fn queens_bells(n: nat) -> Seq<Bell> {
    let evens = (n + 1) / 2;
    Seq::new(n, |i: int| Bell { index: (if i < evens { 2 * i } else { 2 * (i - evens) + 1 }) as usize })
}

/// `n` to the power `k`.
pub open spec fn nat_pow(n: nat, k: nat) -> nat
    decreases k,
{
    if k == 0 {
        1
    } else {
        n * nat_pow(n, (k - 1) as nat)
    }
}

/// The first `k` bells of `s` read as a number in base `n`, with the first bell as the least
/// significant digit.  [`Row::fast_hash`] computes this for the whole row, with `n` its stage.
pub open spec fn hash_value(s: Seq<Bell>, n: nat, k: nat) -> nat
    decreases k,
{
    if k == 0 {
        0
    } else {
        hash_value(s, n, (k - 1) as nat) + (s[k - 1].index as nat) * nat_pow(n, (k - 1) as nat)
    }
}

proof fn lemma_nat_pow_pos(n: nat, a: nat)
    requires
        n >= 1,
    ensures
        nat_pow(n, a) >= 1,
    decreases a,
{
    if a > 0 {
        lemma_nat_pow_pos(n, (a - 1) as nat);
        let p = nat_pow(n, (a - 1) as nat);
        assert(n * p >= 1) by (nonlinear_arith)
            requires
                n >= 1,
                p >= 1,
        ;
    }
}

proof fn lemma_nat_pow_mono(n: nat, a: nat, b: nat)
    requires
        n >= 1,
        a <= b,
    ensures
        1 <= nat_pow(n, a) <= nat_pow(n, b),
    decreases b,
{
    if b > a {
        lemma_nat_pow_mono(n, a, (b - 1) as nat);
        let p = nat_pow(n, (b - 1) as nat);
        assert(p <= n * p) by (nonlinear_arith)
            requires
                n >= 1,
        ;
    } else {
        lemma_nat_pow_pos(n, a);
    }
}

proof fn lemma_hash_step(s: Seq<Bell>, n: nat, i: nat)
    requires
        i < s.len(),
        s[i as int].index < n,
        hash_value(s, n, i) < nat_pow(n, i),
    ensures
        hash_value(s, n, i + 1) < nat_pow(n, i + 1),
{
    let m = nat_pow(n, i);
    let b = s[i as int].index as nat;
    assert(((i + 1) - 1) as nat == i);
    assert(hash_value(s, n, i + 1) == hash_value(s, n, i) + b * m);
    assert(nat_pow(n, i + 1) == n * m);
    assert(hash_value(s, n, i) + b * m < n * m) by (nonlinear_arith)
        requires
            hash_value(s, n, i) < m,
            b + 1 <= n,
    ;
}

proof fn lemma_hash_bound(s: Seq<Bell>, n: nat, k: nat)
    requires
        k <= s.len(),
        forall|i: int| 0 <= i < k ==> (#[trigger] s[i]).index < n,
    ensures
        hash_value(s, n, k) < nat_pow(n, k),
    decreases k,
{
    if k > 0 {
        lemma_hash_bound(s, n, (k - 1) as nat);
        lemma_hash_step(s, n, (k - 1) as nat);
    }
}

proof fn lemma_hash_prefix_injective(a: Seq<Bell>, b: Seq<Bell>, n: nat, k: nat)
    requires
        k <= a.len(),
        k <= b.len(),
        forall|i: int| 0 <= i < k ==> (#[trigger] a[i]).index < n,
        forall|i: int| 0 <= i < k ==> (#[trigger] b[i]).index < n,
        hash_value(a, n, k) == hash_value(b, n, k),
    ensures
        forall|i: int| 0 <= i < k ==> a[i] == b[i],
    decreases k,
{
    if k > 0 {
        let j = (k - 1) as nat;
        lemma_hash_bound(a, n, j);
        lemma_hash_bound(b, n, j);
        let p = nat_pow(n, j);
        let x = hash_value(a, n, j);
        let y = hash_value(b, n, j);
        let da = a[j as int].index as nat;
        let db = b[j as int].index as nat;
        assert(x + da * p == y + db * p);
        assert(da == db && x == y) by (nonlinear_arith)
            requires
                x < p,
                y < p,
                x + da * p == y + db * p,
        {
            if da < db {
                assert(da * p + p <= db * p);
            } else if db < da {
                assert(db * p + p <= da * p);
            }
        }
        lemma_hash_prefix_injective(a, b, n, j);
        assert(a[j as int] == b[j as int]);
    }
}

/// [`Row::fast_hash`] is collision-free: two valid rows of the same stage with the same hash are
/// the same row.
pub proof fn law_fast_hash_injective(a: Seq<Bell>, b: Seq<Bell>)
    requires
        valid_bells(a),
        valid_bells(b),
        a.len() == b.len(),
        hash_value(a, a.len(), a.len()) == hash_value(b, b.len(), b.len()),
    ensures
        a == b,
{
    let n = a.len();
    assert forall|i: int| 0 <= i < n implies (#[trigger] a[i]).index < n by {
        assert(indices(a)[i] == a[i].index);
    }
    assert forall|i: int| 0 <= i < n implies (#[trigger] b[i]).index < n by {
        assert(indices(b)[i] == b[i].index);
    }
    lemma_hash_prefix_injective(a, b, n, n);
    assert(a =~= b);
}

impl Row {
    /// Creates backrounds on a given [`Stage`].
    pub fn backrounds(stage: Stage) -> (r: Row)
        ensures
            r@ == backrounds_bells(stage.num_bells as nat),
    {
        let n = stage.num_bells;
        let mut bells: Vec<Bell> = Vec::new();
        let mut i: usize = 0;
        while i < n
            invariant
                i <= n,
                n == stage.num_bells,
                bells@ =~= backrounds_bells(n as nat).take(i as int),
            decreases n - i,
        {
            bells.push(Bell::from_index(n - 1 - i));
            i += 1;
            proof {
                assert(bells@ =~= backrounds_bells(n as nat).take(i as int));
            }
        }
        proof {
            assert(bells@ =~= backrounds_bells(n as nat));
            let ix = indices(bells@);
            assert forall|a: int, b: int|
                0 <= a < ix.len() && 0 <= b < ix.len() && a != b implies #[trigger] ix[a]
                != #[trigger] ix[b] by {}
        }
        Row { bells }
    }

    /// Creates Queens on a given [`Stage`].
    pub fn queens(stage: Stage) -> (r: Row)
        ensures
            r@ == queens_bells(stage.num_bells as nat),
    {
        let n = stage.num_bells;
        let evens = n / 2 + n % 2;
        let mut bells: Vec<Bell> = Vec::new();
        let mut i: usize = 0;
        while i < n
            invariant
                i <= n,
                n == stage.num_bells,
                evens == (n + 1) / 2,
                bells@ =~= queens_bells(n as nat).take(i as int),
            decreases n - i,
        {
            if i < evens {
                bells.push(Bell::from_index(2 * i));
            } else {
                bells.push(Bell::from_index(2 * (i - evens) + 1));
            }
            i += 1;
            proof {
                assert(bells@ =~= queens_bells(n as nat).take(i as int));
            }
        }
        proof {
            assert(bells@ =~= queens_bells(n as nat));
            let ix = indices(bells@);
            assert forall|a: int| 0 <= a < ix.len() implies 0 <= #[trigger] ix[a] < ix.len() by {}
            assert forall|a: int, b: int|
                0 <= a < ix.len() && 0 <= b < ix.len() && a != b implies #[trigger] ix[a]
                != #[trigger] ix[b] by {}
        }
        Row { bells }
    }

    /// Parse a string into a `Row`, skipping any `char`s that aren't valid bell names.  This
    /// returns `Err(`[`InvalidRowError`]`)` if the `Row` would be invalid.
    pub fn parse(s: &str) -> (r: Result<Row, InvalidRowError>)
        ensures
            checked(parsed_bells(s@), r),
    {
        Self::from_vec(parse_bells(s))
    }

    /// Parse a string into a `Row`, extending to the given [`Stage`] if required and skipping any
    /// `char`s that aren't valid bell names.  This returns `Err(`[`InvalidRowError`]`)` if the
    /// `Row` would be invalid.
    pub fn parse_with_stage(s: &str, stage: Stage) -> (r: Result<Row, InvalidRowError>)
        ensures
            checked_with_stage(parsed_bells(s@), stage, r),
    {
        Self::check_validity_with_stage(parse_bells(s), stage)
    }

    /// Creates a `Row` from a sequence of [`Bell`]s, performing the validity check.
    pub fn from_iter_checked(bells: &[Bell]) -> (r: Result<Row, InvalidRowError>)
        ensures
            checked(bells@, r),
    {
        let v = copy_bells(bells);
        Self::from_vec(v)
    }

    /// Returns the [`Bell`]s in this `Row`, in order.
    pub fn bells(&self) -> (v: Vec<Bell>)
        ensures
            v@ == self@,
    {
        copy_bells(self.slice())
    }

    /// Returns the [`Bell`]s in this `Row`, in order.
    pub fn bell_iter(&self) -> (v: Vec<Bell>)
        ensures
            v@ == self@,
    {
        self.bells()
    }

    /// Returns the [`Bell`] at a given place in this `Row`.
    pub fn bell_at(&self, place: usize) -> (b: Bell)
        requires
            place < self@.len(),
        ensures
            b == self@[place as int],
    {
        self.bells[place]
    }

    /// Checks that this `Row` is equal to rounds.
    pub fn is_rounds(&self) -> (b: bool)
        ensures
            b == (indices(self@) == identity(self@.len())),
            b == (self@ == rounds_bells(self@.len())),
    {
        let mut i: usize = 0;
        while i < self.bells.len()
            invariant
                i <= self.bells@.len(),
                forall|j: int| 0 <= j < i ==> self.bells@[j].index == j,
            decreases self.bells@.len() - i,
        {
            if self.bells[i].index != i {
                proof {
                    assert(indices(self@)[i as int] != identity(self@.len())[i as int]);
                    assert(self@[i as int] != rounds_bells(self@.len())[i as int]);
                }
                return false;
            }
            i += 1;
        }
        proof {
            assert(indices(self@) =~= identity(self@.len()));
            assert(self@ =~= rounds_bells(self@.len()));
        }
        true
    }

    /// Multiply two `Row`s (i.e. use the RHS to permute the LHS), checking that the [`Stage`]s are
    /// compatible.
    pub fn mul(&self, rhs: &Row) -> (r: Result<Row, IncompatibleStages>)
        ensures
            self@.len() == rhs@.len() ==> (r matches Ok(p) && p@ == permuted(self@, rhs@)),
            self@.len() != rhs@.len() ==> r == Err::<Row, IncompatibleStages>(
                IncompatibleStages {
                    lhs_stage: Stage { num_bells: self@.len() as usize },
                    rhs_stage: Stage { num_bells: rhs@.len() as usize },
                },
            ),
    {
        match IncompatibleStages::test_err(self.stage(), rhs.stage()) {
            Err(e) => Err(e),
            Ok(()) => Ok(self.mul_unchecked(rhs)),
        }
    }

    /// Multiply two `Row`s (i.e. use the RHS to permute the LHS) which have the same [`Stage`].
    pub fn mul_unchecked(&self, rhs: &Row) -> (r: Row)
        requires
            self@.len() == rhs@.len(),
        ensures
            r@ == permuted(self@, rhs@),
            indices(r@) == compose(indices(self@), indices(rhs@)),
    {
        proof {
            use_type_invariant(self);
            use_type_invariant(rhs);
        }
        let mut bells: Vec<Bell> = Vec::new();
        let mut i: usize = 0;
        while i < rhs.bells.len()
            invariant
                i <= rhs.bells@.len(),
                self.bells@.len() == rhs.bells@.len(),
                valid_bells(rhs.bells@),
                bells@ == permuted(self.bells@, rhs.bells@).take(i as int),
            decreases rhs.bells@.len() - i,
        {
            assert(indices(rhs.bells@)[i as int] == rhs.bells@[i as int].index);
            bells.push(self.bells[rhs.bells[i].index]);
            i += 1;
            proof {
                assert(bells@ =~= permuted(self.bells@, rhs.bells@).take(i as int));
            }
        }
        proof {
            assert(bells@ =~= permuted(self.bells@, rhs.bells@));
            lemma_permuted_valid(self.bells@, rhs.bells@);
        }
        Row { bells }
    }

    /// Multiply two `Row`s of the same [`Stage`], writing the result into `out`.
    pub fn mul_into_unchecked(&self, rhs: &Row, out: &mut Row)
        requires
            self@.len() == rhs@.len(),
        ensures
            final(out)@ == permuted(self@, rhs@),
    {
        *out = self.mul_unchecked(rhs);
    }

    /// Find the inverse of a `Row`.  If `X` is the input `Row`, and `Y = X.inv()`, then
    /// `XY = YX = I` where `I` is rounds on the same stage as `X`.
    pub fn inv(&self) -> (r: Row)
        ensures
            indices(r@) == inverse(indices(self@)),
            r@.len() == self@.len(),
    {
        proof {
            use_type_invariant(self);
        }
        let n = self.bells.len();
        let mut inv_bells: Vec<Bell> = Vec::new();
        let mut k: usize = 0;
        while k < n
            invariant
                k <= n,
                inv_bells@.len() == k,
            decreases n - k,
        {
            inv_bells.push(Bell::treble());
            k += 1;
        }
        let mut i: usize = 0;
        while i < n
            invariant
                i <= n,
                n == self.bells@.len(),
                inv_bells@.len() == n,
                valid_bells(self.bells@),
                forall|j: int| 0 <= j < i ==> #[trigger] inv_bells@[self.bells@[j].index as int].index == j,
            decreases n - i,
        {
            let b = self.bells[i];
            assert(indices(self.bells@)[i as int] == b.index);
            proof {
                assert forall|j: int| 0 <= j < i implies self.bells@[j].index != b.index by {
                    assert(indices(self.bells@)[j] == self.bells@[j].index);
                }
            }
            let ghost before = inv_bells@;
            inv_bells.set(b.index, Bell::from_index(i));
            proof {
                assert forall|j: int| 0 <= j < i + 1 implies #[trigger] inv_bells@[self.bells@[j].index as int].index == j by {
                    assert(indices(self.bells@)[j] == self.bells@[j].index);
                    if j < i {
                        assert(self.bells@[j].index != b.index);
                        assert(inv_bells@[self.bells@[j].index as int] == before[self.bells@[j].index as int]);
                    }
                }
            }
            i += 1;
        }
        proof {
            let s = indices(self.bells@);
            let r = indices(inv_bells@);
            assert forall|j: int| 0 <= j < s.len() implies #[trigger] r[s[j]] == j by {
                assert(s[j] == self.bells@[j].index);
                assert(inv_bells@[self.bells@[j].index as int].index == j);
            }
            lemma_inverse_unique(s, r);
            lemma_inverse(s);
        }
        Row { bells: inv_bells }
    }

    /// Finds the inverse of this `Row`, writing it into `out`.
    pub fn inv_into(&self, out: &mut Row)
        ensures
            indices(final(out)@) == inverse(indices(self@)),
            final(out)@.len() == self@.len(),
    {
        *out = self.inv();
    }

    /// Extends this `Row` in place to a given [`Stage`] by adding the missing bells in order at
    /// the back.  A larger `Row` is left unchanged.
    pub fn extend_to_stage(&mut self, stage: Stage)
        ensures
            final(self)@ == extended_to(old(self)@, stage.num_bells as nat),
    {
        proof {
            use_type_invariant(&*self);
        }
        let mut bells: Vec<Bell> = Vec::new();
        std::mem::swap(&mut bells, &mut self.bells);
        proof {
            assert(valid_bells(bells@));
        }
        let ghost orig = bells@;
        let n = stage.num_bells;
        let mut k: usize = bells.len();
        while k < n
            invariant
                orig.len() <= k,
                k <= n || k == orig.len(),
                bells@ == orig + Seq::new((k - orig.len()) as nat, |i: int| Bell { index: (orig.len() + i) as usize }),
            decreases n - k,
        {
            bells.push(Bell::from_index(k));
            k += 1;
            proof {
                assert(bells@ =~= orig + Seq::new((k - orig.len()) as nat, |i: int| Bell { index: (orig.len() + i) as usize }));
            }
        }
        proof {
            assert(bells@ =~= extended_to(orig, n as nat));
            if orig.len() < n {
                lemma_extend_valid_row(orig, n as nat);
            }
        }
        self.bells = bells;
    }

    /// Returns the place of a given [`Bell`] in this `Row`, or `None` if it does not occur.
    pub fn place_of(&self, bell: Bell) -> (p: Option<usize>)
        ensures
            p matches Some(i) ==> i < self@.len() && self@[i as int] == bell,
            p is None ==> !self@.contains(bell),
    {
        let mut i: usize = 0;
        while i < self.bells.len()
            invariant
                i <= self.bells@.len(),
                forall|j: int| 0 <= j < i ==> self.bells@[j] != bell,
            decreases self.bells@.len() - i,
        {
            if self.bells[i].index == bell.index {
                return Some(i);
            }
            i += 1;
        }
        None
    }

    /// Swaps the [`Bell`]s at two places of this `Row`.
    pub fn swap(&mut self, a: usize, b: usize)
        requires
            a < old(self)@.len(),
            b < old(self)@.len(),
        ensures
            final(self)@ == old(self)@.update(a as int, old(self)@[b as int]).update(
                b as int,
                old(self)@[a as int],
            ),
    {
        proof {
            use_type_invariant(&*self);
        }
        let mut bells: Vec<Bell> = Vec::new();
        std::mem::swap(&mut bells, &mut self.bells);
        let ghost orig = bells@;
        assert(valid_bells(orig));
        let x = bells[a];
        let y = bells[b];
        bells.set(a, y);
        bells.set(b, x);
        proof {
            let io = indices(orig);
            let ib = indices(bells@);
            assert forall|i: int| 0 <= i < ib.len() implies 0 <= #[trigger] ib[i] < ib.len() by {
                let oi = if i == b { a as int } else if i == a { b as int } else { i };
                assert(ib[i] == io[oi]);
            }
            assert forall|i: int, j: int|
                0 <= i < ib.len() && 0 <= j < ib.len() && i != j implies #[trigger] ib[i]
                != #[trigger] ib[j] by {
                let oi = if i == b { a as int } else if i == a { b as int } else { i };
                let oj = if j == b { a as int } else if j == a { b as int } else { j };
                assert(ib[i] == io[oi]);
                assert(ib[j] == io[oj]);
            }
        }
        self.bells = bells;
    }

    /// All the `Row`s formed by repeatedly permuting a given `Row`.  The first item returned will
    /// always be the input `Row`, and the last will always be rounds.
    pub fn closure(&self) -> (c: Vec<Row>)
        ensures
            c@.len() >= 1,
            forall|k: int| 0 <= k < c@.len() ==> indices(#[trigger] c@[k]@) == power(indices(self@), (k + 1) as nat),
            indices(c@.last()@) == identity(self@.len()),
            forall|k: int| 0 <= k < c@.len() - 1 ==> indices(#[trigger] c@[k]@) != identity(self@.len()),
    {
        proof {
            use_type_invariant(self);
        }
        let ghost p = indices(self@);
        let ghost order = lemma_order_exists(p);
        proof {
            lemma_power_one(p);
        }
        let mut closure: Vec<Row> = Vec::new();
        let mut row = self.clone();
        let ghost mut k: nat = 1;
        loop
            invariant
                1 <= k <= order,
                p == indices(self@),
                is_perm(p),
                power(p, order) == identity(p.len()),
                indices(row@) == power(p, k),
                closure@.len() == k - 1,
                forall|j: int| 0 <= j < closure@.len() ==> indices(#[trigger] closure@[j]@) == power(p, (j + 1) as nat),
                forall|j: int| 0 <= j < closure@.len() ==> indices(#[trigger] closure@[j]@) != identity(p.len()),
            decreases order - k,
        {
            let next = row.clone();
            closure.push(next);
            if row.is_rounds() {
                proof {
                    lemma_power_perm(p, k);
                    assert(indices(closure@.last()@) == identity(self@.len()));
                }
                return closure;
            }
            proof {
                lemma_power_perm(p, k);
                assert(k != order);
            }
            row = row.mul_unchecked(self);
            proof {
                assert(power(p, k + 1) == compose(power(p, k), p));
                k = k + 1;
            }
        }
    }

    /// Concatenates the names of the [`Bell`]s in this `Row` to the end of a `String`.
    pub fn push_to_string(&self, string: &mut String)
        ensures
            final(string)@ == old(string)@ + bells_string(self@),
    {
        proof {
            use_type_invariant(self);
        }
        let mut i: usize = 0;
        while i < self.bells.len()
            invariant
                i <= self.bells@.len(),
                valid_bells(self.bells@),
                string@ == old(string)@ + bells_string(self.bells@.take(i as int)),
            decreases self.bells@.len() - i,
        {
            assert(indices(self.bells@)[i as int] < self.bells@.len());
            self.bells[i].push_name(string);
            proof {
                assert(self.bells@.take(i + 1).drop_last() =~= self.bells@.take(i as int));
                assert(string@ =~= old(string)@ + bells_string(self.bells@.take(i + 1)));
            }
            i += 1;
        }
        proof {
            assert(self.bells@.take(i as int) =~= self.bells@);
        }
    }

    /// A very collision-resistant hash function.  It reads the row as a number using the stage
    /// as a base (the first bell being the least significant digit), so two `Row`s of the same
    /// stage only hash to the same value if they are in fact the same.  The stage raised to the
    /// power of itself must fit in a `usize` (e.g. up to 16 bells on 64-bit machines).
    pub fn fast_hash(&self) -> (h: usize)
        requires
            nat_pow(self@.len(), self@.len()) <= usize::MAX + 1,
        ensures
            h == hash_value(self@, self@.len(), self@.len()),
    {
        proof {
            use_type_invariant(self);
        }
        let n = self.bells.len();
        let ghost nn = n as nat;
        let mut accum: usize = 0;
        let mut multiplier: usize = 1;
        let mut i: usize = 0;
        while i < n
            invariant
                i <= n,
                n == self.bells@.len(),
                nn == n as nat,
                valid_bells(self.bells@),
                nat_pow(nn, nn) <= usize::MAX + 1,
                accum == hash_value(self.bells@, nn, i as nat),
                accum < nat_pow(nn, i as nat),
                i < n ==> multiplier == nat_pow(nn, i as nat),
            decreases n - i,
        {
            let b = self.bells[i].index;
            proof {
                assert(indices(self.bells@)[i as int] == b);
                lemma_hash_step(self.bells@, nn, i as nat);
                lemma_nat_pow_mono(nn, (i + 1) as nat, nn);
                assert(accum + b * multiplier == hash_value(self.bells@, nn, (i + 1) as nat)) by {
                    assert(((i + 1) - 1) as nat == i as nat);
                }
            }
            accum = accum + b * multiplier;
            if i + 1 < n {
                proof {
                    lemma_nat_pow_mono(nn, (i + 1) as nat, (nn - 1) as nat);
                    assert(nat_pow(nn, nn) == nn * nat_pow(nn, (nn - 1) as nat));
                    let q = nat_pow(nn, (nn - 1) as nat);
                    assert(q <= usize::MAX) by (nonlinear_arith)
                        requires
                            nn * q <= usize::MAX + 1,
                            nn >= 2,
                    ;
                    assert(nat_pow(nn, (i + 1) as nat) == nn * nat_pow(nn, i as nat));
                }
                multiplier = multiplier * n;
            }
            i += 1;
        }
        accum
    }

    /// Returns a `String` of the names of the [`Bell`]s in this `Row`.
    pub fn to_string(&self) -> (s: String)
        ensures
            s@ == bells_string(self@),
    {
        let mut s = String::new();
        self.push_to_string(&mut s);
        assert(s@ =~= bells_string(self@));
        s
    }
}

/// Extending a valid row with the missing bells up to `n` gives a valid row of `n` bells.
proof fn lemma_extend_valid_row(s: Seq<Bell>, n: nat)
    requires
        valid_bells(s),
        s.len() < n,
        n <= usize::MAX,
    ensures
        valid_bells(extended_to(s, n)),
{
    let e = extended_to(s, n);
    let ie = indices(e);
    let ix = indices(s);
    assert forall|i: int| s.len() <= i < ie.len() implies #[trigger] ie[i] == i by {
        assert(e[i] == Bell { index: (s.len() + (i - s.len())) as usize });
    }
    assert forall|i: int| 0 <= i < ie.len() implies 0 <= #[trigger] ie[i] < ie.len() by {
        if i < s.len() {
            assert(e[i] == s[i]);
            assert(ix[i] == ie[i]);
        }
    }
    assert forall|i: int, j: int|
        0 <= i < ie.len() && 0 <= j < ie.len() && i != j implies #[trigger] ie[i]
        != #[trigger] ie[j] by {
        if i < s.len() {
            assert(e[i] == s[i]);
            assert(ix[i] == ie[i]);
        }
        if j < s.len() {
            assert(e[j] == s[j]);
            assert(ix[j] == ie[j]);
        }
    }
}

/// Every bell below the stage of a valid row occurs in it.
pub proof fn lemma_contains_all(s: Seq<Bell>, b: Bell)
    requires
        valid_bells(s),
        b.index < s.len(),
    ensures
        s.contains(b),
{
    crate::group::lemma_perm_surjective(indices(s));
    assert(indices(s).contains(b.index as int));
    let i = choose|i: int| 0 <= i < indices(s).len() && indices(s)[i] == b.index as int;
    assert(s[i] == b);
}

/// A bell occurs at only one place of a valid row.
pub proof fn lemma_place_unique(s: Seq<Bell>, b: Bell, p: int)
    requires
        valid_bells(s),
        0 <= p < s.len(),
        s[p] == b,
    ensures
        forall|q: int| 0 <= q < s.len() && s[q] == b ==> q == p,
        (choose|q: int| 0 <= q < s.len() && s[q] == b) == p,
{
    assert forall|q: int| 0 <= q < s.len() && s[q] == b implies q == p by {
        if q != p {
            assert(indices(s)[q] == indices(s)[p]);
        }
    }
}

proof fn lemma_first_missing_stays(s: Seq<Bell>, k: nat, m: nat)
    requires
        k <= m,
        first_missing(s, k) is Some,
    ensures
        first_missing(s, m) == first_missing(s, k),
    decreases m - k,
{
    if m > k {
        lemma_first_missing_stays(s, k, (m - 1) as nat);
    }
}


/// The indices of a product of rows are the composition of their indices.
pub proof fn lemma_permuted_indices(a: Seq<Bell>, b: Seq<Bell>)
    requires
        valid_bells(b),
        a.len() == b.len(),
    ensures
        indices(permuted(a, b)) == compose(indices(a), indices(b)),
{
    assert forall|i: int| 0 <= i < b.len() implies #[trigger] indices(permuted(a, b))[i] == compose(indices(a), indices(b))[i] by {
        assert(0 <= indices(b)[i] < b.len());
    }
    assert(indices(permuted(a, b)) =~= compose(indices(a), indices(b)));
}

/// Sequences of bells with the same indices are the same.
pub proof fn lemma_indices_injective(a: Seq<Bell>, b: Seq<Bell>)
    requires
        indices(a) == indices(b),
    ensures
        a == b,
{
    assert(a.len() == indices(a).len());
    assert(b.len() == indices(b).len());
    assert forall|i: int| 0 <= i < a.len() implies a[i] == b[i] by {
        assert(indices(a)[i] == indices(b)[i]);
        assert(indices(a)[i] == a[i].index as int);
        assert(indices(b)[i] == b[i].index as int);
        assert(a[i].index == b[i].index);
        assert(a[i] == Bell { index: a[i].index });
        assert(b[i] == Bell { index: b[i].index });
    }
    assert(a =~= b);
}

/* ========== ORDERING ========== */

/// Bells are ordered by their index.
pub open spec fn bell_le_fn() -> spec_fn(Bell, Bell) -> bool {
    |x: Bell, y: Bell| x.index <= y.index
}

/// The order of rows (and of any sequences of bells): lexicographic in their bells, as the derived
/// `Ord` of a row orders them.
pub open spec fn row_le(a: Seq<Bell>, b: Seq<Bell>) -> bool {
    lex_le(a, b, bell_le_fn())
}

/// The order of rows is a total order.
pub proof fn law_rows_totally_ordered()
    ensures
        total_ordering(|a: Seq<Bell>, b: Seq<Bell>| row_le(a, b)),
{
    lemma_lex_total_ordering(bell_le_fn());
    let l1 = |a: Seq<Bell>, b: Seq<Bell>| row_le(a, b);
    let l2 = |a: Seq<Bell>, b: Seq<Bell>| lex_le(a, b, bell_le_fn());
    assert(l1 =~= l2);
}

/// Compares two sequences of bells in the order of rows.
pub fn compare_bells(a: &[Bell], b: &[Bell]) -> (o: Order)
    ensures
        o == Order::Less <==> (row_le(a@, b@) && !row_le(b@, a@)),
        o == Order::Equal <==> (row_le(a@, b@) && row_le(b@, a@)),
        o == Order::Greater <==> (!row_le(a@, b@) && row_le(b@, a@)),
        o == Order::Equal <==> a@ == b@,
{
    proof {
        lemma_lex_total_ordering(bell_le_fn());
        lemma_lex_total(a@, b@, bell_le_fn());
        if row_le(a@, b@) && row_le(b@, a@) {
            lemma_lex_antisym(a@, b@, bell_le_fn());
        }
        if a@ == b@ {
            lemma_lex_refl(a@, bell_le_fn());
        }
    }
    let n: usize = if a.len() < b.len() { a.len() } else { b.len() };
    let mut i: usize = 0;
    while i < n
        invariant
            i <= n,
            n <= a@.len(),
            n <= b@.len(),
            n == a@.len() || n == b@.len(),
            forall|k: int| 0 <= k < i ==> a@[k] == b@[k],
        decreases n - i,
    {
        if a[i].index != b[i].index {
            proof {
                lemma_lex_skip(a@, b@, bell_le_fn(), i as int);
                lemma_lex_skip(b@, a@, bell_le_fn(), i as int);
                assert(a@.skip(i as int)[0] == a@[i as int]);
                assert(b@.skip(i as int)[0] == b@[i as int]);
            }
            if a[i].index < b[i].index {
                return Order::Less;
            } else {
                return Order::Greater;
            }
        }
        i += 1;
    }
    proof {
        lemma_lex_skip(a@, b@, bell_le_fn(), n as int);
        lemma_lex_skip(b@, a@, bell_le_fn(), n as int);
    }
    if a.len() < b.len() {
        Order::Less
    } else if a.len() == b.len() {
        proof {
            assert(a@ =~= b@);
        }
        Order::Equal
    } else {
        Order::Greater
    }
}

impl TotalPreorder for Row {
    open spec fn le(self, other: Self) -> bool {
        row_le(self@, other@)
    }

    proof fn lemma_total_preorder(a: Self, b: Self, c: Self) {
        lemma_lex_total_ordering(bell_le_fn());
        lemma_lex_total(a@, b@, bell_le_fn());
        if row_le(a@, b@) && row_le(b@, c@) {
            lemma_lex_trans(a@, b@, c@, bell_le_fn());
        }
    }

    fn compare(&self, other: &Self) -> (o: Order) {
        compare_bells(self.slice(), other.slice())
    }
}

} // verus!
