//! Parsing and handling of place notation.

use vstd::prelude::*;
use super::bell::{bell_name_spec, lemma_parsed_bells_named, parse_bells, parsed_bells, Bell, NUM_BELL_NAMES};
use super::row::indices;
use super::stage::{stage_text, Stage};
use crate::text::{decimal, push_char, push_decimal};

verus! {

/// All the ways that parsing a [`PlaceNot`] can fail.
#[derive(Copy, Clone, Debug, Eq, PartialEq, Structural, Hash)]
pub enum ParseError {
    /// A place is not within the stage.
    PlaceOutOfStage { place: usize, stage: Stage },
    /// An odd number (more than one) of bells lie between two given places, so it is ambiguous
    /// which of them make places.
    AmbiguousPlacesBetween { p: usize, q: usize },
    /// Cross notation was given for a stage with an odd number of bells.
    OddStageCross { stage: Stage },
    /// The string named no places at all.
    NoPlacesGiven,
}

/// The message describing a place notation error.
pub open spec fn parse_error_message(e: ParseError) -> Seq<char> {
    match e {
        ParseError::OddStageCross { stage } => "Cross notation for odd stage "@ + stage_text(stage),
        ParseError::PlaceOutOfStage { place, stage } => "Place '"@ + bell_name_spec(place as nat)
            + "' is out stage "@ + stage_text(stage),
        ParseError::AmbiguousPlacesBetween { p, q } => "Ambiguous gap of "@ + decimal((q - p - 1) as nat)
            + " bells between places '"@ + bell_name_spec(p as nat) + "' and '"@ + bell_name_spec(q as nat)
            + "'."@,
        ParseError::NoPlacesGiven => "No places given.  Use 'x' or '-' for a cross."@,
    }
}

impl ParseError {
    /// Describes this error in words (as it is shown to the user).  The places around an
    /// ambiguous gap are in ascending order, as [`PlaceNot::parse`] reports them.
    pub fn to_string(&self) -> (s: String)
        requires
            self matches ParseError::AmbiguousPlacesBetween { p, q } ==> *p < *q,
        ensures
            s@ == parse_error_message(*self),
    {
        let mut s = String::new();
        match self {
            ParseError::OddStageCross { stage } => {
                s.append("Cross notation for odd stage ");
                let st = stage.to_string();
                s.append(st.as_str());
            },
            ParseError::PlaceOutOfStage { place, stage } => {
                s.append("Place '");
                Bell { index: *place }.push_name(&mut s);
                s.append("' is out stage ");
                let st = stage.to_string();
                s.append(st.as_str());
            },
            ParseError::AmbiguousPlacesBetween { p, q } => {
                s.append("Ambiguous gap of ");
                push_decimal(&mut s, *q - *p - 1);
                s.append(" bells between places '");
                Bell { index: *p }.push_name(&mut s);
                s.append("' and '");
                Bell { index: *q }.push_name(&mut s);
                s.append("'.");
            },
            ParseError::NoPlacesGiven => {
                s.append("No places given.  Use 'x' or '-' for a cross.");
            },
        }
        proof {
            assert(s@ =~= parse_error_message(*self));
        }
        s
    }
}

/* ========== MATHEMATICAL MODEL ========== */

/// The string is one of the cross notations `-`, `x` or `X`.
pub open spec fn is_cross_notation(cs: Seq<char>) -> bool {
    cs == seq!['-'] || cs == seq!['x'] || cs == seq!['X']
}

/// The places named in a string (0-indexed), in the order they are written.
pub open spec fn parsed_places(cs: Seq<char>) -> Seq<int> {
    indices(parsed_bells(cs))
}

/// The values below `k` that occur in `ps`, in ascending order.
pub open spec fn present_below(ps: Seq<int>, k: nat) -> Seq<int>
    decreases k,
{
    if k == 0 {
        seq![]
    } else {
        present_below(ps, (k - 1) as nat) + if ps.contains(k - 1) {
            seq![k - 1]
        } else {
            seq![]
        }
    }
}

/// The places that a string names, in ascending order.
pub open spec fn sorted_places(cs: Seq<char>) -> Seq<int> {
    present_below(parsed_places(cs), NUM_BELL_NAMES as nat)
}

/// The number of bells strictly between the `j`th and `j + 1`th of the sorted places.
pub open spec fn gap(sp: Seq<int>, j: int) -> int {
    sp[j + 1] - sp[j] - 1
}

/// The gap after the `j`th place is ambiguous: an odd number of bells, other than one.
pub open spec fn is_ambiguous(sp: Seq<int>, j: int) -> bool {
    gap(sp, j) % 2 == 1 && gap(sp, j) != 1
}

/// The first ambiguous gap among the first `k` gaps, as the pair of places around it.
pub open spec fn first_ambiguous(sp: Seq<int>, k: nat) -> Option<(int, int)>
    decreases k,
{
    if k == 0 {
        None
    } else {
        match first_ambiguous(sp, (k - 1) as nat) {
            Some(e) => Some(e),
            None => if is_ambiguous(sp, k - 1) {
                Some((sp[k - 1], sp[k as int]))
            } else {
                None
            },
        }
    }
}

/// The places contributed by the `j`th written place: itself, and the place just above it if
/// exactly one bell lies between it and the next written place.
pub open spec fn window(sp: Seq<int>, j: int) -> Seq<int> {
    seq![sp[j]] + if gap(sp, j) == 1 {
        seq![sp[j] + 1]
    } else {
        seq![]
    }
}

/// The places contributed by the first `k` written places (each with its implicit neighbour).
pub open spec fn windows(sp: Seq<int>, k: nat) -> Seq<int>
    decreases k,
{
    if k == 0 {
        seq![]
    } else {
        windows(sp, (k - 1) as nat) + window(sp, k - 1)
    }
}

/// The fully expanded places of non-empty, ascending, unambiguous places `sp` on `n` bells: an
/// implicit lead if the first place is odd-indexed, every written place with the implicit places
/// between them, and an implicit place at the back if an even number of bells lie above the
/// last written place.
pub open spec fn expanded(sp: Seq<int>, n: int) -> Seq<int> {
    let last = sp.last();
    (if sp[0] % 2 == 1 {
        seq![0int]
    } else {
        seq![]
    }) + windows(sp, (sp.len() - 1) as nat) + seq![last] + if (n - last) % 2 == 0 {
        seq![n - 1]
    } else {
        seq![]
    }
}

/// What parsing the string `cs` as place notation on `stage` gives: the expanded places, or an
/// error.
pub open spec fn parse_outcome(cs: Seq<char>, stage: Stage) -> Result<Seq<int>, ParseError> {
    let n = stage.num_bells as int;
    let sp = sorted_places(cs);
    if is_cross_notation(cs) {
        if n % 2 == 0 {
            Ok(seq![])
        } else {
            Err(ParseError::OddStageCross { stage })
        }
    } else if parsed_places(cs).len() == 0 {
        Err(ParseError::NoPlacesGiven)
    } else if sp.last() >= n {
        Err(ParseError::PlaceOutOfStage { place: sp.last() as usize, stage })
    } else {
        match first_ambiguous(sp, (sp.len() - 1) as nat) {
            Some((p, q)) => Err(ParseError::AmbiguousPlacesBetween { p: p as usize, q: q as usize }),
            None => Ok(expanded(sp, n)),
        }
    }
}

/* ========== LEMMAS ========== */

proof fn lemma_present_below(ps: Seq<int>, k: nat)
    ensures
        forall|i: int| 0 <= i < present_below(ps, k).len() ==> 0 <= #[trigger] present_below(ps, k)[i] < k
            && ps.contains(present_below(ps, k)[i]),
        forall|i: int, j: int|
            0 <= i < j < present_below(ps, k).len() ==> #[trigger] present_below(ps, k)[i]
                < #[trigger] present_below(ps, k)[j],
        forall|v: int| 0 <= v < k && ps.contains(v) ==> present_below(ps, k).contains(v),
    decreases k,
{
    if k > 0 {
        lemma_present_below(ps, (k - 1) as nat);
        let prev = present_below(ps, (k - 1) as nat);
        let cur = present_below(ps, k);
        assert forall|v: int| 0 <= v < k && ps.contains(v) implies cur.contains(v) by {
            if v < k - 1 {
                assert(prev.contains(v));
                let i = choose|i: int| 0 <= i < prev.len() && prev[i] == v;
                assert(cur[i] == v);
            } else {
                assert(cur[cur.len() - 1] == v);
            }
        }
        assert forall|i: int| 0 <= i < cur.len() implies 0 <= #[trigger] cur[i] < k && ps.contains(cur[i]) by {
            if i < prev.len() {
                assert(cur[i] == prev[i]);
            }
        }
        assert forall|i: int, j: int| 0 <= i < j < cur.len() implies #[trigger] cur[i] < #[trigger] cur[j] by {
            if j < prev.len() {
                assert(cur[i] == prev[i]);
                assert(cur[j] == prev[j]);
            } else {
                assert(cur[i] == prev[i]);
            }
        }
    }
}

/// The places that a string names, as [`PlaceNot::parse`] reads them, are the distinct places named
/// in the string, in strictly ascending order.
pub proof fn law_sorted_places(cs: Seq<char>)
    ensures
        forall|i: int, j: int| 0 <= i < j < sorted_places(cs).len() ==> #[trigger] sorted_places(cs)[i] < #[trigger] sorted_places(cs)[j],
        forall|i: int| 0 <= i < sorted_places(cs).len() ==> parsed_places(cs).contains(#[trigger] sorted_places(cs)[i]),
        forall|i: int| 0 <= i < parsed_places(cs).len() ==> sorted_places(cs).contains(#[trigger] parsed_places(cs)[i]),
{
    lemma_present_below(parsed_places(cs), NUM_BELL_NAMES as nat);
    assert forall|i: int| 0 <= i < parsed_places(cs).len() implies sorted_places(cs).contains(#[trigger] parsed_places(cs)[i]) by {
        lemma_parsed_bells_named(cs);
        assert(parsed_places(cs)[i] == parsed_bells(cs)[i].index);
        assert(parsed_places(cs).contains(parsed_places(cs)[i]));
    }
}

/// Places in strictly ascending order, starting at an even (0-indexed) place, with an even number
/// of bells between each place and the next.
pub open spec fn alternates(ps: Seq<int>) -> bool {
    &&& forall|i: int, j: int| 0 <= i < j < ps.len() ==> #[trigger] ps[i] < #[trigger] ps[j]
    &&& ps.len() > 0 ==> ps[0] >= 0 && ps[0] % 2 == 0
    &&& forall|k: int| 0 <= k < ps.len() - 1 ==> (#[trigger] ps[k + 1] - ps[k] - 1) % 2 == 0
}

proof fn lemma_alternates_append(prev: Seq<int>, t: Seq<int>)
    requires
        alternates(prev),
        prev.len() > 0,
        t.len() > 0,
        prev.last() < t[0],
        (t[0] - prev.last() - 1) % 2 == 0,
        forall|i: int, j: int| 0 <= i < j < t.len() ==> #[trigger] t[i] < #[trigger] t[j],
        forall|k: int| 0 <= k < t.len() - 1 ==> (#[trigger] t[k + 1] - t[k] - 1) % 2 == 0,
    ensures
        alternates(prev + t),
{
    let w = prev + t;
    let p = prev.len();
    assert forall|a: int| 0 <= a < p implies #[trigger] prev[a] <= prev.last() by {
        if a < p - 1 {
            assert(prev[a] < prev[p - 1]);
        }
    }
    assert forall|i: int, j: int| 0 <= i < j < w.len() implies #[trigger] w[i] < #[trigger] w[j] by {
        if j < p {
            assert(w[i] == prev[i] && w[j] == prev[j]);
        } else if i < p {
            assert(w[i] == prev[i]);
            assert(w[j] == t[j - p]);
            if j - p > 0 {
                assert(t[0] < t[j - p]);
            }
        } else {
            assert(w[i] == t[i - p] && w[j] == t[j - p]);
        }
    }
    assert forall|k: int| 0 <= k < w.len() - 1 implies (#[trigger] w[k + 1] - w[k] - 1) % 2 == 0 by {
        if k + 1 < p {
            assert(w[k + 1] == prev[k + 1] && w[k] == prev[k]);
        } else if k + 1 == p {
            assert(w[k + 1] == t[0] && w[k] == prev.last());
        } else {
            assert(w[k + 1] == t[k + 1 - p] && w[k] == t[k - p]);
            assert((t[(k - p) + 1] - t[k - p] - 1) % 2 == 0);
        }
    }
    assert(w[0] == prev[0]);
}

proof fn lemma_windows_alternate(sp: Seq<int>, k: nat)
    requires
        1 <= sp.len(),
        k < sp.len(),
        forall|a: int, b: int| 0 <= a < b < sp.len() ==> #[trigger] sp[a] < #[trigger] sp[b],
        sp[0] >= 0,
        forall|j: int| 0 <= j < sp.len() - 1 ==> !is_ambiguous(sp, j),
    ensures
        alternates((if sp[0] % 2 == 1 { seq![0int] } else { seq![] }) + windows(sp, k) + seq![sp[k as int]]),
    decreases k,
{
    let lead: Seq<int> = if sp[0] % 2 == 1 { seq![0int] } else { seq![] };
    let w = lead + windows(sp, k) + seq![sp[k as int]];
    if k == 0 {
        assert(windows(sp, 0) == Seq::<int>::empty());
        if sp[0] % 2 == 1 {
            assert(w =~= seq![0int, sp[0]]);
        } else {
            assert(w =~= seq![sp[0]]);
        }
    } else {
        let j = (k - 1) as nat;
        lemma_windows_alternate(sp, j);
        let prev = lead + windows(sp, j) + seq![sp[j as int]];
        assert(windows(sp, k) == windows(sp, j) + window(sp, j as int));
        assert(!is_ambiguous(sp, j as int));
        assert(sp[j as int] < sp[k as int]);
        assert(prev.last() == sp[j as int]);
        if gap(sp, j as int) == 1 {
            let t = seq![sp[j as int] + 1, sp[k as int]];
            assert(w =~= prev + t);
            lemma_alternates_append(prev, t);
        } else {
            let t = seq![sp[k as int]];
            assert(w =~= prev + t);
            lemma_alternates_append(prev, t);
        }
    }
}

/// Parsed place notation makes its places in ascending order, starting from an even (0-indexed)
/// place, with an even number of bells between consecutive places and above the last place: so
/// every bell that does not make a place swaps with a neighbour.  Every place written in the string
/// is made, and every place lies within the stage.
pub proof fn law_parsed_places_alternate(cs: Seq<char>, stage: Stage)
    requires
        parse_outcome(cs, stage) is Ok,
    ensures
        alternates(parse_outcome(cs, stage)->Ok_0),
        parse_outcome(cs, stage)->Ok_0.len() > 0 ==> (stage.num_bells - 1
            - parse_outcome(cs, stage)->Ok_0.last()) % 2 == 0,
        forall|i: int| 0 <= i < parse_outcome(cs, stage)->Ok_0.len()
            ==> #[trigger] parse_outcome(cs, stage)->Ok_0[i] < stage.num_bells,
        !is_cross_notation(cs) ==> forall|i: int| 0 <= i < sorted_places(cs).len()
            ==> parse_outcome(cs, stage)->Ok_0.contains(#[trigger] sorted_places(cs)[i]),
{
    let n = stage.num_bells as int;
    let ps = parse_outcome(cs, stage)->Ok_0;
    if is_cross_notation(cs) {
        assert(ps.len() == 0);
    } else {
        let sp = sorted_places(cs);
        law_sorted_places(cs);
        lemma_present_below(parsed_places(cs), NUM_BELL_NAMES as nat);
        assert(parsed_places(cs).contains(parsed_places(cs)[0]));
        assert(sp.len() >= 1);
        let m = (sp.len() - 1) as nat;
        assert(first_ambiguous(sp, m) is None);
        lemma_first_ambiguous_none(sp, m);
        assert(sp[0] >= 0);
        lemma_windows_alternate(sp, m);
        let lead: Seq<int> = if sp[0] % 2 == 1 { seq![0int] } else { seq![] };
        let body = lead + windows(sp, m) + seq![sp.last()];
        assert(sp.last() == sp[m as int]);
        assert(sp.last() < n);
        // Every place of the body lies at or below the last written place
        assert forall|a: int| 0 <= a < body.len() implies #[trigger] body[a] <= sp.last() by {
            if a < body.len() - 1 {
                assert(body[a] < body[body.len() - 1]);
            }
        }
        if (n - sp.last()) % 2 == 0 {
            assert(ps =~= body + seq![n - 1]);
            assert(sp.last() < n - 1) by {
                if sp.last() == n - 1 {
                    assert((n - sp.last()) % 2 == 1);
                }
            }
        } else {
            assert(ps =~= body);
        }
        assert forall|i: int| 0 <= i < ps.len() implies #[trigger] ps[i] < stage.num_bells by {
            if i < body.len() {
                assert(ps[i] == body[i]);
            }
        }
        assert forall|i: int| 0 <= i < sp.len() implies ps.contains(#[trigger] sp[i]) by {
            lemma_windows_contain(sp, m, i);
            let a = choose|a: int| 0 <= a < windows(sp, m).len() + 1 && (windows(sp, m) + seq![sp.last()])[a] == sp[i];
            assert(ps[lead.len() + a] == sp[i]);
        }
    }
}

/// A place that parsing adds to the written places `sp` on `n` bells because it is forced: lead
/// (when the lowest written place is odd-indexed), the one place between two written places one
/// bell apart, or the back place (when an even number of bells lie above the highest written
/// place and below the back).
pub open spec fn forced_place(sp: Seq<int>, n: int, x: int) -> bool {
    ||| x == 0 && sp[0] % 2 == 1
    ||| exists|i: int| 0 <= i < sp.len() - 1 && sp[i + 1] - sp[i] == 2 && x == #[trigger] sp[i] + 1
    ||| x == n - 1 && (n - sp.last()) % 2 == 0
}

proof fn lemma_windows_places(sp: Seq<int>, k: nat, a: int)
    requires
        k < sp.len(),
        0 <= a < windows(sp, k).len(),
    ensures
        sp.contains(windows(sp, k)[a])
            || exists|i: int| 0 <= i < sp.len() - 1 && sp[i + 1] - sp[i] == 2 && windows(sp, k)[a] == #[trigger] sp[i] + 1,
    decreases k,
{
    let j = (k - 1) as nat;
    assert(windows(sp, k) == windows(sp, j) + window(sp, j as int));
    if a < windows(sp, j).len() {
        assert(windows(sp, k)[a] == windows(sp, j)[a]);
        lemma_windows_places(sp, j, a);
    } else {
        let b = a - windows(sp, j).len();
        assert(windows(sp, k)[a] == window(sp, j as int)[b]);
        if b == 0 {
            assert(window(sp, j as int)[0] == sp[j as int]);
        } else {
            assert(gap(sp, j as int) == 1);
            assert(window(sp, j as int)[1] == sp[j as int] + 1);
        }
    }
}

/// Every place that parsed place notation makes is a written place or a forced one.
pub proof fn law_parsed_places_forced(cs: Seq<char>, stage: Stage)
    requires
        parse_outcome(cs, stage) is Ok,
        !is_cross_notation(cs),
    ensures
        forall|i: int| 0 <= i < parse_outcome(cs, stage)->Ok_0.len() ==>
            sorted_places(cs).contains(#[trigger] parse_outcome(cs, stage)->Ok_0[i])
                || forced_place(sorted_places(cs), stage.num_bells as int, parse_outcome(cs, stage)->Ok_0[i]),
{
    let n = stage.num_bells as int;
    let ps = parse_outcome(cs, stage)->Ok_0;
    let sp = sorted_places(cs);
    law_sorted_places(cs);
    assert(parsed_places(cs).len() > 0);
    assert(sp.contains(parsed_places(cs)[0]));
    assert(sp.len() >= 1);
    let m = (sp.len() - 1) as nat;
    let lead: Seq<int> = if sp[0] % 2 == 1 { seq![0int] } else { seq![] };
    let ws = windows(sp, m);
    let body = lead + ws + seq![sp.last()];
    let tail: Seq<int> = if (n - sp.last()) % 2 == 0 { seq![n - 1] } else { seq![] };
    assert(ps =~= body + tail);
    assert(sp.contains(sp[m as int]));
    assert forall|i: int| 0 <= i < ps.len() implies
        sp.contains(#[trigger] ps[i]) || forced_place(sp, n, ps[i]) by {
        if i < lead.len() {
            assert(ps[i] == 0);
        } else if i < lead.len() + ws.len() {
            assert(ps[i] == ws[i - lead.len()]);
            lemma_windows_places(sp, m, i - lead.len());
        } else if i < body.len() {
            assert(ps[i] == sp.last());
        } else {
            assert(ps[i] == n - 1);
        }
    }
}

proof fn lemma_windows_contain(sp: Seq<int>, m: nat, i: int)
    requires
        m + 1 == sp.len(),
        0 <= i < sp.len(),
    ensures
        exists|a: int| 0 <= a < windows(sp, m).len() + 1 && (windows(sp, m) + seq![sp.last()])[a] == sp[i],
    decreases m,
{
    let ws = windows(sp, m) + seq![sp.last()];
    if i == m {
        assert(ws[windows(sp, m).len() as int] == sp[i]);
    } else {
        lemma_windows_contain_below(sp, m, i);
        let a = choose|a: int| 0 <= a < windows(sp, m).len() && windows(sp, m)[a] == sp[i];
        assert(ws[a] == sp[i]);
    }
}

proof fn lemma_windows_contain_below(sp: Seq<int>, k: nat, i: int)
    requires
        k <= sp.len() - 1,
        0 <= i < k,
    ensures
        exists|a: int| 0 <= a < windows(sp, k).len() && windows(sp, k)[a] == sp[i],
    decreases k,
{
    let j = (k - 1) as nat;
    assert(windows(sp, k) == windows(sp, j) + window(sp, j as int));
    if i == j {
        assert(windows(sp, k)[windows(sp, j).len() as int] == sp[i]);
    } else {
        lemma_windows_contain_below(sp, j, i);
        let a = choose|a: int| 0 <= a < windows(sp, j).len() && windows(sp, j)[a] == sp[i];
        assert(windows(sp, k)[a] == sp[i]);
    }
}

proof fn lemma_first_ambiguous_none(sp: Seq<int>, k: nat)
    ensures
        first_ambiguous(sp, k) is None <==> forall|j: int| 0 <= j < k ==> !is_ambiguous(sp, j),
    decreases k,
{
    if k > 0 {
        lemma_first_ambiguous_none(sp, (k - 1) as nat);
    }
}

proof fn lemma_first_ambiguous_stays(sp: Seq<int>, k: nat, m: nat)
    requires
        k <= m,
        first_ambiguous(sp, k) is Some,
    ensures
        first_ambiguous(sp, m) == first_ambiguous(sp, k),
    decreases m - k,
{
    if m > k {
        lemma_first_ambiguous_stays(sp, k, (m - 1) as nat);
    }
}

/* ========== PLACE NOTATION ========== */

/// A single piece of place notation on any [`Stage`].
#[derive(Debug, Eq, PartialEq, Hash)]
pub struct PlaceNot {
    /// A **0-indexed** list of which places are made during this `PlaceNot`.  The places are
    /// fully expanded (every place made is explicitly stored) and in ascending order.
    places: Vec<usize>,
    stage: Stage,
}

impl View for PlaceNot {
    type V = (Seq<int>, Stage);

    closed spec fn view(&self) -> (Seq<int>, Stage) {
        (Seq::new(self.places@.len(), |i: int| self.places@[i] as int), self.stage)
    }
}

impl Clone for PlaceNot {
    fn clone(&self) -> (c: Self)
        ensures
            c@ == self@,
    {
        proof {
            use_type_invariant(self);
        }
        let c = PlaceNot { places: self.places.clone(), stage: self.stage };
        assert(c@.0 =~= self@.0);
        c
    }
}

impl PlaceNot {
    /// Every place made lies within the stage.
    #[verifier::type_invariant]
    spec fn places_in_stage(self) -> bool {
        forall|i: int| 0 <= i < self.places@.len() ==> #[trigger] self.places@[i] < self.stage.num_bells
    }
}

/// The names of the bells in the given (0-indexed) places, written one after another.
pub open spec fn places_string(ps: Seq<int>) -> Seq<char>
    decreases ps.len(),
{
    if ps.len() == 0 {
        seq![]
    } else {
        places_string(ps.drop_last()) + bell_name_spec(ps.last() as nat)
    }
}

/// Whether the string is exactly one of the cross notations `-`, `x` or `X`.
fn is_cross_str(s: &str) -> (b: bool)
    ensures
        b == is_cross_notation(s@),
{
    if s.unicode_len() != 1 {
        proof {
            assert(s@.len() != 1);
            assert(s@ != seq!['-'] && s@ != seq!['x'] && s@ != seq!['X']);
        }
        return false;
    }
    let c = s.get_char(0);
    proof {
        assert(s@ =~= seq![c]);
    }
    c == '-' || c == 'x' || c == 'X'
}

impl PlaceNot {
    /// Parse a string, interpreting it as a single `PlaceNot` of a given [`Stage`].  Like
    /// [`Row::parse_with_stage`](super::row::Row::parse_with_stage), this ignores chars that don't
    /// correspond to valid [`Bell`] names.  This will expand implicit places (even between two
    /// written places) but will fail if there is any kind of ambiguity, returning a [`ParseError`]
    /// describing the problem.  A place written more than once counts once.
    pub fn parse(s: &str, stage: Stage) -> (r: Result<PlaceNot, ParseError>)
        ensures
            match parse_outcome(s@, stage) {
                Ok(ps) => r matches Ok(pn) && pn@ == (ps, stage),
                Err(e) => r == Err::<PlaceNot, ParseError>(e),
            },
    {
        if is_cross_str(s) {
            return match Self::cross(stage) {
                Some(pn) => Ok(pn),
                None => Err(ParseError::OddStageCross { stage }),
            };
        }
        let n = stage.num_bells;
        let bells = parse_bells(s);
        if bells.len() == 0 {
            return Err(ParseError::NoPlacesGiven);
        }
        let ghost ps = parsed_places(s@);
        // Mark which places were given, then read them off in ascending order
        let mut present: Vec<bool> = Vec::new();
        let mut v: usize = 0;
        while v < NUM_BELL_NAMES
            invariant
                v <= NUM_BELL_NAMES,
                present@.len() == v,
                forall|w: int| 0 <= w < v ==> !#[trigger] present@[w],
            decreases NUM_BELL_NAMES - v,
        {
            present.push(false);
            v += 1;
        }
        let mut i: usize = 0;
        while i < bells.len()
            invariant
                i <= bells@.len(),
                bells@ == parsed_bells(s@),
                ps == indices(bells@),
                present@.len() == NUM_BELL_NAMES,
                forall|j: int| 0 <= j < bells@.len() ==> #[trigger] bells@[j].index < NUM_BELL_NAMES,
                forall|w: int| 0 <= w < NUM_BELL_NAMES ==> (#[trigger] present@[w] <==> exists|j: int| 0 <= j < i && ps[j] == w),
            decreases bells@.len() - i,
        {
            let b = bells[i];
            present.set(b.index, true);
            proof {
                assert(ps[i as int] == b.index);
            }
            i += 1;
        }
        let mut sorted: Vec<usize> = Vec::new();
        let mut w: usize = 0;
        while w < NUM_BELL_NAMES
            invariant
                w <= NUM_BELL_NAMES,
                present@.len() == NUM_BELL_NAMES,
                forall|x: int| 0 <= x < NUM_BELL_NAMES ==> (#[trigger] present@[x] <==> ps.contains(x)),
                Seq::new(sorted@.len(), |k: int| sorted@[k] as int) == present_below(ps, w as nat),
            decreases NUM_BELL_NAMES - w,
        {
            if present[w] {
                sorted.push(w);
            }
            w += 1;
            proof {
                assert(Seq::new(sorted@.len(), |k: int| sorted@[k] as int) =~= present_below(ps, w as nat));
            }
        }
        let ghost sp = sorted_places(s@);
        proof {
            assert(Seq::new(sorted@.len(), |k: int| sorted@[k] as int) == sp);
            lemma_present_below(ps, NUM_BELL_NAMES as nat);
            assert(ps.len() > 0);
            assert(0 <= ps[0] < NUM_BELL_NAMES);
            assert(ps.contains(ps[0]));
            assert(sp.contains(ps[0]));
        }
        let last = sorted[sorted.len() - 1];
        if last >= n {
            return Err(ParseError::PlaceOutOfStage { place: last, stage });
        }
        let mut places: Vec<usize> = Vec::new();
        if sorted[0] % 2 == 1 {
            places.push(0);
        }
        let ghost lead: Seq<int> = if sp[0] % 2 == 1 { seq![0int] } else { seq![] };
        proof {
            assert(Seq::new(places@.len(), |x: int| places@[x] as int) =~= lead + windows(sp, 0));
        }
        let mut k: usize = 0;
        while k + 1 < sorted.len()
            invariant
                k + 1 <= sorted@.len(),
                n == stage.num_bells,
                sp == sorted_places(s@),
                !is_cross_notation(s@),
                parsed_places(s@).len() > 0,
                sp.last() < n,
                Seq::new(sorted@.len(), |x: int| sorted@[x] as int) == sp,
                forall|a: int, b: int| 0 <= a < b < sp.len() ==> #[trigger] sp[a] < #[trigger] sp[b],
                Seq::new(places@.len(), |x: int| places@[x] as int) == lead + windows(sp, k as nat),
                first_ambiguous(sp, k as nat) is None,
                last == sp.last(),
                forall|x: int| 0 <= x < places@.len() ==> #[trigger] places@[x] < n,
            decreases sorted@.len() - k,
        {
            let p = sorted[k];
            let q = sorted[k + 1];
            proof {
                assert(sp[k as int] == p);
                assert(sp[k + 1] == q);
                assert(sp[k as int] < sp[k + 1]);
            }
            let ghost before = places@;
            places.push(p);
            let g = q - p - 1;
            assert(gap(sp, k as int) == g);
            if g == 1 {
                places.push(p + 1);
            } else if g % 2 == 1 {
                proof {
                    assert(is_ambiguous(sp, k as int));
                    assert(first_ambiguous(sp, (k + 1) as nat) == Some((p as int, q as int)));
                    lemma_first_ambiguous_stays(sp, (k + 1) as nat, (sp.len() - 1) as nat);
                }
                return Err(ParseError::AmbiguousPlacesBetween { p, q });
            }
            proof {
                assert(windows(sp, (k + 1) as nat) == windows(sp, k as nat) + window(sp, k as int));
                assert(Seq::new(places@.len(), |x: int| places@[x] as int) =~= Seq::new(before.len(), |x: int| before[x] as int) + window(sp, k as int));
                assert(Seq::new(places@.len(), |x: int| places@[x] as int) =~= lead + windows(sp, (k + 1) as nat));
                assert(first_ambiguous(sp, (k + 1) as nat) is None);
            }
            k += 1;
        }
        places.push(last);
        if (n - last) % 2 == 0 {
            places.push(n - 1);
        }
        let pn = PlaceNot { places, stage };
        proof {
            assert(k + 1 == sp.len());
            assert(sp.last() == last);
            assert(pn@.0 =~= expanded(sp, n as int));
        }
        Ok(pn)
    }

    /// Returns a new `PlaceNot` representing the 'cross' notation on a given stage.  This fails
    /// if `stage` doesn't have an even number of bells.
    pub fn cross(stage: Stage) -> (r: Option<PlaceNot>)
        ensures
            stage.num_bells % 2 == 0 ==> (r matches Some(pn) && pn@ == (Seq::<int>::empty(), stage)),
            stage.num_bells % 2 != 0 ==> r is None,
    {
        if stage.num_bells % 2 == 0 {
            let pn = PlaceNot { places: Vec::new(), stage };
            assert(pn@.0 =~= Seq::<int>::empty());
            Some(pn)
        } else {
            None
        }
    }

    /// Checks if this `PlaceNot` corresponds to the 'cross' notation.
    pub fn is_cross(&self) -> (b: bool)
        ensures
            b == (self@.0.len() == 0),
    {
        self.places.len() == 0
    }

    /// The (0-indexed, ascending) places made by this `PlaceNot`.
    pub fn places(&self) -> (p: &[usize])
        ensures
            p@.len() == self@.0.len(),
            forall|i: int| 0 <= i < p@.len() ==> p@[i] as int == #[trigger] self@.0[i],
    {
        self.places.as_slice()
    }

    /// Writes this `PlaceNot` as text: `-` for cross notation (to avoid confusion with bell
    /// names), and otherwise the names of the places made, in ascending order.
    pub fn to_string(&self) -> (s: String)
        ensures
            s@ == if self@.0.len() == 0 {
                seq!['-']
            } else {
                places_string(self@.0)
            },
    {
        proof {
            use_type_invariant(self);
        }
        let mut s = String::new();
        if self.places.len() == 0 {
            push_char(&mut s, '-');
            assert(s@ =~= seq!['-']);
            return s;
        }
        let ghost ps = self@.0;
        let mut i: usize = 0;
        while i < self.places.len()
            invariant
                i <= self.places@.len(),
                ps == self@.0,
                ps.len() == self.places@.len(),
                forall|j: int| 0 <= j < self.places@.len() ==> #[trigger] self.places@[j] < self.stage.num_bells,
                s@ == places_string(ps.take(i as int)),
            decreases self.places@.len() - i,
        {
            Bell::from_index(self.places[i]).push_name(&mut s);
            proof {
                assert(ps.take(i + 1).drop_last() =~= ps.take(i as int));
                assert(ps[i as int] == self.places@[i as int] as int);
            }
            i += 1;
        }
        proof {
            assert(ps.take(i as int) =~= ps);
        }
        s
    }

    /// The [`Stage`] of this `PlaceNot`.
    pub fn stage(&self) -> (s: Stage)
        ensures
            s == self@.1,
    {
        self.stage
    }
}

} // verus!
