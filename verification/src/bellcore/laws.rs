//! Laws relating the operations on rows: rows form a group under multiplication, and naming the
//! bells of a row then parsing the names gives the row back.

use vstd::prelude::*;
use crate::group::{
    compose, identity, inverse, lemma_inverse,
};
use super::bell::{bell_name_spec, bell_of_name, lemma_names_distinct, name_of_index, parsed_bells, Bell, NUM_BELL_NAMES};
use super::row::{
    bells_string, first_error, indices, lemma_first_error_valid, permuted, rounds_bells,
    valid_bells,
};
use super::stage::Stage;

verus! {

/// Multiplying rows is associative: `(a * b) * c == a * (b * c)`.
pub proof fn law_mul_assoc(a: Seq<Bell>, b: Seq<Bell>, c: Seq<Bell>)
    requires
        valid_bells(a),
        valid_bells(b),
        valid_bells(c),
        a.len() == b.len(),
        b.len() == c.len(),
    ensures
        permuted(permuted(a, b), c) == permuted(a, permuted(b, c)),
{
    assert(permuted(permuted(a, b), c) =~= permuted(a, permuted(b, c))) by {
        assert forall|i: int| 0 <= i < c.len() implies permuted(permuted(a, b), c)[i] == permuted(a, permuted(b, c))[i] by {
            assert(indices(c)[i] == c[i].index);
            assert(indices(b)[c[i].index as int] == b[c[i].index as int].index);
        }
    }
}

/// Rounds is the identity of multiplication: `a * rounds == rounds * a == a`.
pub proof fn law_rounds_identity(a: Seq<Bell>)
    requires
        valid_bells(a),
        a.len() <= usize::MAX,
    ensures
        permuted(a, rounds_bells(a.len())) == a,
        permuted(rounds_bells(a.len()), a) == a,
{
    assert forall|i: int| 0 <= i < a.len() implies permuted(a, rounds_bells(a.len()))[i] == a[i] by {
        assert(rounds_bells(a.len())[i].index == i);
    }
    assert(permuted(a, rounds_bells(a.len())) =~= a);
    assert forall|i: int| 0 <= i < a.len() implies permuted(rounds_bells(a.len()), a)[i] == a[i] by {
        assert(indices(a)[i] == a[i].index);
    }
    assert(permuted(rounds_bells(a.len()), a) =~= a);
}

/// A row multiplied by its inverse (either way round) is rounds: if `indices(b)` is the inverse
/// of `indices(a)` then `a * b == b * a == rounds`.
pub proof fn law_inverse(a: Seq<Bell>, b: Seq<Bell>)
    requires
        valid_bells(a),
        b.len() == a.len(),
        indices(b) == inverse(indices(a)),
    ensures
        valid_bells(b),
        permuted(a, b) == rounds_bells(a.len()),
        permuted(b, a) == rounds_bells(a.len()),
{
    lemma_inverse(indices(a));
    assert forall|i: int| 0 <= i < a.len() implies permuted(a, b)[i] == rounds_bells(a.len())[i] by {
        assert(indices(b)[i] == b[i].index);
        assert(compose(indices(a), indices(b))[i] == i);
        assert(indices(a)[b[i].index as int] == a[b[i].index as int].index);
    }
    assert(permuted(a, b) =~= rounds_bells(a.len()));
    assert forall|i: int| 0 <= i < a.len() implies permuted(b, a)[i] == rounds_bells(a.len())[i] by {
        assert(indices(a)[i] == a[i].index);
        assert(compose(indices(b), indices(a))[i] == i);
        assert(indices(b)[a[i].index as int] == b[a[i].index as int].index);
    }
    assert(permuted(b, a) =~= rounds_bells(a.len()));
}

/// Multiplying by a row and then by its inverse gives back what was started with:
/// `(a * b) * b⁻¹ == a`.
pub proof fn law_mul_then_inverse(a: Seq<Bell>, b: Seq<Bell>, b_inv: Seq<Bell>)
    requires
        valid_bells(a),
        valid_bells(b),
        a.len() == b.len(),
        b_inv.len() == b.len(),
        indices(b_inv) == inverse(indices(b)),
        a.len() <= usize::MAX,
    ensures
        permuted(permuted(a, b), b_inv) == a,
{
    law_inverse(b, b_inv);
    law_mul_assoc(a, b, b_inv);
    law_rounds_identity(a);
}

/// Every bell with a single-character name is named by that character, and reading the name
/// back gives the same bell.
pub proof fn law_name_roundtrip(b: Bell)
    requires
        b.index < NUM_BELL_NAMES,
    ensures
        bell_name_spec(b.idx()).len() == 1,
        bell_of_name(bell_name_spec(b.idx())[0]) == Some(b),
{
    lemma_names_distinct(b.index as int, b.index as int);
    let c = name_of_index(b.index as int)->0;
    assert(exists|i: int| name_of_index(i) == Some(c));
    let j = choose|i: int| name_of_index(i) == Some(c);
    lemma_names_distinct(b.index as int, j);
}

/// Parsing the names of a sequence of bells, each of which has a single-character name, gives
/// back the same bells.
pub proof fn law_parse_names(s: Seq<Bell>)
    requires
        forall|i: int| 0 <= i < s.len() ==> #[trigger] s[i].index < NUM_BELL_NAMES,
    ensures
        parsed_bells(bells_string(s)) == s,
    decreases s.len(),
{
    if s.len() > 0 {
        let t = s.drop_last();
        law_parse_names(t);
        law_name_roundtrip(s.last());
        let name = bell_name_spec(s.last().idx());
        assert(bells_string(s) == bells_string(t) + name);
        assert((bells_string(t) + name).drop_last() =~= bells_string(t));
        assert((bells_string(t) + name).last() == name[0]);
        assert(s =~= t.push(s.last()));
    } else {
        assert(bells_string(s) =~= Seq::<char>::empty());
    }
}

/// A valid row of at most 34 bells is found valid again when its name is parsed, so
/// `Row::parse(&row.to_string())` gives back `row`.
pub proof fn law_row_string_roundtrip(s: Seq<Bell>)
    requires
        valid_bells(s),
        s.len() <= NUM_BELL_NAMES,
    ensures
        parsed_bells(bells_string(s)) == s,
        first_error(s, Stage { num_bells: s.len() as usize }, s.len()) is None,
{
    assert forall|i: int| 0 <= i < s.len() implies #[trigger] s[i].index < NUM_BELL_NAMES by {
        assert(indices(s)[i] == s[i].index);
    }
    law_parse_names(s);
    lemma_first_error_valid(s);
}

} // verus!
