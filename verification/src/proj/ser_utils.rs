//! Predicates that decide which fields are left out when the editor's state is serialised.

use vstd::prelude::*;

verus! {

/// Whether a value is `false`, so that `"is_ruleoff": false` can be left out when serialising.
pub fn is_false(b: &bool) -> (r: bool)
    ensures
        r == !*b,
{
    !*b
}

/// Whether a value is `true`, so that `"is_proved": true` can be left out when serialising.
pub fn is_true(b: &bool) -> (r: bool)
    ensures
        r == *b,
{
    *b
}

/// Whether every list is empty, so that `"music_highlights": [[], [], [], ...]` can be left out
/// when serialising.
pub fn is_all_empty(vs: &[Vec<usize>]) -> (r: bool)
    ensures
        r == forall|i: int| 0 <= i < vs@.len() ==> (#[trigger] vs@[i])@.len() == 0,
{
    let mut i: usize = 0;
    while i < vs.len()
        invariant
            i <= vs@.len(),
            forall|j: int| 0 <= j < i ==> (#[trigger] vs@[j])@.len() == 0,
        decreases vs@.len() - i,
    {
        if vs[i].len() != 0 {
            return false;
        }
        i += 1;
    }
    true
}

/// Whether every string is empty, so that lists of empty strings can be left out when
/// serialising.
pub fn is_all_empty_string(vs: &[String]) -> (r: bool)
    ensures
        r == forall|i: int| 0 <= i < vs@.len() ==> (#[trigger] vs@[i])@.len() == 0,
{
    let mut i: usize = 0;
    while i < vs.len()
        invariant
            i <= vs@.len(),
            forall|j: int| 0 <= j < i ==> (#[trigger] vs@[j])@.len() == 0,
        decreases vs@.len() - i,
    {
        if vs[i].as_str().unicode_len() != 0 {
            return false;
        }
        i += 1;
    }
    true
}

} // verus!
