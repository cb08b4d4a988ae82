//! A type-safe representation of a bell.

use vstd::prelude::*;
use crate::text::{decimal, push_char, push_decimal_succ};

verus! {

/// The number of bells that have a single-character name.
pub const NUM_BELL_NAMES: usize = 34;

/// The single-character name of the bell with a given 0-indexed position, if it has one.  The
/// names run `1234567890ETABCDFGHJKLMNPQRSUVWXYZ`.
pub open spec fn name_of_index(i: int) -> Option<char> {
    if i == 0 { Some('1') }
    else if i == 1 { Some('2') }
    else if i == 2 { Some('3') }
    else if i == 3 { Some('4') }
    else if i == 4 { Some('5') }
    else if i == 5 { Some('6') }
    else if i == 6 { Some('7') }
    else if i == 7 { Some('8') }
    else if i == 8 { Some('9') }
    else if i == 9 { Some('0') }
    else if i == 10 { Some('E') }
    else if i == 11 { Some('T') }
    else if i == 12 { Some('A') }
    else if i == 13 { Some('B') }
    else if i == 14 { Some('C') }
    else if i == 15 { Some('D') }
    else if i == 16 { Some('F') }
    else if i == 17 { Some('G') }
    else if i == 18 { Some('H') }
    else if i == 19 { Some('J') }
    else if i == 20 { Some('K') }
    else if i == 21 { Some('L') }
    else if i == 22 { Some('M') }
    else if i == 23 { Some('N') }
    else if i == 24 { Some('P') }
    else if i == 25 { Some('Q') }
    else if i == 26 { Some('R') }
    else if i == 27 { Some('S') }
    else if i == 28 { Some('U') }
    else if i == 29 { Some('V') }
    else if i == 30 { Some('W') }
    else if i == 31 { Some('X') }
    else if i == 32 { Some('Y') }
    else if i == 33 { Some('Z') }
    else { None }
}

/// What [`Bell::name`] produces for the bell with a given index: its single-character name, or
/// its 1-indexed number in angle brackets when it has no such name.
pub open spec fn bell_name_spec(index: nat) -> Seq<char> {
    match name_of_index(index as int) {
        Some(c) => seq![c],
        None => seq!['<'] + decimal(index + 1) + seq!['>'],
    }
}

/// The bell whose name is `c`, if there is one.
pub open spec fn bell_of_name(c: char) -> Option<Bell> {
    if exists|i: int| name_of_index(i) == Some(c) {
        Some(Bell { index: (choose|i: int| name_of_index(i) == Some(c)) as usize })
    } else {
        None
    }
}

/// The bells named by the characters of `cs`, in order, skipping every character that is not a
/// bell name.
pub open spec fn parsed_bells(cs: Seq<char>) -> Seq<Bell>
    decreases cs.len(),
{
    if cs.len() == 0 {
        seq![]
    } else {
        let rest = parsed_bells(cs.drop_last());
        match bell_of_name(cs.last()) {
            Some(b) => rest.push(b),
            None => rest,
        }
    }
}

/// Exactly the indices below [`NUM_BELL_NAMES`] have names, and no two indices share a name.
pub proof fn lemma_names_distinct(i: int, j: int)
    ensures
        (name_of_index(i) is Some) <==> 0 <= i < NUM_BELL_NAMES,
        name_of_index(i) is Some && name_of_index(i) == name_of_index(j) ==> i == j,
{
}

/// The name of a bell with a name reads back as that bell.
pub proof fn lemma_bell_of_name(i: int)
    requires
        0 <= i < NUM_BELL_NAMES,
    ensures
        bell_of_name(name_of_index(i)->0) == Some(Bell { index: i as usize }),
{
    lemma_names_distinct(i, i);
    let c = name_of_index(i)->0;
    assert(name_of_index(i) == Some(c));
    let j = choose|j: int| name_of_index(j) == Some(c);
    lemma_names_distinct(j, i);
}

/// Every bell read from a string has a name.
pub proof fn lemma_parsed_bells_named(cs: Seq<char>)
    ensures
        forall|i: int| 0 <= i < parsed_bells(cs).len() ==> #[trigger] parsed_bells(cs)[i].index < NUM_BELL_NAMES,
    decreases cs.len(),
{
    if cs.len() > 0 {
        lemma_parsed_bells_named(cs.drop_last());
        if let Some(b) = bell_of_name(cs.last()) {
            let i = choose|i: int| name_of_index(i) == Some(cs.last());
            lemma_names_distinct(i, i);
            assert(b.index < NUM_BELL_NAMES);
            let rest = parsed_bells(cs.drop_last());
            assert(parsed_bells(cs) == rest.push(b));
            assert forall|k: int| 0 <= k < parsed_bells(cs).len() implies #[trigger] parsed_bells(cs)[k].index < NUM_BELL_NAMES by {
                if k < rest.len() {
                    assert(parsed_bells(cs)[k] == rest[k]);
                }
            }
        } else {
            assert(parsed_bells(cs) == parsed_bells(cs.drop_last()));
        }
    }
}

/// Looks up the name of the bell with a given index.
pub fn name_char(i: usize) -> (c: Option<char>)
    ensures
        c == name_of_index(i as int),
{
        if i == 0 { Some('1') }
        else if i == 1 { Some('2') }
        else if i == 2 { Some('3') }
        else if i == 3 { Some('4') }
        else if i == 4 { Some('5') }
        else if i == 5 { Some('6') }
        else if i == 6 { Some('7') }
        else if i == 7 { Some('8') }
        else if i == 8 { Some('9') }
        else if i == 9 { Some('0') }
        else if i == 10 { Some('E') }
        else if i == 11 { Some('T') }
        else if i == 12 { Some('A') }
        else if i == 13 { Some('B') }
        else if i == 14 { Some('C') }
        else if i == 15 { Some('D') }
        else if i == 16 { Some('F') }
        else if i == 17 { Some('G') }
        else if i == 18 { Some('H') }
        else if i == 19 { Some('J') }
        else if i == 20 { Some('K') }
        else if i == 21 { Some('L') }
        else if i == 22 { Some('M') }
        else if i == 23 { Some('N') }
        else if i == 24 { Some('P') }
        else if i == 25 { Some('Q') }
        else if i == 26 { Some('R') }
        else if i == 27 { Some('S') }
        else if i == 28 { Some('U') }
        else if i == 29 { Some('V') }
        else if i == 30 { Some('W') }
        else if i == 31 { Some('X') }
        else if i == 32 { Some('Y') }
        else if i == 33 { Some('Z') }
        else { None }
}

/// A type-safe representation of a 'bell', which adds things like conversions to and from
/// commonly-used bell names.
#[derive(Debug, Copy, Clone, Eq, PartialEq, Structural, Ord, PartialOrd, Hash)]
pub struct Bell {
    /// A zero-indexed number representing the `Bell`: the treble is always `index: 0`.
    pub index: usize,
}

impl Bell {
    /// The 0-indexed position of this bell, as a mathematical integer.
    pub open spec fn idx(self) -> nat {
        self.index as nat
    }

    /// Creates a `Bell` from a `char` containing a bell name (e.g. `'4'` or `'T'`).  If the name
    /// is not valid, then this returns `None`.  Lower case letters are not valid bell names.
    pub fn from_name(c: char) -> (b: Option<Bell>)
        ensures
            b == bell_of_name(c),
            b matches Some(bell) ==> name_of_index(bell.idx() as int) == Some(c)
                && bell.index < NUM_BELL_NAMES,
    {
        let mut i: usize = 0;
        while i < NUM_BELL_NAMES
            invariant
                i <= NUM_BELL_NAMES,
                forall|j: int| 0 <= j < i ==> name_of_index(j) != Some(c),
            decreases NUM_BELL_NAMES - i,
        {
            if name_char(i) == Some(c) {
                proof {
                    let j = choose|j: int| name_of_index(j) == Some(c);
                    lemma_names_distinct(i as int, j);
                }
                return Some(Bell::from_index(i));
            }
            i += 1;
        }
        proof {
            assert forall|j: int| name_of_index(j) != Some(c) by {
                lemma_names_distinct(j, j);
            }
        }
        None
    }

    /// Creates a `Bell` from a 0-indexed integer.
    pub fn from_index(index: usize) -> (b: Bell)
        ensures
            b.index == index,
    {
        Bell { index }
    }

    /// Creates a `Bell` from a 1-indexed integer.  This fails if `number` is `0`, in which case
    /// `None` is returned.
    pub fn from_number(number: usize) -> (b: Option<Bell>)
        ensures
            number == 0 ==> b is None,
            number > 0 ==> b == Some(Bell { index: (number - 1) as usize }),
    {
        if number == 0 {
            None
        } else {
            Some(Bell::from_index(number - 1))
        }
    }

    /// The treble (the bell with index 0) on any stage.
    pub fn treble() -> (b: Bell)
        ensures
            b.index == 0,
    {
        Bell { index: 0 }
    }

    /// Converts this `Bell` into the `char` that it should be displayed as.  If the `Bell` is too
    /// big to have a corresponding name, then `None` is returned.
    pub fn to_char(&self) -> (c: Option<char>)
        ensures
            c == name_of_index(self.idx() as int),
    {
        name_char(self.index)
    }

    /// Returns the 0-indexed representation of this `Bell`.
    pub fn index(self) -> (i: usize)
        ensures
            i == self.index,
    {
        self.index
    }

    /// Returns the 1-indexed representation of this `Bell`.
    pub fn number(self) -> (n: usize)
        requires
            self.index < usize::MAX,
        ensures
            n == self.index + 1,
    {
        self.index + 1
    }

    /// Converts this `Bell` into the `String` that it should be displayed as.  Unlike
    /// [`to_char`](Bell::to_char), this does not fail if the `Bell` is too big to have a name;
    /// instead it returns the 1-indexed number of the `Bell` in angle brackets.
    pub fn name(&self) -> (s: String)
        ensures
            s@ == bell_name_spec(self.idx()),
    {
        let mut s = String::new();
        self.push_name(&mut s);
        assert(s@ =~= bell_name_spec(self.idx()));
        s
    }

    /// Appends the name of this `Bell` (as given by [`Bell::name`]) to a `String`.
    pub fn push_name(&self, s: &mut String)
        ensures
            final(s)@ == old(s)@ + bell_name_spec(self.idx()),
    {
        match self.to_char() {
            Some(c) => {
                push_char(s, c);
                assert(final(s)@ =~= old(s)@ + bell_name_spec(self.idx()));
            },
            None => {
                push_char(s, '<');
                push_decimal_succ(s, self.index);
                push_char(s, '>');
                assert(final(s)@ =~= old(s)@ + bell_name_spec(self.idx()));
            },
        }
    }
}

/// Reads the bells named in a string, in order, skipping every character that is not a bell name.
pub fn parse_bells(s: &str) -> (v: Vec<Bell>)
    ensures
        v@ == parsed_bells(s@),
        forall|i: int| 0 <= i < v@.len() ==> #[trigger] v@[i].index < NUM_BELL_NAMES,
{
    let mut v: Vec<Bell> = Vec::new();
    let ghost mut k: int = 0;
    proof {
        broadcast use vstd::string::group_string_axioms;
    }
    for c in it: s.chars()
        invariant
            it.seq() == s@,
            k == it.index(),
            v@ == parsed_bells(s@.take(k)),
            forall|i: int| 0 <= i < v@.len() ==> #[trigger] v@[i].index < NUM_BELL_NAMES,
    {
        proof {
            assert(s@.take(k + 1).drop_last() =~= s@.take(k));
            k = k + 1;
        }
        match Bell::from_name(c) {
            Some(b) => {
                v.push(b);
            },
            None => {},
        }
    }
    proof {
        assert(s@.take(k) =~= s@);
    }
    v
}

} // verus!
