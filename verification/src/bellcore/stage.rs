//! A representation of a stage (the number of bells being rung).

use vstd::prelude::*;
use crate::text::{decimal, push_decimal};

verus! {

/// The number of bells being rung (e.g. 8 for Major).
#[derive(Debug, Copy, Clone, Eq, PartialEq, Structural, Ord, PartialOrd, Hash)]
pub struct Stage {
    /// The number of bells.
    pub num_bells: usize,
}

/// How a stage is displayed: its name if it has one, and otherwise its number of bells.
pub open spec fn stage_text(stage: Stage) -> Seq<char> {
    match stage_name(stage.num_bells) {
        Some(name) => name,
        None => decimal(stage.num_bells as nat),
    }
}

impl Stage {
    /// The `Stage` of 3 bells (Singles).
    pub fn singles() -> (s: Stage)
        ensures
            s.num_bells == 3,
    {
        Stage { num_bells: 3 }
    }

    /// The `Stage` of 4 bells (Minimus).
    pub fn minimus() -> (s: Stage)
        ensures
            s.num_bells == 4,
    {
        Stage { num_bells: 4 }
    }

    /// The `Stage` of 5 bells (Doubles).
    pub fn doubles() -> (s: Stage)
        ensures
            s.num_bells == 5,
    {
        Stage { num_bells: 5 }
    }

    /// The `Stage` of 6 bells (Minor).
    pub fn minor() -> (s: Stage)
        ensures
            s.num_bells == 6,
    {
        Stage { num_bells: 6 }
    }

    /// The `Stage` of 7 bells (Triples).
    pub fn triples() -> (s: Stage)
        ensures
            s.num_bells == 7,
    {
        Stage { num_bells: 7 }
    }

    /// The `Stage` of 8 bells (Major).
    pub fn major() -> (s: Stage)
        ensures
            s.num_bells == 8,
    {
        Stage { num_bells: 8 }
    }

    /// The `Stage` of 9 bells (Caters).
    pub fn caters() -> (s: Stage)
        ensures
            s.num_bells == 9,
    {
        Stage { num_bells: 9 }
    }

    /// The `Stage` of 10 bells (Royal).
    pub fn royal() -> (s: Stage)
        ensures
            s.num_bells == 10,
    {
        Stage { num_bells: 10 }
    }

    /// The `Stage` of 11 bells (Cinques).
    pub fn cinques() -> (s: Stage)
        ensures
            s.num_bells == 11,
    {
        Stage { num_bells: 11 }
    }

    /// The `Stage` of 12 bells (Maximus).
    pub fn maximus() -> (s: Stage)
        ensures
            s.num_bells == 12,
    {
        Stage { num_bells: 12 }
    }

    /// The `Stage` of 13 bells (Septuples).
    pub fn septuples() -> (s: Stage)
        ensures
            s.num_bells == 13,
    {
        Stage { num_bells: 13 }
    }

    /// The `Stage` of 14 bells (Fourteen).
    pub fn fourteen() -> (s: Stage)
        ensures
            s.num_bells == 14,
    {
        Stage { num_bells: 14 }
    }

    /// The `Stage` of 15 bells (Sextuples).
    pub fn sextuples() -> (s: Stage)
        ensures
            s.num_bells == 15,
    {
        Stage { num_bells: 15 }
    }

    /// The `Stage` of 16 bells (Sixteen).
    pub fn sixteen() -> (s: Stage)
        ensures
            s.num_bells == 16,
    {
        Stage { num_bells: 16 }
    }

    /// Creates a `Stage` with a given number of bells.
    pub fn new(num_bells: usize) -> (s: Stage)
        ensures
            s.num_bells == num_bells,
    {
        Stage { num_bells }
    }

    /// Returns the number of bells in this `Stage`.
    pub fn as_usize(self) -> (n: usize)
        ensures
            n == self.num_bells,
    {
        self.num_bells
    }
}

/// The name of a stage of `n` bells, for the stages that have one.
pub open spec fn stage_name(n: usize) -> Option<Seq<char>> {
    if n == 3 {
        Some("Singles"@)
    } else if n == 4 {
        Some("Minimus"@)
    } else if n == 5 {
        Some("Doubles"@)
    } else if n == 6 {
        Some("Minor"@)
    } else if n == 7 {
        Some("Triples"@)
    } else if n == 8 {
        Some("Major"@)
    } else if n == 9 {
        Some("Caters"@)
    } else if n == 10 {
        Some("Royal"@)
    } else if n == 11 {
        Some("Cinques"@)
    } else if n == 12 {
        Some("Maximus"@)
    } else if n == 13 {
        Some("Septuples"@)
    } else if n == 14 {
        Some("Fourteen"@)
    } else if n == 15 {
        Some("Sextuples"@)
    } else if n == 16 {
        Some("Sixteen"@)
    } else {
        None
    }
}

impl Stage {
    /// How this `Stage` is displayed: its name if it has one (`"Maximus"` for 12 bells), and
    /// otherwise its number of bells.
    pub fn to_string(&self) -> (s: String)
        ensures
            s@ == stage_text(*self),
    {
        let n = self.num_bells;
        let mut s = String::new();
        let name = if n == 3 {
            "Singles"
        } else if n == 4 {
            "Minimus"
        } else if n == 5 {
            "Doubles"
        } else if n == 6 {
            "Minor"
        } else if n == 7 {
            "Triples"
        } else if n == 8 {
            "Major"
        } else if n == 9 {
            "Caters"
        } else if n == 10 {
            "Royal"
        } else if n == 11 {
            "Cinques"
        } else if n == 12 {
            "Maximus"
        } else if n == 13 {
            "Septuples"
        } else if n == 14 {
            "Fourteen"
        } else if n == 15 {
            "Sextuples"
        } else if n == 16 {
            "Sixteen"
        } else {
            push_decimal(&mut s, n);
            return s;
        };
        s.append(name);
        s
    }
}

impl From<usize> for Stage {
    fn from(n: usize) -> (s: Stage) {
        Stage { num_bells: n }
    }
}

impl vstd::std_specs::convert::FromSpecImpl<usize> for Stage {
    open spec fn obeys_from_spec() -> bool {
        true
    }

    open spec fn from_spec(v: usize) -> Stage {
        Stage { num_bells: v }
    }
}

} // verus!
