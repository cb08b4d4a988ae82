//! State that is saved per-composition but not tracked in the undo history, such as which sections
//! of the side bar are folded.

use vstd::prelude::*;
use crate::text::str_eq;

verus! {

/// Which sections of the side bar are open.
#[derive(Debug, Clone, Copy, PartialEq, Eq, Structural)]
pub struct SectionFolds {
    pub general: bool,
    pub methods: bool,
    pub calls: bool,
    pub music: bool,
}

impl SectionFolds {
    /// All sections open.
    pub fn all_open() -> (f: SectionFolds)
        ensures
            f == (SectionFolds { general: true, methods: true, calls: true, music: true }),
    {
        SectionFolds { general: true, methods: true, calls: true, music: true }
    }

    /// Toggle the folding of a given section by name, returning `false` (and changing nothing) if
    /// no such section exists.
    pub fn toggle(&mut self, name: &str) -> (found: bool)
        ensures
            found == (name@ == "general"@ || name@ == "methods"@ || name@ == "calls"@ || name@ == "music"@),
            name@ == "general"@ ==> *final(self) == (SectionFolds { general: !old(self).general, ..*old(self) }),
            name@ == "methods"@ ==> *final(self) == (SectionFolds { methods: !old(self).methods, ..*old(self) }),
            name@ == "calls"@ ==> *final(self) == (SectionFolds { calls: !old(self).calls, ..*old(self) }),
            name@ == "music"@ ==> *final(self) == (SectionFolds { music: !old(self).music, ..*old(self) }),
            !found ==> *final(self) == *old(self),
    {
        proof {
            reveal_strlit("general");
            reveal_strlit("methods");
            reveal_strlit("calls");
            reveal_strlit("music");
            assert("general"@[0] != "methods"@[0]);
            assert("calls"@[0] != "music"@[0]);
            assert("general"@.len() != "calls"@.len());
            assert("methods"@.len() != "music"@.len());
            assert("general"@.len() != "music"@.len());
            assert("methods"@.len() != "calls"@.len());
        }
        if str_eq(name, "general") {
            self.general = !self.general;
            true
        } else if str_eq(name, "methods") {
            self.methods = !self.methods;
            true
        } else if str_eq(name, "calls") {
            self.calls = !self.calls;
            true
        } else if str_eq(name, "music") {
            self.music = !self.music;
            true
        } else {
            false
        }
    }
}

} // verus!
