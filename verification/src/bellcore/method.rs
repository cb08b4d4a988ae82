//! The definition of a method: a block (usually one lead) which is rung as a repeating unit, with
//! names for locations within it.

use vstd::prelude::*;
use super::block::AnnotBlock;

verus! {

/// A standard label name used for denoting the lead end of a method.
pub const LABEL_LEAD_END: &'static str = "LE";

/// A method: a block (usually one lead) which is rung as a repeating unit, along with labels for
/// specific rows within it.  Calls can be attached to these labels.
#[derive(Debug)]
pub struct Method {
    name: String,
    first_lead: AnnotBlock<Option<String>>,
}

impl Clone for Method {
    fn clone(&self) -> (m: Method)
        ensures
            m.name_view() == self.name_view(),
            m.lead_view() == self.lead_view(),
            m.wf() == self.wf(),
    {
        let first_lead = self.first_lead.clone();
        proof {
            assert forall|i: int| 0 <= i < first_lead@.len() implies #[trigger] first_lead@[i] == self.first_lead@[i] by {
                lemma_label_cloned(self.first_lead@[i].1, first_lead@[i].1);
            }
            assert(first_lead@ =~= self.first_lead@);
        }
        Method { name: self.name.clone(), first_lead }
    }
}

impl Method {
    /// The lead of a well-formed method is a well-formed block.
    pub proof fn lemma_lead_wf(&self)
        requires
            self.wf(),
        ensures
            crate::bellcore::block::block_rows_ok(self.lead_view()),
    {
    }
}

/// A clone of an optional label is the label itself.
proof fn lemma_label_cloned(a: Option<String>, b: Option<String>)
    requires
        cloned(a, b),
    ensures
        a == b,
{
}

impl Method {
    /// Creates a new `Method` given its name and its first lead.
    pub fn new(name: String, first_lead: AnnotBlock<Option<String>>) -> (m: Method)
        ensures
            m.name_view() == name@,
            m.lead_view() == first_lead@,
    {
        Method { name, first_lead }
    }

    /// The name of this method.
    pub closed spec fn name_view(&self) -> Seq<char> {
        self.name@
    }

    /// The first lead of this method.
    pub closed spec fn lead_view(&self) -> Seq<(Seq<crate::bellcore::bell::Bell>, Option<String>)> {
        self.first_lead@
    }

    /// The lead of this method is a well-formed block.
    pub closed spec fn wf(&self) -> bool {
        self.first_lead.wf()
    }

    /// Returns the first lead of this `Method`.
    pub fn lead(&self) -> (l: &AnnotBlock<Option<String>>)
        ensures
            l@ == self.lead_view(),
    {
        &self.first_lead
    }

    /// How many rows are in a single lead of this `Method`.
    pub fn lead_len(&self) -> (l: usize)
        requires
            self.wf(),
        ensures
            l == self.lead_view().len() - 1,
    {
        self.first_lead.len()
    }

    /// Gets the name of this `Method`.
    pub fn name(&self) -> (s: &str)
        ensures
            s@ == self.name_view(),
    {
        self.name.as_str()
    }

    /// Sets or clears the label at a given index of the lead, which must be in range.
    pub fn set_label(&mut self, index: usize, label: Option<String>)
        requires
            index < old(self).lead_view().len(),
        ensures
            final(self).name_view() == old(self).name_view(),
            final(self).lead_view() == old(self).lead_view().update(index as int, (old(self).lead_view()[index as int].0, label)),
            final(self).wf() == old(self).wf(),
    {
        match self.first_lead.get_annot_mut(index) {
            Some(a) => {
                *a = label;
            },
            None => {},
        }
        proof {
            let v0 = old(self).first_lead@;
            let v1 = self.first_lead@;
            assert(v1.len() == v0.len());
            assert forall|j: int| 0 <= j < v1.len() implies (#[trigger] v1[j]).0 == v0[j].0 by {}
            if super::block::block_rows_ok(v0) {
                assert forall|j: int| 0 <= j < v1.len() implies (#[trigger] v1[j]).0.len() == v1[0].0.len() by {
                    assert(v0[j].0.len() == v0[0].0.len());
                }
            }
            if super::block::block_rows_ok(v1) {
                assert forall|j: int| 0 <= j < v0.len() implies (#[trigger] v0[j]).0.len() == v0[0].0.len() by {
                    assert(v1[j].0.len() == v1[0].0.len());
                }
            }
        }
    }

    /// Returns the label at a given index of the lead, which must be in range.
    pub fn get_label(&self, index: usize) -> (l: Option<&str>)
        requires
            index < self.lead_view().len(),
        ensures
            match self.lead_view()[index as int].1 {
                Some(s) => l matches Some(t) && t@ == s@,
                None => l is None,
            },
    {
        match self.first_lead.get_annot(index) {
            Some(Some(s)) => Some(s.as_str()),
            _ => None,
        }
    }
}

} // verus!
