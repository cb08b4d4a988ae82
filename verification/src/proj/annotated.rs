//! A row annotated with what the editor shows next to it: a method name, a call, and whether a
//! line is drawn underneath it.

use vstd::prelude::*;
use crate::bellcore::row::Row;
use super::derived_state::{reversed, run_len, run_len_spec};

verus! {

/// The text of an optional string, or the empty string.
pub fn clone_or_empty(string: &Option<String>) -> (r: String)
    ensures
        r@ == match string {
            Some(x) => x@,
            None => Seq::<char>::empty(),
        },
{
    let mut r = String::new();
    match string {
        Some(x) => {
            r.append(x.as_str());
        },
        None => {},
    }
    r
}

/// A row with its annotations.
#[derive(Debug, Clone)]
pub struct AnnotatedRow {
    pub is_lead_end: bool,
    pub method_str: Option<String>,
    pub call_str: Option<String>,
    pub row: Row,
}

/// Whether place `i` of a row `s` is part of a run of at least four bells off the front or the
/// back.
pub open spec fn is_highlighted(s: Seq<crate::bellcore::bell::Bell>, i: int) -> bool {
    let front = run_len_spec(s);
    let back = run_len_spec(s.reverse());
    ||| (front >= 4 && i < front)
    ||| (back >= 4 && i >= s.len() - back)
}

/// The places at which the highlighting `h` changes, scanning the first `k` places from an
/// unhighlighted start.
pub open spec fn highlight_changes(h: Seq<bool>, k: nat) -> Seq<usize>
    decreases k,
{
    if k == 0 {
        seq![]
    } else {
        let i = k - 1;
        let before = if i == 0 { false } else { h[i - 1] };
        highlight_changes(h, (k - 1) as nat) + if h[i] != before {
            seq![i as usize]
        } else {
            seq![]
        }
    }
}

impl AnnotatedRow {
    /// Creates an `AnnotatedRow` of a given row with no annotations.
    pub fn unannotated(row: Row) -> (a: AnnotatedRow)
        ensures
            !a.is_lead_end,
            a.method_str is None,
            a.call_str is None,
            a.row@ == row@,
    {
        AnnotatedRow { is_lead_end: false, method_str: None, call_str: None, row }
    }

    /// This row without its annotations.
    pub fn row(&self) -> (r: Row)
        ensures
            r@ == self.row@,
    {
        self.row.clone()
    }

    /// The number of bells in this row.
    pub fn len(&self) -> (l: usize)
        ensures
            l == self.row@.len(),
    {
        self.row.slice().len()
    }

    /// The bells of this row as 0-indexed integers.
    pub fn bells_indices(&self) -> (v: Vec<usize>)
        ensures
            v@.len() == self.row@.len(),
            forall|i: int| 0 <= i < v@.len() ==> #[trigger] v@[i] == self.row@[i].index,
    {
        let bells = self.row.slice();
        let mut v: Vec<usize> = Vec::new();
        let mut i: usize = 0;
        while i < bells.len()
            invariant
                bells@ == self.row@,
                i <= bells@.len(),
                v@.len() == i,
                forall|j: int| 0 <= j < i ==> #[trigger] v@[j] == bells@[j].index,
            decreases bells@.len() - i,
        {
            v.push(bells[i].index);
            i += 1;
        }
        v
    }

    /// The text marking this row as the start of a lead (empty if there is none).
    pub fn method_str(&self) -> (s: String)
        ensures
            s@ == match self.method_str {
                Some(x) => x@,
                None => Seq::<char>::empty(),
            },
    {
        clone_or_empty(&self.method_str)
    }

    /// The text marking this row as a call (empty if there is none).
    pub fn call_str(&self) -> (s: String)
        ensures
            s@ == match self.call_str {
                Some(x) => x@,
                None => Seq::<char>::empty(),
            },
    {
        clone_or_empty(&self.call_str)
    }

    /// Whether a line is drawn underneath this row.
    pub fn is_ruleoff(&self) -> (b: bool)
        ensures
            b == self.is_lead_end,
    {
        self.is_lead_end
    }

    /// For each bell, whether it is part of music: a run of at least four consecutive bells off
    /// the front or the back of the row.
    pub fn highlights(&self) -> (h: Vec<bool>)
        ensures
            h@.len() == self.row@.len(),
            forall|i: int| 0 <= i < h@.len() ==> #[trigger] h@[i] == is_highlighted(self.row@, i),
    {
        let bells = self.row.slice();
        let n = bells.len();
        let run_len_front = run_len(bells);
        let back = reversed(bells);
        let run_len_back = run_len(back.as_slice());
        let mut highlights: Vec<bool> = Vec::new();
        let mut i: usize = 0;
        while i < n
            invariant
                n == self.row@.len(),
                run_len_front == run_len_spec(self.row@),
                run_len_back == run_len_spec(self.row@.reverse()),
                i <= n,
                highlights@.len() == i,
                forall|j: int| 0 <= j < i ==> #[trigger] highlights@[j] == is_highlighted(self.row@, j),
            decreases n - i,
        {
            let front = run_len_front >= 4 && i < run_len_front;
            let back = run_len_back >= 4 && (i >= n || n - i <= run_len_back);
            highlights.push(front || back);
            i += 1;
        }
        highlights
    }

    /// The boundaries of the highlighted stretches of this row, as `..` ranges one after another:
    /// `[0, 4, 5, 10]` highlights the first and last four bells of a row of ten.
    pub fn highlight_ranges(&self) -> (r: Vec<usize>)
        ensures
            r@ == highlight_changes(self.highlights_view(), self.row@.len()) + if self.row@.len() > 0
                && self.highlights_view()[self.row@.len() - 1] {
                seq![self.row@.len() as usize]
            } else {
                seq![]
            },
    {
        let highlights = self.highlights();
        proof {
            assert(highlights@ =~= self.highlights_view());
        }
        let mut last_highlighted = false;
        let mut ranges: Vec<usize> = Vec::new();
        let mut i: usize = 0;
        while i < highlights.len()
            invariant
                highlights@ == self.highlights_view(),
                i <= highlights@.len(),
                ranges@ == highlight_changes(highlights@, i as nat),
                last_highlighted == if i == 0 { false } else { highlights@[i - 1] },
            decreases highlights@.len() - i,
        {
            let h = highlights[i];
            if h != last_highlighted {
                ranges.push(i);
            }
            last_highlighted = h;
            i += 1;
        }
        if last_highlighted {
            ranges.push(self.len());
        }
        ranges
    }

    /// For each bell, whether it is highlighted.
    pub open spec fn highlights_view(&self) -> Seq<bool> {
        Seq::new(self.row@.len(), |i: int| is_highlighted(self.row@, i))
    }
}


/// Two annotated rows with the same annotations and bells.
pub open spec fn same_annotated_row(a: AnnotatedRow, b: AnnotatedRow) -> bool {
    &&& a.is_lead_end == b.is_lead_end
    &&& a.method_str == b.method_str
    &&& a.call_str == b.call_str
    &&& a.row@ == b.row@
}

/// A fragment as a list of annotated rows.  (Where it is drawn is kept by the user interface.)
#[derive(Debug)]
pub struct Frag {
    pub rows: Vec<AnnotatedRow>,
}

impl Frag {
    /// A copy of the row at a given index.
    pub fn get_row(&self, index: usize) -> (r: AnnotatedRow)
        requires
            index < self.rows@.len(),
        ensures
            same_annotated_row(r, self.rows@[index as int]),
    {
        let a = &self.rows[index];
        AnnotatedRow {
            is_lead_end: a.is_lead_end,
            method_str: a.method_str.clone(),
            call_str: a.call_str.clone(),
            row: a.row.clone(),
        }
    }

    /// The number of bells in each row of this fragment.
    pub fn num_bells(&self) -> (n: usize)
        requires
            self.rows@.len() > 0,
        ensures
            n == self.rows@[0].row@.len(),
    {
        self.rows[0].len()
    }

    /// The number of rows in this fragment.
    pub fn len(&self) -> (l: usize)
        ensures
            l == self.rows@.len(),
    {
        self.rows.len()
    }

    /// The groups of rows to highlight as mutually false, as (start, end, group) triples, each
    /// range behaving like `start..end`.  For now this is a fixed list.
    pub fn false_row_groups(&self) -> (v: Vec<usize>)
        ensures
            v@ == seq![0usize, 3, 0, 8, 11, 1, 3, 5, 2, 15, 20, 3, 22, 23, 4, 25, 26, 5],
    {
        let v: Vec<usize> = vec![0, 3, 0, 8, 11, 1, 3, 5, 2, 15, 20, 3, 22, 23, 4, 25, 26, 5];
        assert(v@ =~= seq![0usize, 3, 0, 8, 11, 1, 3, 5, 2, 15, 20, 3, 22, 23, 4, 25, 26, 5]);
        v
    }
}

} // verus!
