//! A heap-allocated row of [`Bell`]s.

use vstd::prelude::*;
use crate::bellcore::bell::{bell_name_spec, parsed_bells, Bell};
use crate::bellcore::row::{
    bells_string, checked, first_error, rounds_bells, valid_bells, InvalidRowError,
    Row as CoreRow,
};
use crate::bellcore::stage::Stage;
use crate::text::{decimal, push_decimal};

verus! {

/// All the possible ways that a [`Row`] could be invalid.  By the Pigeon Hole Principle, a
/// missing bell is always accompanied by a duplicated bell or one out of range, so these two
/// suffice.
#[derive(Debug, Clone, PartialEq, Eq, Structural, Hash)]
pub enum InvalidRowErr {
    /// A [`Bell`] would appear twice in the new [`Row`] (for example in `113456` or `4152357`)
    DuplicateBell(Bell),
    /// A [`Bell`] is not within the range of the [`Stage`] of the new [`Row`] (for example in
    /// `12745` or `5432`).
    BellOutOfStage(Bell, Stage),
}

/// The message describing an invalid row.
pub open spec fn row_err_message(e: InvalidRowErr) -> Seq<char> {
    match e {
        InvalidRowErr::DuplicateBell(b) => "Bell "@ + bell_name_spec(b.idx()) + " would appear twice."@,
        InvalidRowErr::BellOutOfStage(b, stage) => "Bell "@ + bell_name_spec(b.idx())
            + " is not within the stage "@ + decimal(stage.num_bells as nat),
    }
}

impl InvalidRowErr {
    /// Describes this error in words (as it is shown to the user).
    pub fn to_string(&self) -> (s: String)
        ensures
            s@ == row_err_message(*self),
    {
        let mut s = String::new();
        s.append("Bell ");
        match self {
            InvalidRowErr::DuplicateBell(b) => {
                b.push_name(&mut s);
                s.append(" would appear twice.");
            },
            InvalidRowErr::BellOutOfStage(b, stage) => {
                b.push_name(&mut s);
                s.append(" is not within the stage ");
                push_decimal(&mut s, stage.num_bells);
            },
        }
        proof {
            assert(s@ =~= row_err_message(*self));
        }
        s
    }
}

/// Parsing the string of a row of at most 34 bells gives the row back: whatever
/// `Row::parse(&row.to_string())` returns is `Ok` of that row.
pub proof fn law_to_string_then_parse(s: Seq<Bell>, r: Result<Row, InvalidRowErr>)
    requires
        valid_bells(s),
        s.len() <= crate::bellcore::bell::NUM_BELL_NAMES,
        checked_row(parsed_bells(bells_string(s)), r),
    ensures
        r matches Ok(row) && row@ == s,
{
    crate::bellcore::laws::law_row_string_roundtrip(s);
}

/// The `InvalidRowErr` reporting the same problem as an [`InvalidRowError`] found without a
/// given stage (which is never a missing bell).
pub open spec fn to_row_err(e: InvalidRowError) -> InvalidRowErr {
    match e {
        InvalidRowError::DuplicateBell(b) => InvalidRowErr::DuplicateBell(b),
        InvalidRowError::BellOutOfStage(b, s) => InvalidRowErr::BellOutOfStage(b, s),
        InvalidRowError::MissingBell(b) => InvalidRowErr::DuplicateBell(b),
    }
}

fn convert_err(e: InvalidRowError) -> (r: InvalidRowErr)
    ensures
        r == to_row_err(e),
{
    match e {
        InvalidRowError::DuplicateBell(b) => InvalidRowErr::DuplicateBell(b),
        InvalidRowError::BellOutOfStage(b, s) => InvalidRowErr::BellOutOfStage(b, s),
        InvalidRowError::MissingBell(b) => InvalidRowErr::DuplicateBell(b),
    }
}

/// The outcome of checking a sequence of bells: the first bell that is out of range or repeated
/// gives the error, and otherwise the row is made of exactly these bells.
pub open spec fn checked_row(s: Seq<Bell>, r: Result<Row, InvalidRowErr>) -> bool {
    match first_error(s, Stage { num_bells: s.len() as usize }, s.len()) {
        Some(e) => r == Err::<Row, InvalidRowErr>(to_row_err(e)),
        None => r matches Ok(row) && row@ == s,
    }
}

/// A single `Row` of [`Bell`]s, which must always be valid: it contains every [`Bell`] up to its
/// [`Stage`] once and precisely once.  This is checked in all the constructors.
#[derive(Debug, Clone, Eq, PartialEq, Hash)]
pub struct Row {
    row: CoreRow,
}

impl View for Row {
    type V = Seq<Bell>;

    closed spec fn view(&self) -> Seq<Bell> {
        self.row@
    }
}

impl Row {
    /// Creates a [`Row`] representing rounds on a given [`Stage`].
    pub fn rounds(stage: Stage) -> (r: Row)
        ensures
            r@ == rounds_bells(stage.num_bells as nat),
    {
        Row { row: CoreRow::rounds(stage) }
    }

    /// Parse a string into a `Row`, skipping any `char`s that aren't valid bell names.  This
    /// returns `Err(`[`InvalidRowErr`]`)` if the `Row` would be invalid.
    pub fn parse(s: &str) -> (r: Result<Row, InvalidRowErr>)
        ensures
            checked_row(parsed_bells(s@), r),
    {
        Self::from_iter(crate::bellcore::bell::parse_bells(s))
    }

    /// Creates a `Row` from a sequence of [`Bell`]s, performing the validity check.
    fn from_iter(bells: Vec<Bell>) -> (r: Result<Row, InvalidRowErr>)
        ensures
            checked_row(bells@, r),
    {
        Self::check_validity(bells)
    }

    /// Checks the validity of a potential `Row`, returning it if valid and returning an
    /// [`InvalidRowErr`] otherwise.
    fn check_validity(bells: Vec<Bell>) -> (r: Result<Row, InvalidRowErr>)
        ensures
            checked_row(bells@, r),
    {
        let ghost s = bells@;
        let r = CoreRow::from_vec(bells);
        assert(checked(s, r));
        match r {
            Ok(row) => Ok(Row { row }),
            Err(e) => Err(convert_err(e)),
        }
    }

    /// Returns the [`Stage`] of this `Row`.  Every `Row` is valid, so this also says so.
    pub fn stage(&self) -> (s: Stage)
        ensures
            s.num_bells == self@.len(),
            valid_bells(self@),
    {
        self.row.stage()
    }

    /// Concatenates the names of the [`Bell`]s in this `Row` to the end of a `String`.
    pub fn push_to_string(&self, string: &mut String)
        ensures
            final(string)@ == old(string)@ + bells_string(self@),
    {
        self.row.push_to_string(string)
    }

    /// Returns a `String` representing this `Row`.
    pub fn to_string(&self) -> (s: String)
        ensures
            s@ == bells_string(self@),
    {
        self.row.to_string()
    }
}

} // verus!
