//! Columns of the inner row of a template switch.
use vstd::prelude::*;

verus! {

/// A column of a template switch's inner row: a character copied from a source
/// column (possibly shown lower-case), a gap, or a blank.
#[derive(Debug, Clone, Copy, PartialEq, Eq, Structural)]
pub enum InnerChar {
    Inner { column: usize, lower_case: bool, copy_depth: Option<usize> },
    Gap { copy_depth: Option<usize> },
    Blank,
}

impl InnerChar {
    /// Shows the character in lower case.
    pub fn to_lower_case(&mut self)
        requires
            *old(self) is Inner,
        ensures
            *final(self) == (match *old(self) {
                InnerChar::Inner { column, copy_depth, .. } => InnerChar::Inner {
                    column,
                    lower_case: true,
                    copy_depth,
                },
                other => other,
            }),
    {
        match self {
            InnerChar::Inner { lower_case, .. } => {
                *lower_case = true;
            },
            _ => {},
        }
    }

    /// The source column of a character.
    pub fn source_column(&self) -> (r: usize)
        requires
            *self is Inner,
        ensures
            *self matches InnerChar::Inner { column, .. } && r == column,
    {
        match self {
            InnerChar::Inner { column, .. } => *column,
            _ => 0,
        }
    }

    pub fn is_char(&self) -> (r: bool)
        ensures
            r == (*self is Inner),
    {
        match self {
            InnerChar::Inner { .. } => true,
            _ => false,
        }
    }

    pub fn is_gap(&self) -> (r: bool)
        ensures
            r == (*self is Gap),
    {
        match self {
            InnerChar::Gap { .. } => true,
            _ => false,
        }
    }

    /// An inner row has no spacers.
    pub fn is_spacer(&self) -> (r: bool)
        ensures
            !r,
    {
        false
    }

    pub fn is_blank(&self) -> (r: bool)
        ensures
            r == (*self is Blank),
    {
        match self {
            InnerChar::Blank => true,
            _ => false,
        }
    }

    /// Every character of an inner row comes from its source.
    pub fn is_source_char(&self) -> (r: bool)
        ensures
            r == (*self is Inner),
    {
        self.is_char()
    }

    /// An inner row hides no characters.
    pub fn is_hidden(&self) -> (r: bool)
        ensures
            !r,
    {
        false
    }
}

/// The first column that is not blank, or the length if all are.
pub fn inner_first_non_blank_column(sequence: &Vec<InnerChar>) -> (r: usize)
    ensures
        r <= sequence@.len(),
        forall|i: int| 0 <= i < r ==> sequence@[i] is Blank,
        r < sequence@.len() ==> !(sequence@[r as int] is Blank),
{
    let mut i: usize = 0;
    while i < sequence.len() && sequence[i].is_blank()
        invariant
            i <= sequence@.len(),
            forall|j: int| 0 <= j < i ==> sequence@[j] is Blank,
        decreases sequence@.len() - i,
    {
        i = i + 1;
    }
    i
}

/// The last column that is not blank.
pub fn inner_last_non_blank_column(sequence: &Vec<InnerChar>) -> (r: usize)
    requires
        exists|i: int| 0 <= i < sequence@.len() && !(sequence@[i] is Blank),
    ensures
        r < sequence@.len(),
        !(sequence@[r as int] is Blank),
        forall|i: int| r < i < sequence@.len() ==> sequence@[i] is Blank,
{
    let mut i: usize = sequence.len();
    while i > 0 && sequence[i - 1].is_blank()
        invariant
            i <= sequence@.len(),
            forall|j: int| i <= j < sequence@.len() ==> sequence@[j] is Blank,
            exists|j: int| 0 <= j < sequence@.len() && !(sequence@[j] is Blank),
        decreases i,
    {
        i = i - 1;
    }
    if i == 0 {
        proof {
            let j = choose|j: int| 0 <= j < sequence@.len() && !(sequence@[j] is Blank);
            assert(sequence@[j] is Blank);
        }
    }
    i - 1
}

} // verus!
