//! The steps an alignment path is made of.
use vstd::prelude::*;

verus! {

/// Which of the two sequences the secondary segment of a template switch copies from.
#[derive(Debug, Clone, Copy, PartialEq, Eq, Hash, Structural)]
pub enum TemplateSwitchSecondary {
    Reference,
    Query,
}

/// Which of the two sequences stays the primary track of a template switch.
#[derive(Debug, Clone, Copy, PartialEq, Eq, Hash, Structural)]
pub enum TemplateSwitchPrimary {
    Reference,
    Query,
}

/// One step of an alignment path.
#[derive(Debug, Clone, Copy, PartialEq, Eq, Hash, Structural)]
pub enum AlignmentType {
    Root,
    SecondaryRoot,
    PrimaryReentry,
    PrimaryInsertion,
    PrimaryDeletion,
    PrimarySubstitution,
    PrimaryMatch,
    PrimaryFlankInsertion,
    PrimaryFlankDeletion,
    PrimaryFlankSubstitution,
    PrimaryFlankMatch,
    SecondaryInsertion,
    SecondaryDeletion,
    SecondarySubstitution,
    SecondaryMatch,
    TemplateSwitchEntrance {
        primary: TemplateSwitchPrimary,
        secondary: TemplateSwitchSecondary,
        first_offset: isize,
    },
    TemplateSwitchExit { anti_primary_gap: isize },
    PrimaryShortcut { delta_reference: isize, delta_query: isize },
}

impl TemplateSwitchPrimary {
    pub open spec fn spec_inverted(self) -> TemplateSwitchPrimary {
        match self {
            TemplateSwitchPrimary::Reference => TemplateSwitchPrimary::Query,
            TemplateSwitchPrimary::Query => TemplateSwitchPrimary::Reference,
        }
    }

    pub fn inverted(self) -> (r: TemplateSwitchPrimary)
        ensures
            r == self.spec_inverted(),
    {
        match self {
            TemplateSwitchPrimary::Reference => TemplateSwitchPrimary::Query,
            TemplateSwitchPrimary::Query => TemplateSwitchPrimary::Reference,
        }
    }
}

impl TemplateSwitchSecondary {
    pub open spec fn spec_inverted(self) -> TemplateSwitchSecondary {
        match self {
            TemplateSwitchSecondary::Reference => TemplateSwitchSecondary::Query,
            TemplateSwitchSecondary::Query => TemplateSwitchSecondary::Reference,
        }
    }

    pub fn inverted(self) -> (r: TemplateSwitchSecondary)
        ensures
            r == self.spec_inverted(),
    {
        match self {
            TemplateSwitchSecondary::Reference => TemplateSwitchSecondary::Query,
            TemplateSwitchSecondary::Query => TemplateSwitchSecondary::Reference,
        }
    }
}

impl AlignmentType {
    /// The same step with the roles of reference and query exchanged.
    pub open spec fn spec_inverted(self) -> AlignmentType {
        match self {
            AlignmentType::PrimaryInsertion => AlignmentType::PrimaryDeletion,
            AlignmentType::PrimaryDeletion => AlignmentType::PrimaryInsertion,
            AlignmentType::PrimaryFlankInsertion => AlignmentType::PrimaryFlankDeletion,
            AlignmentType::PrimaryFlankDeletion => AlignmentType::PrimaryFlankInsertion,
            AlignmentType::SecondaryInsertion => AlignmentType::SecondaryDeletion,
            AlignmentType::SecondaryDeletion => AlignmentType::SecondaryInsertion,
            AlignmentType::TemplateSwitchEntrance { primary, secondary, first_offset } =>
                AlignmentType::TemplateSwitchEntrance {
                    primary: primary.spec_inverted(),
                    secondary: secondary.spec_inverted(),
                    first_offset,
                },
            AlignmentType::PrimaryShortcut { delta_reference, delta_query } =>
                AlignmentType::PrimaryShortcut {
                    delta_reference: delta_query,
                    delta_query: delta_reference,
                },
            other => other,
        }
    }

    pub fn inverted(self) -> (r: AlignmentType)
        ensures
            r == self.spec_inverted(),
    {
        match self {
            AlignmentType::PrimaryInsertion => AlignmentType::PrimaryDeletion,
            AlignmentType::PrimaryDeletion => AlignmentType::PrimaryInsertion,
            AlignmentType::PrimaryFlankInsertion => AlignmentType::PrimaryFlankDeletion,
            AlignmentType::PrimaryFlankDeletion => AlignmentType::PrimaryFlankInsertion,
            AlignmentType::SecondaryInsertion => AlignmentType::SecondaryDeletion,
            AlignmentType::SecondaryDeletion => AlignmentType::SecondaryInsertion,
            AlignmentType::TemplateSwitchEntrance { primary, secondary, first_offset } => {
                AlignmentType::TemplateSwitchEntrance {
                    primary: primary.inverted(),
                    secondary: secondary.inverted(),
                    first_offset,
                }
            },
            AlignmentType::PrimaryShortcut { delta_reference, delta_query } => {
                AlignmentType::PrimaryShortcut {
                    delta_reference: delta_query,
                    delta_query: delta_reference,
                }
            },
            other => other,
        }
    }

    /// An insertion, of the primary track, a flank or the secondary track.
    pub open spec fn spec_is_insertion(self) -> bool {
        self is PrimaryInsertion || self is PrimaryFlankInsertion || self is SecondaryInsertion
    }

    pub open spec fn spec_is_deletion(self) -> bool {
        self is PrimaryDeletion || self is PrimaryFlankDeletion || self is SecondaryDeletion
    }

    pub open spec fn spec_is_substitution(self) -> bool {
        self is PrimarySubstitution || self is PrimaryFlankSubstitution
            || self is SecondarySubstitution
    }

    pub open spec fn spec_is_match(self) -> bool {
        self is PrimaryMatch || self is PrimaryFlankMatch || self is SecondaryMatch
    }
}

} // verus!
