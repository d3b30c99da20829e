//! The relation blocks of the base-field scheme's proof statement, and which
//! public inputs each choice of blocks reads.
use vstd::prelude::*;

verus! {

/// Which blocks of the statement are proved.
#[derive(Clone, Copy, Debug, PartialEq, Eq, Structural)]
pub enum Relation {
    Full,
    RowHashOnly,
    CellCommitOnly,
    MembershipOnly,
}

/// The enabled blocks: row hashes, cell commitments, membership.
pub open spec fn enabled_blocks(r: Relation) -> (bool, bool, bool) {
    match r {
        Relation::Full => (true, true, true),
        Relation::RowHashOnly => (true, false, false),
        Relation::CellCommitOnly => (false, true, false),
        Relation::MembershipOnly => (false, false, true),
    }
}

/// The statement reads the public row hashes.
pub open spec fn reads_row_hashes(r: Relation) -> bool {
    r == Relation::Full || r == Relation::RowHashOnly
}

/// The statement reads the public column root.
pub open spec fn reads_root(r: Relation) -> bool {
    r == Relation::Full || r == Relation::CellCommitOnly
}

/// The statement reads the public check vector.
pub open spec fn reads_check_vector(r: Relation) -> bool {
    r == Relation::Full || r == Relation::MembershipOnly
}

impl Relation {
    /// Whether the row-hash, cell-commitment and membership blocks are enabled.
    pub fn enabled(self) -> (r: (bool, bool, bool))
        ensures
            r == enabled_blocks(self),
    {
        match self {
            Relation::Full => (true, true, true),
            Relation::RowHashOnly => (true, false, false),
            Relation::CellCommitOnly => (false, true, false),
            Relation::MembershipOnly => (false, false, true),
        }
    }

    /// Whether the statement reads the public row hashes.
    pub fn needs_row_hashes(self) -> (r: bool)
        ensures
            r == reads_row_hashes(self),
    {
        match self {
            Relation::Full | Relation::RowHashOnly => true,
            _ => false,
        }
    }

    /// Whether the statement reads the public column root.
    pub fn needs_root(self) -> (r: bool)
        ensures
            r == reads_root(self),
    {
        match self {
            Relation::Full | Relation::CellCommitOnly => true,
            _ => false,
        }
    }

    /// Whether the statement reads the public check vector.
    pub fn needs_check_vector(self) -> (r: bool)
        ensures
            r == reads_check_vector(self),
    {
        match self {
            Relation::Full | Relation::MembershipOnly => true,
            _ => false,
        }
    }

    /// A stable label for the relation.
    pub fn label(self) -> (r: &'static str)
        ensures
            r@ == (match self {
                Relation::Full => "full"@,
                Relation::RowHashOnly => "row-hash-only"@,
                Relation::CellCommitOnly => "cell-commit-only"@,
                Relation::MembershipOnly => "membership-only"@,
            }),
    {
        match self {
            Relation::Full => "full",
            Relation::RowHashOnly => "row-hash-only",
            Relation::CellCommitOnly => "cell-commit-only",
            Relation::MembershipOnly => "membership-only",
        }
    }
}

/// A block is enabled exactly when the statement reads its public input:
/// the row hashes, the column root, the check vector.
pub proof fn lemma_enabled_matches_inputs(relation: Relation)
    ensures
        enabled_blocks(relation) == (reads_row_hashes(relation), reads_root(relation), reads_check_vector(relation)),
{
}

} // verus!
