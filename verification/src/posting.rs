//! The typed boundary of a GoBD-conformant host for Odoo
//! `account.move._post`: the gapless document number, the inalterability
//! hash chain and the transactional fence around state and freeze.
//!
//! An implementor of [`PostingHost`] runs, inside one database transaction,
//! the per-`(journal_id, sequence_prefix)` counter read-modify-write under a
//! pessimistic row lock, the row insert, the hash computation and the
//! state/`posted_before` write, and commits; on any failure it aborts,
//! leaving no committed row, no consumed counter value and no dangling hash.
//! Nothing here runs that transaction: this is the surface a host
//! implements.
use vstd::prelude::*;

verus! {

/// The intrusive operations a `_post` host owns.
pub trait PostingHost {
    /// The host's error shape.
    type Error;

    /// Atomically lock and advance the counter, insert the row with its
    /// chained hash, set the state to posted, and commit; on failure,
    /// abort with nothing committed.
    fn post(&self, draft: &MoveDraft<'_>) -> Result<PostedMove, Self::Error>;
}

/// A draft `account.move` row before posting, borrowed for one `post` call.
#[derive(Debug)]
#[non_exhaustive]
pub struct MoveDraft<'a> {
    /// The journal: every `(journal_id, sequence_prefix)` pair has its own
    /// counter and its own hash chain.
    pub journal_id: &'a str,
    /// The sequence prefix (per fiscal year / move type); with the journal
    /// it names the contiguous range the assigned name extends by one.
    pub sequence_prefix: &'a str,
    /// The canonical row bytes the hash reads.
    pub canonical_row: &'a [u8],
}

impl<'a> MoveDraft<'a> {
    /// A draft from its journal, sequence prefix and canonical row bytes.
    pub fn new(journal_id: &'a str, sequence_prefix: &'a str, canonical_row: &'a [u8]) -> (d: MoveDraft<'a>)
        ensures
            d.journal_id == journal_id,
            d.sequence_prefix == sequence_prefix,
            d.canonical_row@ == canonical_row@,
    {
        MoveDraft { journal_id, sequence_prefix, canonical_row }
    }
}

/// A row after posting.
#[derive(Debug, Clone, PartialEq, Eq)]
pub struct PostedMove {
    /// The assigned gapless document number (`INV/2026/0042`).
    pub name: String,
    /// The chained inalterability hash of this row.
    pub inalterable_hash: Vec<u8>,
}

} // verus!
