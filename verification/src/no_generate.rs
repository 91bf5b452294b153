//! The rule that only the primary generates or saves chunks.
//!
//! A secondary keeps a local copy and fetches every chunk from a peer that
//! holds it. Whatever handles chunks on a secondary asks here first.

use vstd::prelude::*;
use vstd::string::StringExecFns;

verus! {

/// What a process does for the cluster.
#[derive(Debug, Clone, Copy, PartialEq, Eq, Structural)]
pub enum NodeRole {
    /// Owns the disk: it alone generates and saves.
    Primary,
    /// Has no disk: it fetches every chunk.
    Secondary,
}

/// What is to be done with chunks.
#[derive(Debug, Clone, Copy, PartialEq, Eq, Structural)]
pub enum SecondaryChunkOp {
    Generate {
        chunk_x: i32,
        chunk_z: i32,
    },
    PersistChunks {
        count: usize,
    },
    PersistPlayerdata {
        count: usize,
    },
    Fetch {
        chunk_x: i32,
        chunk_z: i32,
    },
}

impl SecondaryChunkOp {
    pub fn is_generate(self) -> (b: bool)
        ensures
            b == (self is Generate),
    {
        matches!(self, SecondaryChunkOp::Generate { .. })
    }

    /// Whether the operation writes chunks or player data.
    pub fn is_persist(self) -> (b: bool)
        ensures
            b == (self is PersistChunks || self is PersistPlayerdata),
    {
        matches!(
            self,
            SecondaryChunkOp::PersistChunks { .. } | SecondaryChunkOp::PersistPlayerdata { .. }
        )
    }

    pub fn is_fetch(self) -> (b: bool)
        ensures
            b == (self is Fetch),
    {
        matches!(self, SecondaryChunkOp::Fetch { .. })
    }
}

/// A secondary was to generate or save.
#[derive(Debug, Clone, Copy, PartialEq, Eq, Structural)]
pub struct NoGenerateViolation {
    pub op: SecondaryChunkOp,
}

/// Why an operation is refused.
pub open spec fn refusal_of(op: SecondaryChunkOp) -> Seq<char> {
    match op {
        SecondaryChunkOp::Generate {
            ..
        } => "cluster secondary must not generate chunks; fetch from the holding peer"@,
        SecondaryChunkOp::PersistChunks {
            ..
        } => "cluster secondary must not persist to disk; the primary owns saves"@,
        SecondaryChunkOp::PersistPlayerdata {
            ..
        } => "cluster secondary must not persist to disk; the primary owns saves"@,
        SecondaryChunkOp::Fetch { .. } => "fetch is allowed"@,
    }
}

impl NoGenerateViolation {
    pub fn new(op: SecondaryChunkOp) -> (v: Self)
        ensures
            v == (NoGenerateViolation { op }),
    {
        NoGenerateViolation { op }
    }

    /// Why the operation is refused.
    pub fn reason(self) -> (r: &'static str)
        ensures
            r@ == refusal_of(self.op),
    {
        match self.op {
            SecondaryChunkOp::Generate {
                ..
            } => "cluster secondary must not generate chunks; fetch from the holding peer",
            SecondaryChunkOp::PersistChunks {
                ..
            } => "cluster secondary must not persist to disk; the primary owns saves",
            SecondaryChunkOp::PersistPlayerdata {
                ..
            } => "cluster secondary must not persist to disk; the primary owns saves",
            SecondaryChunkOp::Fetch { .. } => "fetch is allowed",
        }
    }

    /// The refusal as a message.
    pub fn message(self) -> (r: String)
        ensures
            r@ == "secondary chunk incapability: "@ + refusal_of(self.op),
    {
        let mut r = String::from_str("secondary chunk incapability: ");
        r.append(self.reason());
        r
    }
}

pub const SECONDARY_MAY_GENERATE: bool = false;

pub const SECONDARY_MAY_PERSIST: bool = false;

pub const SECONDARY_FETCHES_CHUNKS: bool = true;

pub fn secondary_may_generate() -> (b: bool)
    ensures
        !b,
{
    SECONDARY_MAY_GENERATE
}

pub fn secondary_may_persist() -> (b: bool)
    ensures
        !b,
{
    SECONDARY_MAY_PERSIST
}

pub fn secondary_must_fetch() -> (b: bool)
    ensures
        b,
{
    SECONDARY_FETCHES_CHUNKS
}

/// The primary may do everything, a secondary only fetch.
pub open spec fn permitted(role: NodeRole, op: SecondaryChunkOp) -> bool {
    role == NodeRole::Primary || op is Fetch
}

/// Asks whether a process may do something with chunks.
pub fn authorize(role: NodeRole, op: SecondaryChunkOp) -> (r: Result<(), NoGenerateViolation>)
    ensures
        r == (if permitted(role, op) {
            Ok::<(), NoGenerateViolation>(())
        } else {
            Err(NoGenerateViolation { op })
        }),
{
    match role {
        NodeRole::Primary => Ok(()),
        NodeRole::Secondary => check_secondary_op(op),
    }
}

/// Asks whether a secondary may do something with chunks.
pub fn check_secondary_op(op: SecondaryChunkOp) -> (r: Result<(), NoGenerateViolation>)
    ensures
        r == (if permitted(NodeRole::Secondary, op) {
            Ok::<(), NoGenerateViolation>(())
        } else {
            Err(NoGenerateViolation { op })
        }),
{
    if op.is_fetch() {
        Ok(())
    } else {
        Err(NoGenerateViolation::new(op))
    }
}

/// No operation that generates or saves is open to a secondary, and every
/// operation is open to the primary.
pub proof fn lemma_secondary_cannot_generate_or_save(op: SecondaryChunkOp)
    ensures
        op is Generate || op is PersistChunks || op is PersistPlayerdata ==> !permitted(
            NodeRole::Secondary,
            op,
        ),
        op is Fetch ==> permitted(NodeRole::Secondary, op),
        permitted(NodeRole::Primary, op),
{
}

/// A refusal says whether generating or saving was refused, whatever the chunk or
/// the number.
pub proof fn lemma_refusals_name_the_reason(op: SecondaryChunkOp)
    ensures
        op is Generate ==> refusal_of(op)
            == "cluster secondary must not generate chunks; fetch from the holding peer"@,
        op is PersistChunks || op is PersistPlayerdata ==> refusal_of(op)
            == "cluster secondary must not persist to disk; the primary owns saves"@,
{
}

} // verus!
