//! Identities, payload digests and the error kinds shared by every component.

use vstd::prelude::*;
use vstd::std_specs::cmp::PartialEqSpecImpl;

verus! {

/// Funds are counted in the ledger's smallest unit.
pub type Balance = u64;

/// An account of the ledger: 32 opaque bytes.
#[derive(Clone, Copy, Debug)]
pub struct AccountId {
    pub raw: [u8; 32],
}

/// The content digest under which a payload is stored.
#[derive(Clone, Copy, Debug)]
pub struct PayloadHash {
    pub raw: [u8; 32],
}

/// A group's identifier: the value of the creation counter when it was made.
#[derive(Clone, Copy, Debug, PartialEq, Eq, Structural)]
pub struct GroupId(pub u64);

/// Why an operation was refused.
#[derive(Clone, Copy, Debug, PartialEq, Eq, Structural)]
pub enum Error {
    InvalidThreshold,
    NotAMember,
    ThresholdExceedsMembers,
    LastMemberRemoval,
    DuplicatePayload,
    InsufficientFunds,
    PayloadNotFound,
    NotSubmitter,
    AlreadyApproved,
    NotApproved,
    AlreadyExecuted,
    ThresholdNotMet,
    ArithmeticOverflow,
}

/// What observers of the engine are told, in the order in which it happened.
#[derive(Clone, Copy, Debug, PartialEq, Eq)]
pub enum Event {
    /// A group was created and controls `account`.
    GroupCreated { group: GroupId, account: AccountId },
    /// A payload was stored and its deposit reserved.
    PayloadSubmitted { group: GroupId, hash: PayloadHash, submitter: AccountId, deposit: Balance },
    /// A payload was taken back by its submitter.
    PayloadWithdrawn { group: GroupId, hash: PayloadHash },
    /// A member approved a payload.
    ApprovalAdded { group: GroupId, hash: PayloadHash, member: AccountId },
    /// A member took an approval back.
    ApprovalRemoved { group: GroupId, hash: PayloadHash, member: AccountId },
    /// A payload had enough approvals and was handed out to be performed.
    PayloadExecuted { group: GroupId, hash: PayloadHash },
    /// The host performed the operation of a payload that ran.
    DispatchSucceeded { group: GroupId, hash: PayloadHash },
    /// The host tried the operation of a payload that ran, and it failed.
    DispatchFailed { group: GroupId, hash: PayloadHash },
    /// A group took a member.
    MemberAdded { group: GroupId, member: AccountId },
    /// A group lost a member.
    MemberRemoved { group: GroupId, member: AccountId },
    /// A group's threshold was set.
    ThresholdChanged { group: GroupId, threshold: u32 },
}

/// Whether two 32-byte strings hold the same bytes.
pub fn bytes32_eq(a: &[u8; 32], b: &[u8; 32]) -> (same: bool)
    ensures
        same == (*a == *b),
{
    let mut i: usize = 0;
    while i < 32
        invariant
            0 <= i <= 32,
            forall|j: int| 0 <= j < i ==> a[j] == b[j],
        decreases 32 - i,
    {
        if a[i] != b[i] {
            return false;
        }
        i += 1;
    }
    assert(*a =~= *b);
    true
}

impl PartialEq for AccountId {
    fn eq(&self, other: &AccountId) -> (same: bool) {
        bytes32_eq(&self.raw, &other.raw)
    }
}

impl Eq for AccountId {}

impl PartialEqSpecImpl for AccountId {
    open spec fn obeys_eq_spec() -> bool {
        true
    }

    open spec fn eq_spec(&self, other: &AccountId) -> bool {
        *self == *other
    }
}

impl PartialEq for PayloadHash {
    fn eq(&self, other: &PayloadHash) -> (same: bool) {
        bytes32_eq(&self.raw, &other.raw)
    }
}

impl Eq for PayloadHash {}

impl PartialEqSpecImpl for PayloadHash {
    open spec fn obeys_eq_spec() -> bool {
        true
    }

    open spec fn eq_spec(&self, other: &PayloadHash) -> bool {
        *self == *other
    }
}

} // verus!
