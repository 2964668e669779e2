//! The mathematical model of a group: its members, its threshold, the
//! payloads that wait for approval, and the steps that change them.

use crate::hashing::payload_hash;
use crate::ident::{AccountId, Balance, Error, PayloadHash};
use vstd::prelude::*;

verus! {

/// A stored payload: the operation's bytes, who pays for keeping them, and
/// who has approved the operation so far.
pub struct PayloadView {
    pub hash: PayloadHash,
    pub bytes: Seq<u8>,
    pub submitter: AccountId,
    pub deposit: nat,
    pub approvals: Set<AccountId>,
}

impl PayloadView {
    /// Whether enough members have approved.
    pub open spec fn ready(self, threshold: nat) -> bool {
        self.approvals.len() >= threshold
    }

    /// The payload with one more approval.
    pub open spec fn approved_by(self, who: AccountId) -> PayloadView {
        PayloadView { approvals: self.approvals.insert(who), ..self }
    }

    /// The payload without the approval of `who`.
    pub open spec fn unapproved_by(self, who: AccountId) -> PayloadView {
        PayloadView { approvals: self.approvals.remove(who), ..self }
    }
}

/// The deposits of the given payloads, added up.
pub open spec fn sum_deposits(pending: Seq<PayloadView>) -> nat
    decreases pending.len(),
{
    if pending.len() == 0 {
        0
    } else {
        sum_deposits(pending.drop_last()) + pending.last().deposit
    }
}

/// The test for payloads that have enough approvals.
pub open spec fn is_ready(threshold: nat) -> spec_fn(PayloadView) -> bool {
    |p: PayloadView| p.ready(threshold)
}

/// The test for payloads that still lack approvals.
pub open spec fn is_waiting(threshold: nat) -> spec_fn(PayloadView) -> bool {
    |p: PayloadView| !p.ready(threshold)
}

/// The hash of a payload.
pub open spec fn hash_of() -> spec_fn(PayloadView) -> PayloadHash {
    |p: PayloadView| p.hash
}

/// What a payload keeps reserved of the funds of `who`: its deposit where
/// `who` submitted it, nothing otherwise.
pub open spec fn due(payload: PayloadView, who: AccountId) -> nat {
    if payload.submitter == who {
        payload.deposit
    } else {
        0
    }
}

/// What the given payloads together keep reserved of the funds of `who`.
pub open spec fn owed_in(pending: Seq<PayloadView>, who: AccountId) -> nat
    decreases pending.len(),
{
    if pending.len() == 0 {
        0
    } else {
        owed_in(pending.drop_last(), who) + due(pending.last(), who)
    }
}

/// The smaller of two numbers.
pub open spec fn smaller(a: nat, b: nat) -> nat {
    if a <= b {
        a
    } else {
        b
    }
}

/// A group: the account it controls, its members, how many of them must
/// approve, the payloads that wait, and the hashes of those that ran.
pub struct GroupView {
    pub account: AccountId,
    pub members: Set<AccountId>,
    pub threshold: nat,
    pub pending: Seq<PayloadView>,
    pub executed: Set<PayloadHash>,
}

impl GroupView {
    /// Whether a payload with this hash waits in the group.
    pub open spec fn is_pending(self, hash: PayloadHash) -> bool {
        exists|i: int| 0 <= i < self.pending.len() && self.pending[i].hash == hash
    }

    /// Where the payload with this hash waits.
    pub open spec fn index_of(self, hash: PayloadHash) -> int {
        choose|i: int| 0 <= i < self.pending.len() && self.pending[i].hash == hash
    }

    /// The payload with this hash.
    pub open spec fn payload(self, hash: PayloadHash) -> PayloadView {
        self.pending[self.index_of(hash)]
    }

    /// The funds that the group's waiting payloads keep reserved.
    pub open spec fn held(self) -> nat {
        sum_deposits(self.pending)
    }

    /// What holds of every group at every moment.
    pub open spec fn wf(self) -> bool {
        &&& self.members.finite()
        &&& self.executed.finite()
        &&& 1 <= self.threshold <= self.members.len()
        &&& forall|i: int, j: int|
            0 <= i < j < self.pending.len() ==> self.pending[i].hash != self.pending[j].hash
        &&& forall|i: int|
            0 <= i < self.pending.len() ==> {
                &&& (#[trigger] self.pending[i]).approvals.finite()
                &&& self.pending[i].approvals.subset_of(self.members)
                &&& !self.executed.contains(self.pending[i].hash)
                &&& payload_hash(self.pending[i].bytes, self.pending[i].hash)
                &&& self.pending[i].deposit <= Balance::MAX
            }
    }

    /// Why the group would not take a payload with this hash from `submitter`.
    pub open spec fn submission_refusal(self, submitter: AccountId, hash: PayloadHash) -> Option<
        Error,
    > {
        if !self.members.contains(submitter) {
            Some(Error::NotAMember)
        } else if self.is_pending(hash) {
            Some(Error::DuplicatePayload)
        } else {
            None
        }
    }

    /// Why `requester` could not withdraw the payload with this hash.
    pub open spec fn withdrawal_refusal(self, hash: PayloadHash, requester: AccountId) -> Option<
        Error,
    > {
        if !self.is_pending(hash) {
            Some(Error::PayloadNotFound)
        } else if self.payload(hash).submitter != requester {
            Some(Error::NotSubmitter)
        } else {
            None
        }
    }

    /// Why `member` could not approve the payload with this hash.
    pub open spec fn approval_refusal(self, hash: PayloadHash, member: AccountId) -> Option<
        Error,
    > {
        if !self.members.contains(member) {
            Some(Error::NotAMember)
        } else if !self.is_pending(hash) {
            Some(Error::PayloadNotFound)
        } else if self.payload(hash).approvals.contains(member) {
            Some(Error::AlreadyApproved)
        } else {
            None
        }
    }

    /// Why `member` could not take back an approval of the payload with this hash.
    pub open spec fn unapproval_refusal(self, hash: PayloadHash, member: AccountId) -> Option<
        Error,
    > {
        if !self.is_pending(hash) {
            if self.executed.contains(hash) {
                Some(Error::AlreadyExecuted)
            } else {
                Some(Error::PayloadNotFound)
            }
        } else if !self.payload(hash).approvals.contains(member) {
            Some(Error::NotApproved)
        } else {
            None
        }
    }

    /// Why the payload with this hash could not run.
    pub open spec fn execution_refusal(self, hash: PayloadHash) -> Option<Error> {
        if !self.is_pending(hash) {
            if self.executed.contains(hash) {
                Some(Error::AlreadyExecuted)
            } else {
                Some(Error::PayloadNotFound)
            }
        } else if !self.payload(hash).ready(self.threshold) {
            Some(Error::ThresholdNotMet)
        } else {
            None
        }
    }

    /// Why `who` could not be removed from the members.
    pub open spec fn removal_refusal(self, who: AccountId) -> Option<Error> {
        if !self.members.contains(who) {
            Some(Error::NotAMember)
        } else if self.members.len() == 1 {
            Some(Error::LastMemberRemoval)
        } else {
            None
        }
    }

    /// Why the threshold could not become `threshold`.
    pub open spec fn threshold_refusal(self, threshold: nat) -> Option<Error> {
        if threshold == 0 {
            Some(Error::InvalidThreshold)
        } else if threshold > self.members.len() {
            Some(Error::ThresholdExceedsMembers)
        } else {
            None
        }
    }

    /// A new group with nothing pending.
    pub open spec fn founded(account: AccountId, members: Set<AccountId>, threshold: nat)
        -> GroupView {
        GroupView {
            account,
            members,
            threshold,
            pending: Seq::empty(),
            executed: Set::empty(),
        }
    }

    /// The group with `who` among its members.
    pub open spec fn with_member(self, who: AccountId) -> GroupView {
        GroupView { members: self.members.insert(who), ..self }
    }

    /// The group without the member `who`: the approvals of `who` are gone,
    /// and the threshold asks for no more members than are left.
    pub open spec fn without_member(self, who: AccountId) -> GroupView {
        GroupView {
            members: self.members.remove(who),
            threshold: smaller(self.threshold, self.members.remove(who).len()),
            pending: self.pending.map_values(|p: PayloadView| p.unapproved_by(who)),
            ..self
        }
    }

    /// The group with another threshold.
    pub open spec fn with_threshold(self, threshold: nat) -> GroupView {
        GroupView { threshold, ..self }
    }

    /// The group with one more waiting payload.
    pub open spec fn with_payload(self, payload: PayloadView) -> GroupView {
        GroupView {
            pending: self.pending.push(payload),
            executed: self.executed.remove(payload.hash),
            ..self
        }
    }

    /// The group after the payload at `i` was withdrawn.
    pub open spec fn without_payload(self, i: int) -> GroupView {
        GroupView { pending: self.pending.remove(i), ..self }
    }

    /// The group after `who` approved the payload at `i`.
    pub open spec fn with_approval(self, i: int, who: AccountId) -> GroupView {
        GroupView { pending: self.pending.update(i, self.pending[i].approved_by(who)), ..self }
    }

    /// The group after `who` took back the approval of the payload at `i`.
    pub open spec fn without_approval(self, i: int, who: AccountId) -> GroupView {
        GroupView {
            pending: self.pending.update(i, self.pending[i].unapproved_by(who)),
            ..self
        }
    }

    /// The group after the payload at `i` ran.
    pub open spec fn executed_at(self, i: int) -> GroupView {
        GroupView {
            pending: self.pending.remove(i),
            executed: self.executed.insert(self.pending[i].hash),
            ..self
        }
    }

    /// The waiting payloads that have enough approvals, oldest first.
    pub open spec fn ready_now(self) -> Seq<PayloadView> {
        self.pending.filter(is_ready(self.threshold))
    }

    /// The group after every payload with enough approvals ran.
    pub open spec fn settled(self) -> GroupView {
        GroupView {
            pending: self.pending.filter(is_waiting(self.threshold)),
            executed: self.executed.union(self.ready_now().map_values(hash_of()).to_set()),
            ..self
        }
    }

    /// Whether no waiting payload has enough approvals.
    pub open spec fn quiescent(self) -> bool {
        forall|i: int|
            0 <= i < self.pending.len() ==> !(#[trigger] self.pending[i]).ready(self.threshold)
    }
}

/// In a well-formed group a hash names at most one waiting payload.
pub proof fn lemma_index_of(g: GroupView, i: int)
    requires
        g.wf(),
        0 <= i < g.pending.len(),
    ensures
        g.is_pending(g.pending[i].hash),
        g.index_of(g.pending[i].hash) == i,
{
    let j = g.index_of(g.pending[i].hash);
    assert(0 <= j < g.pending.len() && g.pending[j].hash == g.pending[i].hash);
    if j < i {
        assert(g.pending[j].hash != g.pending[i].hash);
    }
    if i < j {
        assert(g.pending[i].hash != g.pending[j].hash);
    }
}

/// The sum of the deposits after one more payload.
pub proof fn lemma_sum_push(pending: Seq<PayloadView>, payload: PayloadView)
    ensures
        sum_deposits(pending.push(payload)) == sum_deposits(pending) + payload.deposit,
{
    assert(pending.push(payload).drop_last() =~= pending);
}

/// The sum of the deposits after one payload left.
pub proof fn lemma_sum_remove(pending: Seq<PayloadView>, i: int)
    requires
        0 <= i < pending.len(),
    ensures
        sum_deposits(pending.remove(i)) + pending[i].deposit == sum_deposits(pending),
    decreases pending.len(),
{
    if i == pending.len() - 1 {
        assert(pending.remove(i) =~= pending.drop_last());
    } else {
        lemma_sum_remove(pending.drop_last(), i);
        assert(pending.remove(i).drop_last() =~= pending.drop_last().remove(i));
        assert(pending.remove(i).last() == pending.last());
    }
}

/// Deposits that each fit a balance add up to at most that many balances.
pub proof fn lemma_sum_bound(pending: Seq<PayloadView>)
    requires
        forall|i: int| 0 <= i < pending.len() ==> (#[trigger] pending[i]).deposit <= Balance::MAX,
    ensures
        sum_deposits(pending) <= pending.len() * Balance::MAX,
    decreases pending.len(),
{
    if pending.len() > 0 {
        lemma_sum_bound(pending.drop_last());
        assert(sum_deposits(pending) <= (pending.len() - 1) * Balance::MAX + Balance::MAX);
        assert((pending.len() - 1) * Balance::MAX + Balance::MAX == pending.len()
            * Balance::MAX) by (nonlinear_arith);
    }
}

/// The sum of the deposits does not depend on who approved.
pub proof fn lemma_sum_same_deposits(a: Seq<PayloadView>, b: Seq<PayloadView>)
    requires
        a.len() == b.len(),
        forall|i: int| 0 <= i < a.len() ==> a[i].deposit == b[i].deposit,
    ensures
        sum_deposits(a) == sum_deposits(b),
    decreases a.len(),
{
    if a.len() > 0 {
        lemma_sum_same_deposits(a.drop_last(), b.drop_last());
    }
}

/// What is owed to `who` after one more payload.
pub proof fn lemma_owed_push(pending: Seq<PayloadView>, payload: PayloadView, who: AccountId)
    ensures
        owed_in(pending.push(payload), who) == owed_in(pending, who) + due(payload, who),
{
    assert(pending.push(payload).drop_last() =~= pending);
}

/// What is owed to `who` after one payload left.
pub proof fn lemma_owed_remove(pending: Seq<PayloadView>, i: int, who: AccountId)
    requires
        0 <= i < pending.len(),
    ensures
        owed_in(pending.remove(i), who) + due(pending[i], who) == owed_in(pending, who),
    decreases pending.len(),
{
    if i == pending.len() - 1 {
        assert(pending.remove(i) =~= pending.drop_last());
    } else {
        lemma_owed_remove(pending.drop_last(), i, who);
        assert(pending.remove(i).drop_last() =~= pending.drop_last().remove(i));
        assert(pending.remove(i).last() == pending.last());
    }
}

/// What is owed to `who` does not depend on who approved.
pub proof fn lemma_owed_same(a: Seq<PayloadView>, b: Seq<PayloadView>, who: AccountId)
    requires
        a.len() == b.len(),
        forall|i: int|
            0 <= i < a.len() ==> a[i].deposit == b[i].deposit && a[i].submitter == b[i].submitter,
    ensures
        owed_in(a, who) == owed_in(b, who),
    decreases a.len(),
{
    if a.len() > 0 {
        lemma_owed_same(a.drop_last(), b.drop_last(), who);
    }
}

/// What is owed to `who` by the payloads that run and by those that wait
/// adds up to what all of them owe.
pub proof fn lemma_owed_split(pending: Seq<PayloadView>, threshold: nat, who: AccountId)
    ensures
        owed_in(pending.filter(is_waiting(threshold)), who) + owed_in(
            pending.filter(is_ready(threshold)),
            who,
        ) == owed_in(pending, who),
    decreases pending.len(),
{
    reveal(Seq::filter);
    if pending.len() > 0 {
        let rest = pending.drop_last();
        let last = pending.last();
        lemma_owed_split(rest, threshold, who);
        assert(pending =~= rest.push(last));
        rest.lemma_filter_push(last, is_waiting(threshold));
        rest.lemma_filter_push(last, is_ready(threshold));
        if last.ready(threshold) {
            lemma_owed_push(rest.filter(is_ready(threshold)), last, who);
        } else {
            lemma_owed_push(rest.filter(is_waiting(threshold)), last, who);
        }
    }
}

/// A payload owes no more than all payloads together.
pub proof fn lemma_owed_covers(pending: Seq<PayloadView>, i: int, who: AccountId)
    requires
        0 <= i < pending.len(),
    ensures
        owed_in(pending, who) >= due(pending[i], who),
{
    lemma_owed_remove(pending, i, who);
}

} // verus!
