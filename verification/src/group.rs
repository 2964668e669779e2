//! A group in memory: membership, stored payloads and their approvals.

use crate::hashing::{digest_of, hash_payload, payload_hash};
use crate::ident::{AccountId, Balance, Error, PayloadHash};
use crate::keyset::{distinct, holds, lemma_len_is_set_len, put, take};
use crate::model::{
    hash_of, is_ready, is_waiting, lemma_index_of, lemma_sum_bound, lemma_sum_push,
    lemma_sum_remove, lemma_sum_same_deposits, smaller, sum_deposits, GroupView, PayloadView,
};
use vstd::prelude::*;

verus! {

/// A stored payload.
#[derive(Debug)]
pub struct Payload {
    pub hash: PayloadHash,
    pub bytes: Vec<u8>,
    pub submitter: AccountId,
    pub deposit: Balance,
    pub approvals: Vec<AccountId>,
}

impl View for Payload {
    type V = PayloadView;

    open spec fn view(&self) -> PayloadView {
        PayloadView {
            hash: self.hash,
            bytes: self.bytes@,
            submitter: self.submitter,
            deposit: self.deposit as nat,
            approvals: self.approvals@.to_set(),
        }
    }
}

/// The model of each payload of a list.
pub open spec fn payload_views(pending: Seq<Payload>) -> Seq<PayloadView> {
    pending.map_values(|p: Payload| p@)
}

/// A group: its members, its threshold, its waiting payloads.
#[derive(Debug)]
pub struct Group {
    account: AccountId,
    members: Vec<AccountId>,
    threshold: u32,
    pending: Vec<Payload>,
    executed: Vec<PayloadHash>,
    held: u128,
}

impl View for Group {
    type V = GroupView;

    closed spec fn view(&self) -> GroupView {
        GroupView {
            account: self.account,
            members: self.members@.to_set(),
            threshold: self.threshold as nat,
            pending: payload_views(self.pending@),
            executed: self.executed@.to_set(),
        }
    }
}

impl Group {
    /// What the representation keeps true beyond the model's own rules.
    pub closed spec fn wf(&self) -> bool {
        &&& self.members@.no_duplicates()
        &&& self.executed@.no_duplicates()
        &&& forall|i: int|
            0 <= i < self.pending@.len() ==> (#[trigger] self.pending@[i]).approvals@.no_duplicates()
        &&& self@.wf()
        &&& self.held as nat == sum_deposits(self@.pending)
    }

    /// A well-formed group in memory stands for a well-formed group.
    pub proof fn lemma_wf(&self)
        requires
            self.wf(),
        ensures
            self@.wf(),
            self@.threshold <= u32::MAX,
            self@.held() <= u128::MAX,
    {
    }

    /// Founds a group. The founders are taken as a set; the threshold must
    /// ask for at least one of them and for no more than there are.
    pub fn new(account: AccountId, founders: &Vec<AccountId>, threshold: u32) -> (made: Result<
        Group,
        Error,
    >)
        ensures
            made.is_ok() <==> 1 <= threshold <= founders@.to_set().len(),
            match made {
                Ok(g) => g.wf() && g@ == GroupView::founded(
                    account,
                    founders@.to_set(),
                    threshold as nat,
                ),
                Err(e) => e == Error::InvalidThreshold,
            },
    {
        let members = distinct(founders);
        proof {
            lemma_len_is_set_len(members@);
        }
        if threshold == 0 || threshold as usize > members.len() {
            return Err(Error::InvalidThreshold);
        }
        let g = Group {
            account,
            members,
            threshold,
            pending: Vec::new(),
            executed: Vec::new(),
            held: 0,
        };
        proof {
            assert(g@.pending =~= Seq::<PayloadView>::empty());
            assert(g@.executed =~= Set::<PayloadHash>::empty());
        }
        Ok(g)
    }

    /// The account that the group controls.
    pub fn account(&self) -> (account: AccountId)
        ensures
            account == self@.account,
    {
        self.account
    }

    /// How many members must approve.
    pub fn threshold(&self) -> (threshold: u32)
        ensures
            threshold as nat == self@.threshold,
    {
        self.threshold
    }

    /// How many members the group has.
    pub fn member_count(&self) -> (count: usize)
        requires
            self.wf(),
        ensures
            count as nat == self@.members.len(),
    {
        proof {
            lemma_len_is_set_len(self.members@);
        }
        self.members.len()
    }

    /// How many payloads wait.
    pub fn pending_count(&self) -> (count: usize)
        ensures
            count as nat == self@.pending.len(),
    {
        self.pending.len()
    }

    /// Whether `who` is a member.
    pub fn is_member(&self, who: &AccountId) -> (found: bool)
        ensures
            found == self@.members.contains(*who),
    {
        holds(&self.members, who)
    }

    /// Whether a payload with this hash ran and was not submitted again since.
    pub fn has_executed(&self, hash: &PayloadHash) -> (found: bool)
        ensures
            found == self@.executed.contains(*hash),
    {
        holds(&self.executed, hash)
    }

    /// The funds that the waiting payloads keep reserved.
    pub fn held(&self) -> (total: u128)
        requires
            self.wf(),
        ensures
            total as nat == self@.held(),
    {
        self.held
    }

    /// Where the payload with this hash waits.
    fn find(&self, hash: &PayloadHash) -> (at: Option<usize>)
        requires
            self.wf(),
        ensures
            at.is_some() == self@.is_pending(*hash),
            match at {
                Some(i) => i < self.pending@.len() && i as int == self@.index_of(*hash)
                    && self.pending@[i as int].hash == *hash,
                None => true,
            },
    {
        let mut i: usize = 0;
        while i < self.pending.len()
            invariant
                self.wf(),
                i <= self.pending@.len(),
                forall|j: int| 0 <= j < i ==> self.pending@[j].hash != *hash,
            decreases self.pending@.len() - i,
        {
            if self.pending[i].hash == *hash {
                proof {
                    assert(self@.pending[i as int].hash == *hash);
                    lemma_index_of(self@, i as int);
                }
                return Some(i);
            }
            i += 1;
        }
        proof {
            if self@.is_pending(*hash) {
                let j = self@.index_of(*hash);
                assert(self@.pending[j].hash == self.pending@[j].hash);
            }
        }
        None
    }

    /// Whether a payload with this hash waits.
    pub fn is_pending(&self, hash: &PayloadHash) -> (found: bool)
        requires
            self.wf(),
        ensures
            found == self@.is_pending(*hash),
    {
        self.find(hash).is_some()
    }

    /// How many members have approved the payload with this hash.
    pub fn approval_count(&self, hash: &PayloadHash) -> (count: Option<usize>)
        requires
            self.wf(),
        ensures
            count.is_some() == self@.is_pending(*hash),
            count.is_some() ==> count.unwrap() as nat == self@.payload(*hash).approvals.len(),
    {
        match self.find(hash) {
            Some(i) => {
                proof {
                    lemma_len_is_set_len(self.pending@[i as int].approvals@);
                    assert(self@.pending[i as int] == self.pending@[i as int]@);
                }
                Some(self.pending[i].approvals.len())
            },
            None => None,
        }
    }

    /// The members, each once.
    pub fn members(&self) -> (list: Vec<AccountId>)
        requires
            self.wf(),
        ensures
            list@.no_duplicates(),
            list@.to_set() == self@.members,
    {
        let mut list: Vec<AccountId> = Vec::new();
        let mut i: usize = 0;
        while i < self.members.len()
            invariant
                i <= self.members@.len(),
                list@ == self.members@.take(i as int),
            decreases self.members@.len() - i,
        {
            list.push(self.members[i]);
            proof {
                assert(list@ =~= self.members@.take(i + 1));
            }
            i += 1;
        }
        proof {
            assert(list@ =~= self.members@);
        }
        list
    }

    /// The payload that waits under this hash.
    pub fn payload(&self, hash: &PayloadHash) -> (found: Option<&Payload>)
        requires
            self.wf(),
        ensures
            found.is_some() == self@.is_pending(*hash),
            found.is_some() ==> found.unwrap()@ == self@.payload(*hash),
    {
        match self.find(hash) {
            Some(i) => {
                proof {
                    assert(self@.pending[i as int] == self.pending@[i as int]@);
                }
                Some(&self.pending[i])
            },
            None => None,
        }
    }

    /// The hashes of the waiting payloads, oldest first.
    pub fn pending_hashes(&self) -> (hashes: Vec<PayloadHash>)
        ensures
            hashes@ == self@.pending.map_values(hash_of()),
    {
        let mut hashes: Vec<PayloadHash> = Vec::new();
        let mut i: usize = 0;
        while i < self.pending.len()
            invariant
                i <= self.pending@.len(),
                hashes@ == self@.pending.take(i as int).map_values(hash_of()),
            decreases self.pending@.len() - i,
        {
            hashes.push(self.pending[i].hash);
            proof {
                assert(self@.pending[i as int] == self.pending@[i as int]@);
                assert(hashes@ =~= self@.pending.take(i + 1).map_values(hash_of()));
            }
            i += 1;
        }
        proof {
            assert(self@.pending.take(i as int) =~= self@.pending);
        }
        hashes
    }

    /// Takes `who` among the members.
    pub fn add_member(&mut self, who: AccountId)
        requires
            old(self).wf(),
        ensures
            final(self).wf(),
            final(self)@ == old(self)@.with_member(who),
    {
        proof {
            lemma_len_is_set_len(self.members@);
        }
        put(&mut self.members, who);
        proof {
            lemma_len_is_set_len(self.members@);
            assert forall|i: int| 0 <= i < self@.pending.len() implies (
            #[trigger] self@.pending[i]).approvals.subset_of(self@.members) by {
                assert(old(self)@.pending[i].approvals.subset_of(old(self)@.members));
            }
        }
    }

    /// Sets the number of members that must approve.
    pub fn set_threshold(&mut self, threshold: u32) -> (done: Result<(), Error>)
        requires
            old(self).wf(),
        ensures
            final(self).wf(),
            done.is_err() <==> old(self)@.threshold_refusal(threshold as nat).is_some(),
            match done {
                Ok(_) => final(self)@ == old(self)@.with_threshold(threshold as nat),
                Err(e) => Some(e) == old(self)@.threshold_refusal(threshold as nat) && *final(self)
                    == *old(self),
            },
    {
        proof {
            lemma_len_is_set_len(self.members@);
        }
        if threshold == 0 {
            return Err(Error::InvalidThreshold);
        }
        if threshold as usize > self.members.len() {
            return Err(Error::ThresholdExceedsMembers);
        }
        self.threshold = threshold;
        Ok(())
    }

    /// Removes a member: the member's approvals go too, and the threshold
    /// comes down to the number of members left where it was higher.
    pub fn remove_member(&mut self, who: &AccountId) -> (done: Result<(), Error>)
        requires
            old(self).wf(),
        ensures
            final(self).wf(),
            done.is_err() <==> old(self)@.removal_refusal(*who).is_some(),
            match done {
                Ok(_) => final(self)@ == old(self)@.without_member(*who),
                Err(e) => Some(e) == old(self)@.removal_refusal(*who) && *final(self) == *old(self),
            },
    {
        proof {
            lemma_len_is_set_len(self.members@);
        }
        if !holds(&self.members, who) {
            return Err(Error::NotAMember);
        }
        if self.members.len() == 1 {
            return Err(Error::LastMemberRemoval);
        }
        take(&mut self.members, who);
        proof {
            lemma_len_is_set_len(self.members@);
        }
        if self.threshold as usize > self.members.len() {
            self.threshold = self.members.len() as u32;
        }
        let mut i: usize = 0;
        while i < self.pending.len()
            invariant
                i <= self.pending@.len(),
                self.pending@.len() == old(self).pending@.len(),
                self.account == old(self).account,
                self.executed == old(self).executed,
                self.held == old(self).held,
                self.members@.no_duplicates(),
                self.members@.to_set() == old(self).members@.to_set().remove(*who),
                self.threshold as nat == smaller(
                    old(self).threshold as nat,
                    self.members@.to_set().len(),
                ),
                forall|j: int|
                    0 <= j < i ==> (#[trigger] self.pending@[j])@ == old(self).pending@[j]@.unapproved_by(*who) && self.pending@[j].approvals@.no_duplicates(),
                forall|j: int|
                    i <= j < self.pending@.len() ==> #[trigger] self.pending@[j] == old(self).pending@[j],
                old(self).wf(),
            decreases self.pending@.len() - i,
        {
            take(&mut self.pending[i].approvals, who);
            i += 1;
        }
        proof {
            let before = old(self)@;
            let after = self@;
            assert(after.pending =~= before.pending.map_values(
                |p: PayloadView| p.unapproved_by(*who),
            )) by {
                assert forall|j: int| 0 <= j < after.pending.len() implies after.pending[j]
                    == before.pending[j].unapproved_by(*who) by {
                    assert(self.pending@[j]@ == old(self).pending@[j]@.unapproved_by(*who));
                }
            }
            assert(after == before.without_member(*who));
            lemma_sum_same_deposits(after.pending, before.pending);
            assert forall|j: int| 0 <= j < after.pending.len() implies {
                &&& (#[trigger] after.pending[j]).approvals.finite()
                &&& after.pending[j].approvals.subset_of(after.members)
                &&& !after.executed.contains(after.pending[j].hash)
                &&& payload_hash(after.pending[j].bytes, after.pending[j].hash)
                &&& after.pending[j].deposit <= Balance::MAX
            } by {
                assert(before.pending[j].approvals.subset_of(before.members));
            }
            assert forall|a: int, b: int| 0 <= a < b < after.pending.len() implies after.pending[a].hash
                != after.pending[b].hash by {
                assert(before.pending[a].hash != before.pending[b].hash);
            }
        }
        Ok(())
    }

    /// Whether the group would take `bytes` from `submitter`; the hash under
    /// which it would store them.
    pub fn check_submission(&self, submitter: &AccountId, bytes: &Vec<u8>) -> (checked: Result<
        PayloadHash,
        Error,
    >)
        requires
            self.wf(),
        ensures
            checked.is_err() <==> self@.submission_refusal(*submitter, digest_of(bytes@)).is_some(),
            match checked {
                Ok(h) => h == digest_of(bytes@) && payload_hash(bytes@, h),
                Err(e) => Some(e) == self@.submission_refusal(*submitter, digest_of(bytes@)),
            },
    {
        if !holds(&self.members, submitter) {
            return Err(Error::NotAMember);
        }
        let hash = hash_payload(bytes);
        if self.find(&hash).is_some() {
            return Err(Error::DuplicatePayload);
        }
        Ok(hash)
    }

    /// Stores `bytes` as a payload of `submitter`, who must be a member,
    /// backed by `deposit`, with no approvals yet. The bytes must not be
    /// those of a payload that waits already.
    pub fn submit(&mut self, submitter: AccountId, bytes: Vec<u8>, deposit: Balance) -> (done:
        Result<PayloadHash, Error>)
        requires
            old(self).wf(),
        ensures
            final(self).wf(),
            match old(self)@.submission_refusal(submitter, digest_of(bytes@)) {
                Some(e) => done == Err::<PayloadHash, Error>(e) && *final(self) == *old(self),
                None => done == Ok::<PayloadHash, Error>(digest_of(bytes@)) && final(self)@ == old(self)@.with_payload(
                    PayloadView {
                        hash: digest_of(bytes@),
                        bytes: bytes@,
                        submitter,
                        deposit: deposit as nat,
                        approvals: Set::empty(),
                    },
                ),
            },
    {
        let hash = match self.check_submission(&submitter, &bytes) {
            Err(e) => {
                return Err(e);
            },
            Ok(hash) => hash,
        };
        let payload = Payload { hash, bytes, submitter, deposit, approvals: Vec::new() };
        proof {
            assert(payload@.approvals =~= Set::<AccountId>::empty());
        }
        self.store(payload);
        Ok(hash)
    }

    /// Stores a payload that `check_submission` let through, under the hash
    /// that it gave.
    pub fn store(&mut self, payload: Payload)
        requires
            old(self).wf(),
            payload.approvals@.len() == 0,
            payload_hash(payload.bytes@, payload.hash),
            old(self)@.submission_refusal(payload.submitter, payload.hash).is_none(),
        ensures
            final(self).wf(),
            final(self)@ == old(self)@.with_payload(payload@),
    {
        let waiting: usize = self.pending.len();
        proof {
            assert(self@.pending.len() == waiting);
            lemma_sum_bound(self@.pending);
            lemma_sum_push(self@.pending, payload@);
            assert(self@.pending.len() * Balance::MAX <= usize::MAX * Balance::MAX)
                by (nonlinear_arith)
                requires
                    self@.pending.len() <= usize::MAX,
            ;
            assert(usize::MAX * Balance::MAX <= Balance::MAX * Balance::MAX) by (nonlinear_arith)
                requires
                    usize::MAX <= Balance::MAX,
            ;
            assert(payload@.approvals =~= Set::<AccountId>::empty());
        }
        take(&mut self.executed, &payload.hash);
        self.held = self.held + payload.deposit as u128;
        let ghost stored = payload@;
        self.pending.push(payload);
        proof {
            let before = old(self)@;
            let after = self@;
            assert(after.pending =~= before.pending.push(stored));
            assert(after == before.with_payload(stored));
            assert forall|i: int, j: int| 0 <= i < j < after.pending.len() implies after.pending[i].hash
                != after.pending[j].hash by {
                if j == before.pending.len() {
                    assert(before.pending[i].hash != stored.hash);
                } else {
                    assert(before.pending[i].hash != before.pending[j].hash);
                }
            }
            assert forall|i: int| 0 <= i < after.pending.len() implies {
                &&& (#[trigger] after.pending[i]).approvals.finite()
                &&& after.pending[i].approvals.subset_of(after.members)
                &&& !after.executed.contains(after.pending[i].hash)
                &&& payload_hash(after.pending[i].bytes, after.pending[i].hash)
                &&& after.pending[i].deposit <= Balance::MAX
            } by {
                if i < before.pending.len() {
                    assert(after.pending[i] == before.pending[i]);
                }
            }
            assert forall|i: int| 0 <= i < self.pending@.len() implies (
            #[trigger] self.pending@[i]).approvals@.no_duplicates() by {
                if i < old(self).pending@.len() {
                    assert(self.pending@[i] == old(self).pending@[i]);
                }
            }
        }
    }

    /// Takes the payload at `i` out of the store; `ran` says whether it ran.
    fn remove_at(&mut self, i: usize, ran: bool) -> (payload: Payload)
        requires
            old(self).wf(),
            i < old(self)@.pending.len(),
        ensures
            final(self).wf(),
            payload@ == old(self)@.pending[i as int],
            payload.approvals@.no_duplicates(),
            final(self)@ == if ran {
                old(self)@.executed_at(i as int)
            } else {
                old(self)@.without_payload(i as int)
            },
    {
        proof {
            lemma_sum_remove(self@.pending, i as int);
        }
        let payload = self.pending.remove(i);
        self.held = self.held - payload.deposit as u128;
        if ran {
            put(&mut self.executed, payload.hash);
        }
        proof {
            let before = old(self)@;
            let after = self@;
            assert(after.pending =~= before.pending.remove(i as int));
            assert forall|a: int, b: int| 0 <= a < b < after.pending.len() implies after.pending[a].hash
                != after.pending[b].hash by {
                let a0 = if a < i { a } else { a + 1 };
                let b0 = if b < i { b } else { b + 1 };
                assert(before.pending[a0].hash != before.pending[b0].hash);
            }
            assert forall|a: int| 0 <= a < after.pending.len() implies {
                &&& (#[trigger] after.pending[a]).approvals.finite()
                &&& after.pending[a].approvals.subset_of(after.members)
                &&& !after.executed.contains(after.pending[a].hash)
                &&& payload_hash(after.pending[a].bytes, after.pending[a].hash)
                &&& after.pending[a].deposit <= Balance::MAX
            } by {
                let a0 = if a < i { a } else { a + 1 };
                assert(after.pending[a] == before.pending[a0]);
                if a0 < i {
                    assert(before.pending[a0].hash != before.pending[i as int].hash);
                } else {
                    assert(before.pending[i as int].hash != before.pending[a0].hash);
                }
            }
            assert forall|a: int| 0 <= a < self.pending@.len() implies (
            #[trigger] self.pending@[a]).approvals@.no_duplicates() by {
                let a0 = if a < i { a } else { a + 1 };
                assert(self.pending@[a] == old(self).pending@[a0]);
            }
        }
        payload
    }

    /// Takes a stored payload back: only its submitter may.
    pub fn withdraw(&mut self, hash: &PayloadHash, requester: &AccountId) -> (taken: Result<
        Payload,
        Error,
    >)
        requires
            old(self).wf(),
        ensures
            final(self).wf(),
            taken.is_err() <==> old(self)@.withdrawal_refusal(*hash, *requester).is_some(),
            match taken {
                Ok(p) => p@ == old(self)@.payload(*hash) && final(self)@ == old(self)@.without_payload(old(self)@.index_of(*hash)),
                Err(e) => Some(e) == old(self)@.withdrawal_refusal(*hash, *requester) && *final(self) == *old(self),
            },
    {
        match self.find(hash) {
            None => Err(Error::PayloadNotFound),
            Some(i) => {
                if self.pending[i].submitter != *requester {
                    assert(self@.pending[i as int].submitter == self.pending@[i as int].submitter);
                    Err(Error::NotSubmitter)
                } else {
                    assert(self@.pending[i as int].submitter == self.pending@[i as int].submitter);
                    Ok(self.remove_at(i, false))
                }
            },
        }
    }

    /// Takes a payload that ran out of the store and remembers its hash.
    /// Where no such payload waits, nothing changes.
    pub fn purge_on_execution(&mut self, hash: &PayloadHash) -> (purged: Option<Payload>)
        requires
            old(self).wf(),
        ensures
            final(self).wf(),
            purged.is_some() == old(self)@.is_pending(*hash),
            match purged {
                Some(p) => p@ == old(self)@.payload(*hash) && final(self)@ == old(self)@.executed_at(old(self)@.index_of(*hash)),
                None => *final(self) == *old(self),
            },
    {
        match self.find(hash) {
            None => None,
            Some(i) => Some(self.remove_at(i, true)),
        }
    }

    /// Whether the payload at `i` has enough approvals.
    fn ready_at(&self, i: usize) -> (ready: bool)
        requires
            self.wf(),
            i < self@.pending.len(),
        ensures
            ready == self@.pending[i as int].ready(self@.threshold),
    {
        proof {
            lemma_len_is_set_len(self.pending@[i as int].approvals@);
            assert(self@.pending[i as int] == self.pending@[i as int]@);
        }
        self.pending[i].approvals.len() >= self.threshold as usize
    }

    /// Runs the payload with this hash if enough members have approved it:
    /// the payload leaves the store and is handed out.
    pub fn try_execute(&mut self, hash: &PayloadHash) -> (run: Result<Payload, Error>)
        requires
            old(self).wf(),
        ensures
            final(self).wf(),
            run.is_err() <==> old(self)@.execution_refusal(*hash).is_some(),
            match run {
                Ok(p) => p@ == old(self)@.payload(*hash) && final(self)@ == old(self)@.executed_at(
                    old(self)@.index_of(*hash),
                ),
                Err(e) => Some(e) == old(self)@.execution_refusal(*hash) && *final(self) == *old(self),
            },
    {
        match self.find(hash) {
            None => {
                if holds(&self.executed, hash) {
                    Err(Error::AlreadyExecuted)
                } else {
                    Err(Error::PayloadNotFound)
                }
            },
            Some(i) => {
                if self.ready_at(i) {
                    Ok(self.remove_at(i, true))
                } else {
                    Err(Error::ThresholdNotMet)
                }
            },
        }
    }

    /// Records the approval of `member`; says whether the payload now has
    /// enough approvals.
    pub fn approve(&mut self, hash: &PayloadHash, member: &AccountId) -> (voted: Result<
        bool,
        Error,
    >)
        requires
            old(self).wf(),
        ensures
            final(self).wf(),
            voted.is_err() <==> old(self)@.approval_refusal(*hash, *member).is_some(),
            match voted {
                Ok(ready) => final(self)@ == old(self)@.with_approval(
                    old(self)@.index_of(*hash),
                    *member,
                ) && ready == old(self)@.payload(*hash).approved_by(*member).ready(
                    old(self)@.threshold,
                ),
                Err(e) => Some(e) == old(self)@.approval_refusal(*hash, *member) && *final(self)
                    == *old(self),
            },
    {
        if !holds(&self.members, member) {
            return Err(Error::NotAMember);
        }
        match self.find(hash) {
            None => Err(Error::PayloadNotFound),
            Some(i) => {
                assert(self@.pending[i as int] == self.pending@[i as int]@);
                if holds(&self.pending[i].approvals, member) {
                    return Err(Error::AlreadyApproved);
                }
                put(&mut self.pending[i].approvals, *member);
                proof {
                    let before = old(self)@;
                    let after = self@;
                    assert(self.pending@[i as int]@ == before.pending[i as int].approved_by(
                        *member,
                    ));
                    assert(after.pending =~= before.pending.update(
                        i as int,
                        before.pending[i as int].approved_by(*member),
                    )) by {
                        assert forall|j: int| 0 <= j < after.pending.len() implies after.pending[j]
                            == before.pending.update(
                            i as int,
                            before.pending[i as int].approved_by(*member),
                        )[j] by {
                            if j != i {
                                assert(self.pending@[j] == old(self).pending@[j]);
                            }
                        }
                    }
                    assert(after == before.with_approval(i as int, *member));
                    lemma_sum_same_deposits(after.pending, before.pending);
                    assert forall|a: int, b: int|
                        0 <= a < b < after.pending.len() implies after.pending[a].hash
                        != after.pending[b].hash by {
                        assert(before.pending[a].hash != before.pending[b].hash);
                    }
                    assert forall|a: int| 0 <= a < after.pending.len() implies {
                        &&& (#[trigger] after.pending[a]).approvals.finite()
                        &&& after.pending[a].approvals.subset_of(after.members)
                        &&& !after.executed.contains(after.pending[a].hash)
                        &&& payload_hash(after.pending[a].bytes, after.pending[a].hash)
                        &&& after.pending[a].deposit <= Balance::MAX
                    } by {
                        assert(before.pending[a].approvals.subset_of(before.members));
                    }
                    assert forall|a: int| 0 <= a < self.pending@.len() implies (
                    #[trigger] self.pending@[a]).approvals@.no_duplicates() by {
                        if a != i {
                            assert(self.pending@[a] == old(self).pending@[a]);
                        }
                    }
                }
                Ok(self.ready_at(i))
            },
        }
    }

    /// Takes back the approval of `member`.
    pub fn unapprove(&mut self, hash: &PayloadHash, member: &AccountId) -> (done: Result<
        (),
        Error,
    >)
        requires
            old(self).wf(),
        ensures
            final(self).wf(),
            done.is_err() <==> old(self)@.unapproval_refusal(*hash, *member).is_some(),
            match done {
                Ok(_) => final(self)@ == old(self)@.without_approval(
                    old(self)@.index_of(*hash),
                    *member,
                ),
                Err(e) => Some(e) == old(self)@.unapproval_refusal(*hash, *member) && *final(self)
                    == *old(self),
            },
    {
        match self.find(hash) {
            None => {
                if holds(&self.executed, hash) {
                    Err(Error::AlreadyExecuted)
                } else {
                    Err(Error::PayloadNotFound)
                }
            },
            Some(i) => {
                assert(self@.pending[i as int] == self.pending@[i as int]@);
                if !holds(&self.pending[i].approvals, member) {
                    return Err(Error::NotApproved);
                }
                take(&mut self.pending[i].approvals, member);
                proof {
                    let before = old(self)@;
                    let after = self@;
                    assert(self.pending@[i as int]@ == before.pending[i as int].unapproved_by(
                        *member,
                    ));
                    assert(after.pending =~= before.pending.update(
                        i as int,
                        before.pending[i as int].unapproved_by(*member),
                    )) by {
                        assert forall|j: int| 0 <= j < after.pending.len() implies after.pending[j]
                            == before.pending.update(
                            i as int,
                            before.pending[i as int].unapproved_by(*member),
                        )[j] by {
                            if j != i {
                                assert(self.pending@[j] == old(self).pending@[j]);
                            }
                        }
                    }
                    assert(after == before.without_approval(i as int, *member));
                    lemma_sum_same_deposits(after.pending, before.pending);
                    assert forall|a: int, b: int|
                        0 <= a < b < after.pending.len() implies after.pending[a].hash
                        != after.pending[b].hash by {
                        assert(before.pending[a].hash != before.pending[b].hash);
                    }
                    assert forall|a: int| 0 <= a < after.pending.len() implies {
                        &&& (#[trigger] after.pending[a]).approvals.finite()
                        &&& after.pending[a].approvals.subset_of(after.members)
                        &&& !after.executed.contains(after.pending[a].hash)
                        &&& payload_hash(after.pending[a].bytes, after.pending[a].hash)
                        &&& after.pending[a].deposit <= Balance::MAX
                    } by {
                        assert(before.pending[a].approvals.subset_of(before.members));
                    }
                    assert forall|a: int| 0 <= a < self.pending@.len() implies (
                    #[trigger] self.pending@[a]).approvals@.no_duplicates() by {
                        if a != i {
                            assert(self.pending@[a] == old(self).pending@[a]);
                        }
                    }
                }
                Ok(())
            },
        }
    }

    /// Runs every waiting payload that has enough approvals, oldest first:
    /// each leaves the store and is handed out.
    pub fn take_ready(&mut self) -> (run: Vec<Payload>)
        requires
            old(self).wf(),
        ensures
            final(self).wf(),
            final(self)@ == old(self)@.settled(),
            payload_views(run@) == old(self)@.ready_now(),
    {
        let mut run: Vec<Payload> = Vec::new();
        let mut i: usize = 0;
        let ghost before = self@;
        let ghost t = before.threshold;
        proof {
            reveal(Seq::filter);
            assert(before.pending.take(0) =~= Seq::<PayloadView>::empty());
            assert(self@.pending.take(0) =~= Seq::<PayloadView>::empty());
            assert(payload_views(run@) =~= Seq::<PayloadView>::empty());
            assert(self@.pending.skip(0) =~= before.pending.skip(0));
            assert(payload_views(run@).map_values(hash_of()).to_set() =~= Set::<
                PayloadHash,
            >::empty());
            assert(self@.executed =~= before.executed.union(Set::<PayloadHash>::empty()));
        }
        while i < self.pending.len()
            invariant
                self.wf(),
                i <= self@.pending.len(),
                i + run@.len() <= before.pending.len(),
                self@.account == before.account,
                self@.members == before.members,
                self@.threshold == t,
                t == before.threshold,
                self@.pending.take(i as int) == before.pending.take(i + run@.len()).filter(
                    is_waiting(t),
                ),
                self@.pending.skip(i as int) == before.pending.skip(i + run@.len()),
                payload_views(run@) == before.pending.take(i + run@.len()).filter(is_ready(t)),
                self@.executed == before.executed.union(
                    payload_views(run@).map_values(hash_of()).to_set(),
                ),
            decreases self@.pending.len() - i,
        {
            let ghost c = i + run@.len();
            let ghost here = self@;
            let ghost ran = payload_views(run@);
            proof {
                assert(here.pending.skip(i as int).len() == before.pending.skip(c).len());
                assert(here.pending[i as int] == here.pending.skip(i as int)[0]);
                assert(before.pending[c] == before.pending.skip(c)[0]);
                assert(before.pending.take(c + 1) =~= before.pending.take(c).push(
                    before.pending[c],
                ));
                before.pending.take(c).lemma_filter_push(before.pending[c], is_waiting(t));
                before.pending.take(c).lemma_filter_push(before.pending[c], is_ready(t));
            }
            if self.ready_at(i) {
                let payload = self.remove_at(i, true);
                run.push(payload);
                proof {
                    assert(payload_views(run@) =~= ran.push(payload@));
                    assert(self@.pending.take(i as int) =~= here.pending.take(i as int));
                    assert(here.pending.skip(i + 1) =~= here.pending.skip(i as int).skip(1));
                    assert(before.pending.skip(c + 1) =~= before.pending.skip(c).skip(1));
                    assert(self@.pending.skip(i as int) =~= here.pending.skip(i + 1));
                    assert(ran.push(payload@).map_values(hash_of()) =~= ran.map_values(
                        hash_of(),
                    ).push(payload@.hash));
                    ran.map_values(hash_of()).lemma_push_to_set_commute(payload@.hash);
                    assert(self@.executed =~= before.executed.union(
                        payload_views(run@).map_values(hash_of()).to_set(),
                    ));
                }
            } else {
                proof {
                    assert(here.pending.take(i + 1) =~= here.pending.take(i as int).push(
                        here.pending[i as int],
                    ));
                    assert(here.pending.skip(i + 1) =~= here.pending.skip(i as int).skip(1));
                    assert(before.pending.skip(c + 1) =~= before.pending.skip(c).skip(1));
                }
                i += 1;
            }
        }
        proof {
            let c = i + run@.len();
            assert(self@.pending.skip(i as int).len() == before.pending.skip(c).len());
            assert(self@.pending.take(i as int) =~= self@.pending);
            assert(before.pending.take(c) =~= before.pending);
        }
        run
    }
}

} // verus!
