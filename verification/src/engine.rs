//! The engine: groups, their payloads and the ledger behind one set of
//! entry points. Each call runs to its end before the next begins.

use crate::accounts::{group_account, sub_account_bytes};
use crate::deposit::{funds_of, Currency, DepositAccounting};
use crate::group::{payload_views, Group, Payload};
use crate::hashing::digest_of;
use crate::ident::{AccountId, Balance, Error, Event, GroupId, PayloadHash};
use crate::model::{is_waiting, lemma_index_of, GroupView, PayloadView};
use crate::runs::{step, Call};
use crate::state::{dispatch_event, executed_event, owed, release_all, EngineView, ExecutionView};
use vstd::prelude::*;

verus! {

/// A payload that ran: the host performs its operation with the authority
/// of `origin`, the group's account. The payload has left the store and its
/// deposit has gone back to the submitter.
#[derive(Debug)]
pub struct Execution {
    pub group: GroupId,
    pub origin: AccountId,
    pub payload: Payload,
}

impl View for Execution {
    type V = ExecutionView;

    open spec fn view(&self) -> ExecutionView {
        ExecutionView {
            group: self.group,
            origin: self.origin,
            payload: self.payload@,
        }
    }
}

/// What a submission gave: the hash that names the payload and, where the
/// payload ran within the same call, its execution.
#[derive(Debug)]
pub struct Submission {
    pub hash: PayloadHash,
    pub execution: Option<Execution>,
}

/// The model of each execution of a list.
pub open spec fn execution_views(run: Seq<Execution>) -> Seq<ExecutionView> {
    run.map_values(|e: Execution| e@)
}

/// The model of each group of a list.
pub open spec fn group_views(groups: Seq<Group>) -> Seq<GroupView> {
    groups.map_values(|g: Group| g@)
}

/// The engine: every group, the deposit rules and the ledger.
pub struct Supersig<L: Currency> {
    seed: [u8; 8],
    submitter_approves: bool,
    deposits: DepositAccounting<L>,
    groups: Vec<Group>,
    events: Vec<Event>,
}

impl<L: Currency> View for Supersig<L> {
    type V = EngineView;

    closed spec fn view(&self) -> EngineView {
        EngineView {
            seed: self.seed@,
            submitter_approves: self.submitter_approves,
            base_deposit: self.deposits.base_deposit,
            per_byte_rate: self.deposits.per_byte_rate,
            groups: group_views(self.groups@),
            book: self.deposits.ledger.book(),
            events: self.events@,
        }
    }
}

impl<L: Currency> Supersig<L> {
    /// The ledger that the engine instructs.
    pub closed spec fn ledger_state(&self) -> L {
        self.deposits.ledger
    }

    /// What the representation keeps true of the ledger and of each group.
    spec fn shape(&self) -> bool {
        &&& self.deposits.ledger.wf()
        &&& self.groups@.len() <= usize::MAX
        &&& forall|i: int|
            0 <= i < self.groups@.len() ==> {
                &&& (#[trigger] self.groups@[i]).wf()
                &&& self.groups@[i]@.account.raw@ == sub_account_bytes(self.seed@, i as u64)
            }
    }

    /// Whether no waiting payload of any group has enough approvals.
    spec fn calm(&self) -> bool {
        forall|i: int| 0 <= i < self.groups@.len() ==> (#[trigger] self.groups@[i])@.quiescent()
    }

    /// What holds of the engine at every step.
    pub closed spec fn inv(&self) -> bool {
        self.shape() && self@.backed()
    }

    /// What holds of the engine between any two calls.
    pub closed spec fn wf(&self) -> bool {
        self.inv() && self.calm()
    }

    /// An engine in memory stands for an engine of which the same holds,
    /// and its book is the ledger's.
    pub proof fn lemma_inv(&self)
        requires
            self.inv(),
        ensures
            self@.inv(),
            self.ledger_state().wf(),
            self@.book == self.ledger_state().book(),
    {
        assert(self@.seed.len() == 8);
        assert forall|i: int| 0 <= i < self@.groups.len() implies {
            &&& (#[trigger] self@.groups[i]).wf()
            &&& self@.groups[i].account.raw@ == sub_account_bytes(self@.seed, i as u64)
        } by {
            self.groups@[i].lemma_wf();
        }
    }

    /// The same of an engine between two calls.
    pub proof fn lemma_wf(&self)
        requires
            self.wf(),
        ensures
            self.inv(),
            self@.wf(),
            self.ledger_state().wf(),
            self@.book == self.ledger_state().book(),
    {
        self.lemma_inv();
        assert forall|i: int| 0 <= i < self@.groups.len() implies (
        #[trigger] self@.groups[i]).quiescent() by {
            assert(self.groups@[i]@.quiescent());
        }
    }

    /// An engine without groups on top of a ledger. The seed is what the
    /// groups' accounts are derived from; `submitter_approves` decides
    /// whether to submit a payload is to approve it.
    pub fn new(
        seed: [u8; 8],
        ledger: L,
        base_deposit: Balance,
        per_byte_rate: Balance,
        submitter_approves: bool,
    ) -> (engine: Self)
        requires
            ledger.wf(),
        ensures
            engine.wf(),
            engine.ledger_state() == ledger,
            engine@ == (EngineView {
                seed: seed@,
                submitter_approves,
                base_deposit,
                per_byte_rate,
                groups: Seq::empty(),
                book: ledger.book(),
                events: Seq::empty(),
            }),
    {
        let engine = Supersig {
            seed,
            submitter_approves,
            deposits: DepositAccounting::new(ledger, base_deposit, per_byte_rate),
            groups: Vec::new(),
            events: Vec::new(),
        };
        proof {
            assert(engine@.groups =~= Seq::<GroupView>::empty());
            assert forall|who: AccountId| funds_of(engine@.book, who).reserved >= #[trigger] owed(
                engine@.groups,
                who,
            ) by {}
        }
        engine
    }

    /// Where the group with this identifier stands.
    fn locate(&self, id: GroupId) -> (at: Option<usize>)
        ensures
            at.is_some() == self@.has_group(id),
            at.is_some() ==> at.unwrap() == id.0 && at.unwrap() < self.groups@.len(),
    {
        let count: usize = self.groups.len();
        if id.0 < count as u64 {
            Some(id.0 as usize)
        } else {
            None
        }
    }

    /// The ledger.
    pub fn ledger(&self) -> (ledger: &L)
        ensures
            *ledger == self.ledger_state(),
    {
        &self.deposits.ledger
    }

    /// Whether to submit a payload is to approve it.
    pub fn submitter_approves(&self) -> (on: bool)
        ensures
            on == self@.submitter_approves,
    {
        self.submitter_approves
    }

    /// What every payload costs, whatever its length.
    pub fn base_deposit(&self) -> (amount: Balance)
        ensures
            amount == self@.base_deposit,
    {
        self.deposits.base_deposit
    }

    /// What each byte of a payload costs on top.
    pub fn per_byte_rate(&self) -> (amount: Balance)
        ensures
            amount == self@.per_byte_rate,
    {
        self.deposits.per_byte_rate
    }

    /// The notifications that nobody has taken yet, oldest first.
    pub fn events(&self) -> (events: &Vec<Event>)
        ensures
            events@ == self@.events,
    {
        &self.events
    }

    /// Hands the notifications out and starts a new list.
    pub fn take_events(&mut self) -> (events: Vec<Event>)
        ensures
            events@ == old(self)@.events,
            final(self)@ == old(self)@.with_events(Seq::empty()),
            final(self).ledger_state() == old(self).ledger_state(),
            old(self).inv() ==> final(self).inv(),
            old(self).wf() ==> final(self).wf(),
    {
        let mut events: Vec<Event> = Vec::new();
        std::mem::swap(&mut self.events, &mut events);
        proof {
            assert(self@.groups == old(self)@.groups);
            assert(self@.book == old(self)@.book);
            if old(self).inv() {
                assert forall|who: AccountId|
                    funds_of(self@.book, who).reserved >= #[trigger] owed(self@.groups, who) by {
                    assert(funds_of(old(self)@.book, who).reserved >= owed(
                        old(self)@.groups,
                        who,
                    ));
                }
            }
        }
        events
    }

    /// Records what the host reports of the operation of a payload that
    /// ran: that it was performed, or that it failed. Neither changes any
    /// group or any funds: a payload that ran stays gone, and its deposit
    /// stays with its submitter. A payload that did not run is not found.
    pub fn report_dispatch(&mut self, id: GroupId, hash: &PayloadHash, succeeded: bool) -> (done:
        Result<(), Error>)
        requires
            old(self).wf(),
        ensures
            final(self)@ == step(
                old(self)@,
                Call::ReportDispatch { group: id, hash: *hash, succeeded },
            ),
            final(self).wf(),
            final(self).ledger_state() == old(self).ledger_state(),
            if old(self)@.has_group(id) && old(self)@.group(id).executed.contains(*hash) {
                done.is_ok() && final(self)@ == old(self)@.noting(
                    dispatch_event(id, *hash, succeeded),
                )
            } else {
                done == Err::<(), Error>(Error::PayloadNotFound) && final(self)@ == old(self)@
            },
    {
        let i = match self.locate(id) {
            None => {
                return Err(Error::PayloadNotFound);
            },
            Some(i) => i,
        };
        assert(self@.group(id) == self.groups@[i as int]@);
        if !self.groups[i].has_executed(hash) {
            return Err(Error::PayloadNotFound);
        }
        if succeeded {
            self.events.push(Event::DispatchSucceeded { group: id, hash: *hash });
        } else {
            self.events.push(Event::DispatchFailed { group: id, hash: *hash });
        }
        Ok(())
    }

    /// How many groups were created.
    pub fn group_count(&self) -> (count: usize)
        ensures
            count == self@.groups.len(),
    {
        self.groups.len()
    }

    /// The group with this identifier.
    pub fn group(&self, id: GroupId) -> (found: Option<&Group>)
        requires
            self.wf(),
        ensures
            found.is_some() == self@.has_group(id),
            found.is_some() ==> found.unwrap()@ == self@.group(id) && found.unwrap().wf(),
    {
        match self.locate(id) {
            Some(i) => Some(&self.groups[i]),
            None => None,
        }
    }

    /// Changes the deposit rules for payloads submitted from now on; what
    /// stored payloads have reserved stays as it is.
    pub fn set_deposit_rules(&mut self, base_deposit: Balance, per_byte_rate: Balance)
        requires
            old(self).wf(),
        ensures
            final(self)@ == step(
                old(self)@,
                Call::SetDepositRules { base_deposit, per_byte_rate },
            ),
            final(self).wf(),
            final(self).ledger_state() == old(self).ledger_state(),
            final(self)@ == (EngineView { base_deposit, per_byte_rate, ..old(self)@ }),
    {
        self.deposits.base_deposit = base_deposit;
        self.deposits.per_byte_rate = per_byte_rate;
    }

    /// Creates a group of the given founders, taken as a set. The group gets
    /// the next identifier and the account derived for it.
    pub fn create_group(&mut self, founders: &Vec<AccountId>, threshold: u32) -> (made: Result<
        GroupId,
        Error,
    >)
        requires
            old(self).wf(),
        ensures
            final(self)@ == step(
                old(self)@,
                Call::CreateGroup { founders: founders@.to_set(), threshold: threshold as nat },
            ),
            final(self).wf(),
            final(self).ledger_state() == old(self).ledger_state(),
            made.is_ok() <==> 1 <= threshold <= founders@.to_set().len(),
            match made {
                Ok(id) => id.0 == old(self)@.groups.len() && final(self)@ == old(self)@.group_created(founders@.to_set(), threshold as nat),
                Err(e) => e == Error::InvalidThreshold && final(self)@ == old(self)@,
            },
    {
        let count: usize = self.groups.len();
        let id = GroupId(count as u64);
        let account = group_account(&self.seed, id.0);
        match Group::new(account, founders, threshold) {
            Err(e) => Err(e),
            Ok(group) => {
                self.groups.push(group);
                self.events.push(Event::GroupCreated { group: id, account });
                let grown: usize = self.groups.len();
                proof {
                    assert(self@.groups =~= old(self)@.groups.push(group@));
                    old(self)@.lemma_backed_founded(group@);
                    let grown_view = EngineView {
                        groups: old(self)@.groups.push(group@),
                        ..old(self)@
                    };
                    assert forall|who: AccountId|
                        funds_of(self@.book, who).reserved >= #[trigger] owed(
                            self@.groups,
                            who,
                        ) by {
                        assert(funds_of(grown_view.book, who).reserved >= owed(
                            grown_view.groups,
                            who,
                        ));
                    }
                    assert forall|i: int| 0 <= i < self.groups@.len() implies (
                    #[trigger] self.groups@[i]).wf() && self.groups@[i]@.account.raw@
                        == sub_account_bytes(self.seed@, i as u64)
                        && self.groups@[i]@.quiescent() by {
                        if i < count {
                            assert(self.groups@[i] == old(self).groups@[i]);
                        }
                    }
                }
                Ok(id)
            },
        }
    }

    /// One group changed and nothing else did.
    proof fn lemma_replaced(before: Self, after: Self, i: int)
        requires
            before.shape(),
            0 <= i < before.groups@.len(),
            after.groups@.len() == before.groups@.len(),
            forall|j: int|
                0 <= j < before.groups@.len() && j != i ==> #[trigger] after.groups@[j]
                    == before.groups@[j],
            after.groups@[i].wf(),
            after.groups@[i]@.account == before.groups@[i]@.account,
            after.seed == before.seed,
            after.submitter_approves == before.submitter_approves,
            after.deposits.base_deposit == before.deposits.base_deposit,
            after.deposits.per_byte_rate == before.deposits.per_byte_rate,
            after.deposits.ledger.wf(),
        ensures
            after.shape(),
            after@ == before@.with_group(GroupId(i as u64), after.groups@[i]@).with_book(
                after.deposits.ledger.book(),
            ).with_events(after.events@),
            before.calm() && after.groups@[i]@.quiescent() ==> after.calm(),
    {
        assert(after@.groups =~= before@.groups.update(i, after.groups@[i]@));
        assert forall|j: int| 0 <= j < after.groups@.len() implies {
            &&& (#[trigger] after.groups@[j]).wf()
            &&& after.groups@[j]@.account.raw@ == sub_account_bytes(after.seed@, j as u64)
        } by {
            if j != i {
                assert(after.groups@[j] == before.groups@[j]);
            }
        }
        if before.calm() && after.groups@[i]@.quiescent() {
            assert forall|j: int| 0 <= j < after.groups@.len() implies (
            #[trigger] after.groups@[j])@.quiescent() by {
                if j != i {
                    assert(after.groups@[j] == before.groups@[j]);
                }
            }
        }
    }

    /// Stores `bytes` as a payload of the group for `caller`, who must be a
    /// member and pays the deposit. Returns the hash that names the payload.
    /// Where to submit is to approve, the submitter's approval is recorded
    /// at once, and a payload that needs no more runs within the same call.
    pub fn submit_payload(&mut self, caller: &AccountId, id: GroupId, bytes: Vec<u8>) -> (done:
        Result<Submission, Error>)
        requires
            old(self).wf(),
        ensures
            final(self)@ == step(
                old(self)@,
                Call::Submit {
                    caller: *caller,
                    group: id,
                    bytes: bytes@,
                    funded: old(self).ledger_state().can_reserve(
                        *caller,
                        old(self)@.deposit(bytes@) as Balance,
                    ),
                },
            ),
            final(self).wf(),
            match old(self)@.submission_refusal(*caller, id, bytes@) {
                Some(e) => done.is_err() && done.unwrap_err() == e && final(self)@ == old(self)@
                    && final(self).ledger_state() == old(self).ledger_state(),
                None => if old(self).ledger_state().can_reserve(
                    *caller,
                    old(self)@.deposit(bytes@) as Balance,
                ) {
                    &&& done.is_ok()
                    &&& done.unwrap().hash == digest_of(bytes@)
                    &&& final(self)@ == old(self)@.submitted_and_settled(*caller, id, bytes@)
                    &&& done.unwrap().execution.is_some() == old(self)@.runs_on_submission(
                        *caller,
                        id,
                        bytes@,
                    )
                    &&& done.unwrap().execution.is_some() ==> done.unwrap().execution.unwrap()@
                        == old(self)@.submitted(*caller, id, bytes@).approved(
                        *caller,
                        id,
                        digest_of(bytes@),
                    ).execution(id, digest_of(bytes@))
                } else {
                    &&& done.is_err()
                    &&& done.unwrap_err() == Error::InsufficientFunds
                    &&& final(self)@ == old(self)@
                },
            },
    {
        let ghost before = self@;
        let ghost content = bytes@;
        let hash = match self.store_payload(caller, id, bytes) {
            Err(e) => {
                return Err(e);
            },
            Ok(hash) => hash,
        };
        if !self.submitter_approves {
            return Ok(Submission { hash, execution: None });
        }
        proof {
            self.lemma_wf();
            let g = self@.group(id);
            let last = g.pending.len() - 1;
            assert(g.pending[last].hash == hash);
            assert(g.pending[last].approvals =~= Set::<AccountId>::empty());
            lemma_index_of(g, last);
        }
        match self.approve_payload(caller, id, &hash) {
            Err(e) => {
                assert(false);
                Err(e)
            },
            Ok(execution) => Ok(Submission { hash, execution }),
        }
    }

    /// Stores a payload and reserves its deposit.
    fn store_payload(&mut self, caller: &AccountId, id: GroupId, bytes: Vec<u8>) -> (done:
        Result<PayloadHash, Error>)
        requires
            old(self).wf(),
        ensures
            done.is_ok() ==> funds_of(old(self)@.book, *caller).free >= old(self)@.deposit(bytes@),
            final(self).wf(),
            match old(self)@.submission_refusal(*caller, id, bytes@) {
                Some(e) => done == Err::<PayloadHash, Error>(e) && final(self)@ == old(self)@
                    && final(self).ledger_state() == old(self).ledger_state(),
                None => if old(self).ledger_state().can_reserve(
                    *caller,
                    old(self)@.deposit(bytes@) as Balance,
                ) {
                    &&& done == Ok::<PayloadHash, Error>(digest_of(bytes@))
                    &&& final(self)@ == old(self)@.submitted(*caller, id, bytes@)
                } else {
                    &&& done == Err::<PayloadHash, Error>(Error::InsufficientFunds)
                    &&& final(self)@ == old(self)@
                },
            },
    {
        let i = match self.locate(id) {
            None => {
                return Err(Error::NotAMember);
            },
            Some(i) => i,
        };
        assert(self@.group(id) == self.groups@[i as int]@);
        let hash = match self.groups[i].check_submission(caller, &bytes) {
            Err(e) => {
                return Err(e);
            },
            Ok(hash) => hash,
        };
        let deposit = match self.deposits.quote(bytes.len()) {
            Err(e) => {
                return Err(e);
            },
            Ok(deposit) => deposit,
        };
        match self.deposits.reserve(caller, deposit) {
            Err(e) => {
                return Err(e);
            },
            Ok(_) => {},
        }
        let payload = Payload { hash, bytes, submitter: *caller, deposit, approvals: Vec::new() };
        let ghost stored = payload@;
        self.groups[i].store(payload);
        self.events.push(Event::PayloadSubmitted { group: id, hash, submitter: *caller, deposit });
        proof {
            assert(stored.approvals =~= Set::<AccountId>::empty());
            Self::lemma_replaced(*old(self), *self, i as int);
            old(self)@.lemma_backed_stored(id, stored);
            let g = old(self).groups@[i as int]@;
            old(self).groups@[i as int].lemma_wf();
            assert(g.quiescent());
            assert forall|k: int| 0 <= k < g.with_payload(stored).pending.len() implies !(
            #[trigger] g.with_payload(stored).pending[k]).ready(g.threshold) by {
                if k < g.pending.len() {
                    assert(!g.pending[k].ready(g.threshold));
                }
            }
        }
        Ok(hash)
    }

    /// Takes a stored payload back for `caller`, its submitter, and frees
    /// the deposit.
    pub fn withdraw_payload(&mut self, caller: &AccountId, id: GroupId, hash: &PayloadHash) -> (done:
        Result<(), Error>)
        requires
            old(self).wf(),
        ensures
            final(self)@ == step(
                old(self)@,
                Call::Withdraw { caller: *caller, group: id, hash: *hash },
            ),
            final(self).wf(),
            match old(self)@.withdrawal_refusal(*caller, id, *hash) {
                Some(e) => done == Err::<(), Error>(e) && final(self)@ == old(self)@
                    && final(self).ledger_state() == old(self).ledger_state(),
                None => done.is_ok() && final(self)@ == old(self)@.withdrawn(id, *hash),
            },
    {
        let i = match self.locate(id) {
            None => {
                return Err(Error::PayloadNotFound);
            },
            Some(i) => i,
        };
        assert(self@.group(id) == self.groups@[i as int]@);
        let payload = match self.groups[i].withdraw(hash, caller) {
            Err(e) => {
                proof {
                    assert(self.groups@ =~= old(self).groups@);
                }
                return Err(e);
            },
            Ok(payload) => payload,
        };
        self.deposits.release(&payload.submitter, payload.deposit);
        self.events.push(Event::PayloadWithdrawn { group: id, hash: *hash });
        proof {
            Self::lemma_replaced(*old(self), *self, i as int);
            let g = old(self).groups@[i as int]@;
            let at = g.index_of(*hash);
            old(self)@.lemma_backed_removed(id, at);
            assert forall|k: int| 0 <= k < g.without_payload(at).pending.len() implies !(
            #[trigger] g.without_payload(at).pending[k]).ready(g.threshold) by {
                let k0 = if k < at { k } else { k + 1 };
                assert(!g.pending[k0].ready(g.threshold));
            }
        }
        Ok(())
    }

    /// Records the approval of `caller` for a payload. Where the payload
    /// then has enough approvals it runs at once and is handed out.
    pub fn approve_payload(&mut self, caller: &AccountId, id: GroupId, hash: &PayloadHash) -> (done:
        Result<Option<Execution>, Error>)
        requires
            old(self).wf(),
        ensures
            final(self)@ == step(
                old(self)@,
                Call::Approve { caller: *caller, group: id, hash: *hash },
            ),
            final(self).wf(),
            match old(self)@.approval_refusal(*caller, id, *hash) {
                Some(e) => done.is_err() && done.unwrap_err() == e && final(self)@ == old(self)@
                    && final(self).ledger_state() == old(self).ledger_state(),
                None => {
                    let approved = old(self)@.approved(*caller, id, *hash);
                    &&& done.is_ok()
                    &&& done.unwrap().is_some() == approved.ready(id, *hash)
                    &&& if approved.ready(id, *hash) {
                        &&& done.unwrap().unwrap()@ == approved.execution(id, *hash)
                        &&& final(self)@ == approved.ran(id, *hash)
                    } else {
                        &&& final(self)@ == approved
                        &&& final(self).ledger_state() == old(self).ledger_state()
                    }
                },
            },
    {
        let i = match self.locate(id) {
            None => {
                return Err(Error::NotAMember);
            },
            Some(i) => i,
        };
        assert(self@.group(id) == self.groups@[i as int]@);
        let ready = match self.groups[i].approve(hash, caller) {
            Err(e) => {
                proof {
                    assert(self.groups@ =~= old(self).groups@);
                }
                return Err(e);
            },
            Ok(ready) => ready,
        };
        self.events.push(Event::ApprovalAdded { group: id, hash: *hash, member: *caller });
        let ghost g = old(self).groups@[i as int]@;
        let ghost at = g.index_of(*hash);
        let ghost g1 = g.with_approval(at, *caller);
        proof {
            old(self).groups@[i as int].lemma_wf();
            self.groups@[i as int].lemma_wf();
            assert(g1.pending[at].hash == *hash);
            lemma_index_of(g1, at);
            Self::lemma_replaced(*old(self), *self, i as int);
            assert(self@ == old(self)@.approved(*caller, id, *hash));
            old(self)@.lemma_backed_same_deposits(id, g1, old(self)@.book);
        }
        if !ready {
            proof {
                assert forall|k: int| 0 <= k < g1.pending.len() implies !(
                #[trigger] g1.pending[k]).ready(g1.threshold) by {
                    if k != at {
                        assert(!g.pending[k].ready(g.threshold));
                    }
                }
            }
            return Ok(None);
        }
        let ghost approved = *self;
        let origin = self.groups[i].account();
        match self.groups[i].try_execute(hash) {
            Err(e) => {
                assert(false);
                Err(e)
            },
            Ok(payload) => {
                self.deposits.release(&payload.submitter, payload.deposit);
                self.events.push(Event::PayloadExecuted { group: id, hash: *hash });
                proof {
                    Self::lemma_replaced(approved, *self, i as int);
                    assert(self@ == approved@.ran(id, *hash));
                    approved@.lemma_backed_removed(id, at);
                    assert forall|k: int| 0 <= k < g1.executed_at(at).pending.len() implies !(
                    #[trigger] g1.executed_at(at).pending[k]).ready(g1.threshold) by {
                        let k0 = if k < at { k } else { k + 1 };
                        assert(!g.pending[k0].ready(g.threshold));
                    }
                }
                Ok(Some(Execution { group: id, origin, payload }))
            },
        }
    }

    /// Takes back the approval of `caller` for a payload that has not run.
    pub fn unapprove_payload(&mut self, caller: &AccountId, id: GroupId, hash: &PayloadHash) -> (done:
        Result<(), Error>)
        requires
            old(self).wf(),
        ensures
            final(self)@ == step(
                old(self)@,
                Call::Unapprove { caller: *caller, group: id, hash: *hash },
            ),
            final(self).wf(),
            final(self).ledger_state() == old(self).ledger_state(),
            match old(self)@.unapproval_refusal(*caller, id, *hash) {
                Some(e) => done == Err::<(), Error>(e) && final(self)@ == old(self)@,
                None => done.is_ok() && final(self)@ == old(self)@.unapproved(*caller, id, *hash),
            },
    {
        let i = match self.locate(id) {
            None => {
                return Err(Error::PayloadNotFound);
            },
            Some(i) => i,
        };
        assert(self@.group(id) == self.groups@[i as int]@);
        match self.groups[i].unapprove(hash, caller) {
            Err(e) => {
                proof {
                    assert(self.groups@ =~= old(self).groups@);
                }
                return Err(e);
            },
            Ok(_) => {},
        }
        self.events.push(Event::ApprovalRemoved { group: id, hash: *hash, member: *caller });
        proof {
            let g = old(self).groups@[i as int]@;
            let at = g.index_of(*hash);
            let g1 = g.without_approval(at, *caller);
            old(self).groups@[i as int].lemma_wf();
            Self::lemma_replaced(*old(self), *self, i as int);
            old(self)@.lemma_backed_same_deposits(id, g1, old(self)@.book);
            assert forall|k: int| 0 <= k < g1.pending.len() implies !(#[trigger] g1.pending[k]).ready(
                g1.threshold,
            ) by {
                assert(!g.pending[k].ready(g.threshold));
                assert(g.pending[k].approvals.finite());
            }
        }
        Ok(())
    }

    /// Runs the payload with this hash if enough members have approved it.
    /// A payload that ran before is refused as such.
    pub fn try_execute(&mut self, id: GroupId, hash: &PayloadHash) -> (done: Result<
        Execution,
        Error,
    >)
        requires
            old(self).inv(),
        ensures
            final(self)@ == step(old(self)@, Call::Execute { group: id, hash: *hash }),
            final(self).inv(),
            old(self).wf() ==> final(self).wf(),
            match old(self)@.execution_refusal(id, *hash) {
                Some(e) => done.is_err() && done.unwrap_err() == e && final(self)@ == old(self)@
                    && final(self).ledger_state() == old(self).ledger_state(),
                None => {
                    &&& done.is_ok()
                    &&& done.unwrap()@ == old(self)@.execution(id, *hash)
                    &&& final(self)@ == old(self)@.ran(id, *hash)
                },
            },
    {
        let i = match self.locate(id) {
            None => {
                return Err(Error::PayloadNotFound);
            },
            Some(i) => i,
        };
        assert(self@.group(id) == self.groups@[i as int]@);
        let origin = self.groups[i].account();
        let payload = match self.groups[i].try_execute(hash) {
            Err(e) => {
                proof {
                    assert(self.groups@ =~= old(self).groups@);
                }
                return Err(e);
            },
            Ok(payload) => payload,
        };
        self.deposits.release(&payload.submitter, payload.deposit);
        self.events.push(Event::PayloadExecuted { group: id, hash: *hash });
        proof {
            Self::lemma_replaced(*old(self), *self, i as int);
            let g = old(self).groups@[i as int]@;
            let at = g.index_of(*hash);
            old(self)@.lemma_backed_removed(id, at);
            if old(self).wf() {
                assert forall|k: int| 0 <= k < g.executed_at(at).pending.len() implies !(
                #[trigger] g.executed_at(at).pending[k]).ready(g.threshold) by {
                    let k0 = if k < at { k } else { k + 1 };
                    assert(!g.pending[k0].ready(g.threshold));
                }
            }
        }
        Ok(Execution { group: id, origin, payload })
    }

    /// Runs a waiting payload by name. A payload that does not wait, because
    /// it never did or because it ran or was withdrawn, is not found.
    pub fn execute_payload(&mut self, id: GroupId, hash: &PayloadHash) -> (done: Result<
        Execution,
        Error,
    >)
        requires
            old(self).inv(),
        ensures
            final(self)@ == step(old(self)@, Call::Execute { group: id, hash: *hash }),
            final(self).inv(),
            old(self).wf() ==> final(self).wf(),
            if !old(self)@.has_group(id) || !old(self)@.group(id).is_pending(*hash) {
                &&& done.is_err() && done.unwrap_err() == Error::PayloadNotFound
                &&& final(self)@ == old(self)@
                &&& final(self).ledger_state() == old(self).ledger_state()
            } else if !old(self)@.ready(id, *hash) {
                &&& done.is_err() && done.unwrap_err() == Error::ThresholdNotMet
                &&& final(self)@ == old(self)@
                &&& final(self).ledger_state() == old(self).ledger_state()
            } else {
                &&& done.is_ok()
                &&& done.unwrap()@ == old(self)@.execution(id, *hash)
                &&& final(self)@ == old(self)@.ran(id, *hash)
            },
    {
        let i = match self.locate(id) {
            None => {
                return Err(Error::PayloadNotFound);
            },
            Some(i) => i,
        };
        assert(self@.group(id) == self.groups@[i as int]@);
        if !self.groups[i].is_pending(hash) {
            return Err(Error::PayloadNotFound);
        }
        self.try_execute(id, hash)
    }

    /// Where the group stands, if `origin` is its account.
    fn with_authority(&self, origin: &AccountId, id: GroupId) -> (at: Option<usize>)
        ensures
            at.is_some() == self@.authorized(*origin, id),
            at.is_some() ==> at.unwrap() == id.0 && at.unwrap() < self.groups@.len(),
    {
        match self.locate(id) {
            None => None,
            Some(i) => {
                assert(self@.group(id) == self.groups@[i as int]@);
                if self.groups[i].account() == *origin {
                    Some(i)
                } else {
                    None
                }
            },
        }
    }

    /// Takes `who` among the members of a group. Only the group itself may:
    /// the call must come with the group's account as its origin, which a
    /// payload that ran carries. From anybody else the change has not passed
    /// the approvals that it needs, and is refused as such.
    pub fn add_member(&mut self, origin: &AccountId, id: GroupId, who: AccountId) -> (done: Result<
        (),
        Error,
    >)
        requires
            old(self).wf(),
        ensures
            final(self)@ == step(
                old(self)@,
                Call::AddMember { origin: *origin, group: id, who },
            ),
            final(self).wf(),
            final(self).ledger_state() == old(self).ledger_state(),
            match old(self)@.authority_refusal(*origin, id) {
                Some(e) => done == Err::<(), Error>(e) && final(self)@ == old(self)@,
                None => done.is_ok() && final(self)@ == old(self)@.member_added(id, who),
            },
    {
        let i = match self.with_authority(origin, id) {
            None => {
                return Err(Error::ThresholdNotMet);
            },
            Some(i) => i,
        };
        self.groups[i].add_member(who);
        self.events.push(Event::MemberAdded { group: id, member: who });
        proof {
            Self::lemma_replaced(*old(self), *self, i as int);
            let g = old(self).groups@[i as int]@;
            old(self)@.lemma_backed_same_deposits(id, g.with_member(who), old(self)@.book);
            assert forall|k: int| 0 <= k < g.with_member(who).pending.len() implies !(
            #[trigger] g.with_member(who).pending[k]).ready(g.threshold) by {
                assert(!g.pending[k].ready(g.threshold));
            }
            assert(self@ =~= old(self)@.with_group(id, g.with_member(who)).noting(
                Event::MemberAdded { group: id, member: who },
            ));
        }
        Ok(())
    }

    /// Runs every payload of the group at `i` that has enough approvals.
    fn settle(&mut self, i: usize, id: GroupId) -> (run: Vec<Execution>)
        requires
            old(self).inv(),
            i < old(self).groups@.len(),
            id.0 == i,
        ensures
            final(self).inv(),
            final(self)@ == old(self)@.settled(id),
            execution_views(run@) == old(self)@.executions(id),
            final(self).groups@[i as int]@.quiescent(),
            final(self).groups@.len() == old(self).groups@.len(),
            forall|j: int|
                0 <= j < old(self).groups@.len() && j != i ==> #[trigger] final(self).groups@[j]
                    == old(self).groups@[j],
    {
        let ghost g = self.groups@[i as int]@;
        let ghost book = self.deposits.ledger.book();
        let origin = self.groups[i].account();
        let mut ready = self.groups[i].take_ready();
        let ghost due = payload_views(ready@);
        let ghost taken = *self;
        let mut run: Vec<Execution> = Vec::new();
        proof {
            Self::lemma_replaced(*old(self), *self, i as int);
            assert(execution_views(run@) =~= old(self)@.executions(id).take(0));
            assert(self.events@ =~= old(self).events@ + due.take(0).map_values(
                executed_event(id),
            ));
            assert(payload_views(ready@) =~= due.skip(0));
            assert(due.take(0) =~= Seq::<PayloadView>::empty());
        }
        while ready.len() > 0
            invariant
                self.deposits.ledger.wf(),
                self.groups == taken.groups,
                self.seed == taken.seed,
                self.submitter_approves == taken.submitter_approves,
                self.events@ == old(self).events@ + due.take(run@.len() as int).map_values(
                    executed_event(id),
                ),
                self.deposits.base_deposit == taken.deposits.base_deposit,
                self.deposits.per_byte_rate == taken.deposits.per_byte_rate,
                due == g.ready_now(),
                g == old(self)@.group(id),
                book == old(self)@.book,
                origin == g.account,
                run@.len() <= due.len(),
                payload_views(ready@) == due.skip(run@.len() as int),
                self.deposits.ledger.book() == release_all(book, due.take(run@.len() as int)),
                execution_views(run@) == old(self)@.executions(id).take(run@.len() as int),
            decreases ready@.len(),
        {
            let ghost n = run@.len() as int;
            let ghost before = execution_views(run@);
            proof {
                assert(due.skip(n).len() == ready@.len());
                assert(due.skip(n)[0] == due[n]);
                assert(due.take(n + 1).drop_last() =~= due.take(n));
                assert(due.take(n + 1).last() == due[n]);
            }
            let ghost queue = ready@;
            let payload = ready.remove(0);
            self.deposits.release(&payload.submitter, payload.deposit);
            self.events.push(Event::PayloadExecuted { group: id, hash: payload.hash });
            let execution = Execution { group: id, origin, payload };
            run.push(execution);
            proof {
                assert(due.take(n + 1).map_values(executed_event(id)) =~= due.take(n).map_values(
                    executed_event(id),
                ).push(executed_event(id)(due[n])));
                assert(payload@ == due[n]);
                assert(execution_views(run@) =~= before.push(execution@));
                assert(old(self)@.executions(id).take(n + 1) =~= old(self)@.executions(id).take(
                    n,
                ).push(old(self)@.executions(id)[n]));
                assert(payload_views(ready@) =~= payload_views(queue).remove(0));
                assert(due.skip(n).remove(0) =~= due.skip(n + 1));
            }
        }
        proof {
            assert(due.skip(run@.len() as int).len() == 0);
            assert(due.take(run@.len() as int) =~= due);
            assert(old(self)@.executions(id).take(run@.len() as int) =~= old(self)@.executions(
                id,
            ));
            Self::lemma_replaced(*old(self), *self, i as int);
            old(self)@.lemma_backed_settled(id);
            let settled = g.settled();
            assert forall|k: int| 0 <= k < settled.pending.len() implies !(
            #[trigger] settled.pending[k]).ready(settled.threshold) by {
                g.pending.lemma_filter_pred(is_waiting(g.threshold), k);
            }
        }
        run
    }

    /// Removes a member of a group; only the group itself may. The member's
    /// approvals go too, the threshold comes down to the number of members
    /// left where it was higher, which is then told, and every payload that
    /// has enough approvals after that runs and is handed out, oldest first.
    pub fn remove_member(&mut self, origin: &AccountId, id: GroupId, who: &AccountId) -> (done:
        Result<Vec<Execution>, Error>)
        requires
            old(self).wf(),
        ensures
            final(self)@ == step(
                old(self)@,
                Call::RemoveMember { origin: *origin, group: id, who: *who },
            ),
            final(self).wf(),
            match old(self)@.removal_refusal(*origin, id, *who) {
                Some(e) => done.is_err() && done.unwrap_err() == e && final(self)@ == old(self)@
                    && final(self).ledger_state() == old(self).ledger_state(),
                None => {
                    let removed = old(self)@.member_removed(id, *who);
                    &&& done.is_ok()
                    &&& execution_views(done.unwrap()@) == removed.executions(id)
                    &&& final(self)@ == removed.settled(id)
                },
            },
    {
        let i = match self.with_authority(origin, id) {
            None => {
                return Err(Error::ThresholdNotMet);
            },
            Some(i) => i,
        };
        let asked = self.groups[i].threshold();
        match self.groups[i].remove_member(who) {
            Err(e) => {
                proof {
                    assert(self.groups@ =~= old(self).groups@);
                }
                return Err(e);
            },
            Ok(_) => {},
        }
        self.events.push(Event::MemberRemoved { group: id, member: *who });
        let threshold = self.groups[i].threshold();
        if threshold != asked {
            self.events.push(Event::ThresholdChanged { group: id, threshold });
        }
        let ghost removed = *self;
        proof {
            Self::lemma_replaced(*old(self), *self, i as int);
            old(self)@.lemma_backed_same_deposits(
                id,
                old(self)@.group(id).without_member(*who),
                old(self)@.book,
            );
        }
        let run = self.settle(i, id);
        proof {
            Self::lemma_after_settle(*old(self), removed, *self, i as int);
        }
        Ok(run)
    }

    /// Sets the threshold of a group; only the group itself may. Every
    /// payload that has enough approvals under the new threshold runs and is
    /// handed out, oldest first.
    pub fn set_threshold(&mut self, origin: &AccountId, id: GroupId, threshold: u32) -> (done:
        Result<Vec<Execution>, Error>)
        requires
            old(self).wf(),
        ensures
            final(self)@ == step(
                old(self)@,
                Call::SetThreshold { origin: *origin, group: id, threshold: threshold as nat },
            ),
            final(self).wf(),
            match old(self)@.threshold_refusal(*origin, id, threshold as nat) {
                Some(e) => done.is_err() && done.unwrap_err() == e && final(self)@ == old(self)@
                    && final(self).ledger_state() == old(self).ledger_state(),
                None => {
                    let changed = old(self)@.threshold_set(id, threshold as nat);
                    &&& done.is_ok()
                    &&& execution_views(done.unwrap()@) == changed.executions(id)
                    &&& final(self)@ == changed.settled(id)
                },
            },
    {
        let i = match self.with_authority(origin, id) {
            None => {
                return Err(Error::ThresholdNotMet);
            },
            Some(i) => i,
        };
        match self.groups[i].set_threshold(threshold) {
            Err(e) => {
                proof {
                    assert(self.groups@ =~= old(self).groups@);
                }
                return Err(e);
            },
            Ok(_) => {},
        }
        self.events.push(Event::ThresholdChanged { group: id, threshold });
        let ghost changed = *self;
        proof {
            Self::lemma_replaced(*old(self), *self, i as int);
            old(self)@.lemma_backed_same_deposits(
                id,
                old(self)@.group(id).with_threshold(threshold as nat),
                old(self)@.book,
            );
        }
        let run = self.settle(i, id);
        proof {
            Self::lemma_after_settle(*old(self), changed, *self, i as int);
        }
        Ok(run)
    }

    /// A group changed and was settled: what held between calls holds again.
    proof fn lemma_after_settle(before: Self, changed: Self, after: Self, i: int)
        requires
            before.calm(),
            0 <= i < before.groups@.len(),
            changed.groups@.len() == before.groups@.len(),
            after.groups@.len() == before.groups@.len(),
            forall|j: int|
                0 <= j < before.groups@.len() && j != i ==> #[trigger] changed.groups@[j]
                    == before.groups@[j],
            forall|j: int|
                0 <= j < before.groups@.len() && j != i ==> #[trigger] after.groups@[j]
                    == changed.groups@[j],
            after.groups@[i]@.quiescent(),
        ensures
            after.calm(),
    {
        assert forall|j: int| 0 <= j < after.groups@.len() implies (#[trigger] after.groups@[j])@.quiescent() by {
            if j != i {
                assert(after.groups@[j] == changed.groups@[j]);
                assert(changed.groups@[j] == before.groups@[j]);
            }
        }
    }

    /// Moves free funds out of a group's account; only the group itself may.
    pub fn transfer_from_group_account(
        &mut self,
        origin: &AccountId,
        id: GroupId,
        destination: &AccountId,
        amount: Balance,
    ) -> (done: Result<(), Error>)
        requires
            old(self).wf(),
        ensures
            final(self)@ == step(
                old(self)@,
                Call::Transfer {
                    origin: *origin,
                    group: id,
                    destination: *destination,
                    amount,
                    moved: old(self).ledger_state().can_transfer(*origin, *destination, amount),
                },
            ),
            final(self).wf(),
            match old(self)@.authority_refusal(*origin, id) {
                Some(e) => done == Err::<(), Error>(e) && final(self)@ == old(self)@
                    && final(self).ledger_state() == old(self).ledger_state(),
                None => if old(self).ledger_state().can_transfer(*origin, *destination, amount) {
                    &&& done.is_ok()
                    &&& final(self)@ == old(self)@.transferred(id, *destination, amount as nat)
                } else {
                    &&& done == Err::<(), Error>(Error::InsufficientFunds)
                    &&& final(self)@ == old(self)@
                },
            },
    {
        let i = match self.with_authority(origin, id) {
            None => {
                return Err(Error::ThresholdNotMet);
            },
            Some(i) => i,
        };
        let done = self.deposits.transfer(origin, destination, amount);
        proof {
            assert(self.groups@ =~= old(self).groups@);
            assert forall|who: AccountId| funds_of(self@.book, who).reserved >= #[trigger] owed(
                self@.groups,
                who,
            ) by {
                assert(funds_of(old(self)@.book, who).reserved >= owed(old(self)@.groups, who));
            }
        }
        done
    }
}

} // verus!
