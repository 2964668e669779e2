//! The mathematical model of the engine: every group, the book of the
//! ledger and the notifications, and the steps that change them.

use crate::accounts::{sub_account, sub_account_bytes};
use crate::deposit::{
    book_reserve, book_transfer, book_unreserve, deposit_amount, funds_of, releasable, Funds,
};
use crate::hashing::digest_of;
use crate::ident::{AccountId, Balance, Error, Event, GroupId, PayloadHash};
use crate::model::{
    lemma_owed_covers, lemma_owed_push, lemma_owed_remove, lemma_owed_same, lemma_owed_split,
    owed_in, GroupView, PayloadView,
};
use vstd::prelude::*;

verus! {

/// The model of an execution.
pub struct ExecutionView {
    pub group: GroupId,
    pub origin: AccountId,
    pub payload: PayloadView,
}

/// The book after the deposit of each payload went back to its submitter,
/// oldest payload first.
pub open spec fn release_all(book: Map<AccountId, Funds>, payloads: Seq<PayloadView>) -> Map<
    AccountId,
    Funds,
>
    decreases payloads.len(),
{
    if payloads.len() == 0 {
        book
    } else {
        book_unreserve(
            release_all(book, payloads.drop_last()),
            payloads.last().submitter,
            payloads.last().deposit,
        )
    }
}

/// What the waiting payloads of all groups together keep reserved of the
/// funds of `who`.
pub open spec fn owed(groups: Seq<GroupView>, who: AccountId) -> nat
    decreases groups.len(),
{
    if groups.len() == 0 {
        0
    } else {
        owed(groups.drop_last(), who) + owed_in(groups.last().pending, who)
    }
}

/// What the ledger holds in reserve for `who` beyond the deposits of the
/// waiting payloads that `who` submitted.
pub open spec fn surplus(v: EngineView, who: AccountId) -> int {
    funds_of(v.book, who).reserved - owed(v.groups, who)
}

/// All the funds of `who`, free and reserved.
pub open spec fn total(v: EngineView, who: AccountId) -> nat {
    funds_of(v.book, who).free + funds_of(v.book, who).reserved
}

/// The model of the engine.
pub struct EngineView {
    pub seed: Seq<u8>,
    pub base_deposit: Balance,
    pub per_byte_rate: Balance,
    /// Whether to submit a payload is to approve it.
    pub submitter_approves: bool,
    pub groups: Seq<GroupView>,
    pub book: Map<AccountId, Funds>,
    pub events: Seq<Event>,
}

/// The notification that a payload of the group ran.
pub open spec fn executed_event(id: GroupId) -> spec_fn(PayloadView) -> Event {
    |p: PayloadView| Event::PayloadExecuted { group: id, hash: p.hash }
}

/// The notification of what the host reports of a dispatch.
pub open spec fn dispatch_event(id: GroupId, hash: PayloadHash, succeeded: bool) -> Event {
    if succeeded {
        Event::DispatchSucceeded { group: id, hash }
    } else {
        Event::DispatchFailed { group: id, hash }
    }
}

impl EngineView {
    /// Whether a group with this identifier was created.
    pub open spec fn has_group(self, id: GroupId) -> bool {
        id.0 < self.groups.len()
    }

    /// The group with this identifier.
    pub open spec fn group(self, id: GroupId) -> GroupView {
        self.groups[id.0 as int]
    }

    /// The engine with another state of one group.
    pub open spec fn with_group(self, id: GroupId, group: GroupView) -> EngineView {
        EngineView { groups: self.groups.update(id.0 as int, group), ..self }
    }

    /// The engine with another book.
    pub open spec fn with_book(self, book: Map<AccountId, Funds>) -> EngineView {
        EngineView { book, ..self }
    }

    /// The engine with other notifications.
    pub open spec fn with_events(self, events: Seq<Event>) -> EngineView {
        EngineView { events, ..self }
    }

    /// The engine after one more notification.
    pub open spec fn noting(self, event: Event) -> EngineView {
        EngineView { events: self.events.push(event), ..self }
    }

    /// Whether every submitter's reserved funds cover the deposits of all
    /// the payloads of that submitter that wait, in whatever group.
    pub open spec fn backed(self) -> bool {
        forall|who: AccountId| funds_of(self.book, who).reserved >= #[trigger] owed(self.groups, who)
    }

    /// What holds of the engine at every step: every group is well formed
    /// and controls the account that its identifier leads to, and the
    /// deposits of all waiting payloads are in reserve.
    pub open spec fn inv(self) -> bool {
        &&& self.seed.len() == 8
        &&& self.groups.len() <= u64::MAX
        &&& self.backed()
        &&& forall|i: int|
            0 <= i < self.groups.len() ==> {
                &&& (#[trigger] self.groups[i]).wf()
                &&& self.groups[i].account.raw@ == sub_account_bytes(self.seed, i as u64)
            }
    }

    /// What holds of the engine between any two calls: on top of the above,
    /// no waiting payload has enough approvals, since such a payload runs
    /// within the call that gives it the last approval it lacks.
    pub open spec fn wf(self) -> bool {
        &&& self.inv()
        &&& forall|i: int| 0 <= i < self.groups.len() ==> (#[trigger] self.groups[i]).quiescent()
    }

    /// The engine after a group of the given members was created: it gets
    /// the next identifier and the account that the identifier leads to.
    pub open spec fn group_created(self, founders: Set<AccountId>, threshold: nat) -> EngineView {
        let id = GroupId(self.groups.len() as u64);
        let account = sub_account(self.seed, id.0);
        (EngineView {
            groups: self.groups.push(GroupView::founded(account, founders, threshold)),
            ..self
        }).noting(Event::GroupCreated { group: id, account })
    }

    /// The engine after the group took `who` among its members.
    pub open spec fn member_added(self, id: GroupId, who: AccountId) -> EngineView {
        self.with_group(id, self.group(id).with_member(who)).noting(
            Event::MemberAdded { group: id, member: who },
        )
    }

    /// The engine after the group's threshold was set, before anything ran.
    pub open spec fn threshold_set(self, id: GroupId, threshold: nat) -> EngineView {
        self.with_group(id, self.group(id).with_threshold(threshold)).noting(
            Event::ThresholdChanged { group: id, threshold: threshold as u32 },
        )
    }

    /// The engine after free funds moved out of the group's account.
    pub open spec fn transferred(self, id: GroupId, destination: AccountId, amount: nat)
        -> EngineView {
        self.with_book(book_transfer(self.book, self.group(id).account, destination, amount))
    }

    /// Whether `origin` acts with the authority of the group: only the
    /// group's own account does.
    pub open spec fn authorized(self, origin: AccountId, id: GroupId) -> bool {
        self.has_group(id) && self.group(id).account == origin
    }

    /// The deposit for `bytes` under the engine's rules.
    pub open spec fn deposit(self, bytes: Seq<u8>) -> nat {
        deposit_amount(self.base_deposit, self.per_byte_rate, bytes.len())
    }

    /// Why nothing of the group lets `caller` store `bytes`.
    pub open spec fn submission_refusal(self, caller: AccountId, id: GroupId, bytes: Seq<u8>)
        -> Option<Error> {
        if !self.has_group(id) {
            Some(Error::NotAMember)
        } else if self.group(id).submission_refusal(caller, digest_of(bytes)).is_some() {
            self.group(id).submission_refusal(caller, digest_of(bytes))
        } else if self.deposit(bytes) > Balance::MAX {
            Some(Error::ArithmeticOverflow)
        } else {
            None
        }
    }

    /// The engine after `caller` stored `bytes` and paid the deposit.
    pub open spec fn submitted(self, caller: AccountId, id: GroupId, bytes: Seq<u8>)
        -> EngineView {
        self.with_group(
            id,
            self.group(id).with_payload(
                PayloadView {
                    hash: digest_of(bytes),
                    bytes,
                    submitter: caller,
                    deposit: self.deposit(bytes),
                    approvals: Set::empty(),
                },
            ),
        ).with_book(book_reserve(self.book, caller, self.deposit(bytes))).noting(
            Event::PayloadSubmitted {
                group: id,
                hash: digest_of(bytes),
                submitter: caller,
                deposit: self.deposit(bytes) as Balance,
            },
        )
    }

    /// Whether the payload runs within the call that submits it: where to
    /// submit is to approve, and one approval is all that the group asks for.
    pub open spec fn runs_on_submission(self, caller: AccountId, id: GroupId, bytes: Seq<u8>)
        -> bool {
        self.submitter_approves && self.submitted(caller, id, bytes).approved(
            caller,
            id,
            digest_of(bytes),
        ).ready(id, digest_of(bytes))
    }

    /// The engine after a submission and what it brings with it: where to
    /// submit is to approve, the submitter's approval, and where that
    /// approval suffices, the payload's run.
    pub open spec fn submitted_and_settled(self, caller: AccountId, id: GroupId, bytes: Seq<u8>)
        -> EngineView {
        let stored = self.submitted(caller, id, bytes);
        let approved = stored.approved(caller, id, digest_of(bytes));
        if !self.submitter_approves {
            stored
        } else if approved.ready(id, digest_of(bytes)) {
            approved.ran(id, digest_of(bytes))
        } else {
            approved
        }
    }

    /// Why `caller` cannot withdraw the payload.
    pub open spec fn withdrawal_refusal(self, caller: AccountId, id: GroupId, hash: PayloadHash)
        -> Option<Error> {
        if !self.has_group(id) {
            Some(Error::PayloadNotFound)
        } else {
            self.group(id).withdrawal_refusal(hash, caller)
        }
    }

    /// The engine after the payload was withdrawn and its deposit freed.
    pub open spec fn withdrawn(self, id: GroupId, hash: PayloadHash) -> EngineView {
        let g = self.group(id);
        self.with_group(id, g.without_payload(g.index_of(hash))).with_book(
            book_unreserve(self.book, g.payload(hash).submitter, g.payload(hash).deposit),
        ).noting(Event::PayloadWithdrawn { group: id, hash })
    }

    /// Why `caller` cannot approve the payload.
    pub open spec fn approval_refusal(self, caller: AccountId, id: GroupId, hash: PayloadHash)
        -> Option<Error> {
        if !self.has_group(id) {
            Some(Error::NotAMember)
        } else {
            self.group(id).approval_refusal(hash, caller)
        }
    }

    /// The engine after `caller` approved the payload, before anything ran.
    pub open spec fn approved(self, caller: AccountId, id: GroupId, hash: PayloadHash)
        -> EngineView {
        let g = self.group(id);
        self.with_group(id, g.with_approval(g.index_of(hash), caller)).noting(
            Event::ApprovalAdded { group: id, hash, member: caller },
        )
    }

    /// Why `caller` cannot take an approval back.
    pub open spec fn unapproval_refusal(self, caller: AccountId, id: GroupId, hash: PayloadHash)
        -> Option<Error> {
        if !self.has_group(id) {
            Some(Error::PayloadNotFound)
        } else {
            self.group(id).unapproval_refusal(hash, caller)
        }
    }

    /// The engine after `caller` took the approval back.
    pub open spec fn unapproved(self, caller: AccountId, id: GroupId, hash: PayloadHash)
        -> EngineView {
        let g = self.group(id);
        self.with_group(id, g.without_approval(g.index_of(hash), caller)).noting(
            Event::ApprovalRemoved { group: id, hash, member: caller },
        )
    }

    /// Why the payload cannot run.
    pub open spec fn execution_refusal(self, id: GroupId, hash: PayloadHash) -> Option<Error> {
        if !self.has_group(id) {
            Some(Error::PayloadNotFound)
        } else {
            self.group(id).execution_refusal(hash)
        }
    }

    /// Whether the payload waits and has enough approvals.
    pub open spec fn ready(self, id: GroupId, hash: PayloadHash) -> bool {
        let g = self.group(id);
        self.has_group(id) && g.is_pending(hash) && g.payload(hash).ready(g.threshold)
    }

    /// The engine after the payload ran: it left the store, its hash is
    /// remembered, and its deposit went back.
    pub open spec fn ran(self, id: GroupId, hash: PayloadHash) -> EngineView {
        let g = self.group(id);
        self.with_group(id, g.executed_at(g.index_of(hash))).with_book(
            book_unreserve(self.book, g.payload(hash).submitter, g.payload(hash).deposit),
        ).noting(Event::PayloadExecuted { group: id, hash })
    }

    /// What is handed out when the payload runs.
    pub open spec fn execution(self, id: GroupId, hash: PayloadHash) -> ExecutionView {
        let g = self.group(id);
        ExecutionView { group: id, origin: g.account, payload: g.payload(hash) }
    }

    /// The engine after every payload of the group with enough approvals ran.
    pub open spec fn settled(self, id: GroupId) -> EngineView {
        let g = self.group(id);
        self.with_group(id, g.settled()).with_book(
            release_all(self.book, g.ready_now()),
        ).with_events(self.events + g.ready_now().map_values(executed_event(id)))
    }

    /// What is handed out when every payload of the group with enough
    /// approvals runs, oldest first.
    pub open spec fn executions(self, id: GroupId) -> Seq<ExecutionView> {
        let g = self.group(id);
        Seq::new(
            g.ready_now().len(),
            |k: int| ExecutionView { group: id, origin: g.account, payload: g.ready_now()[k] },
        )
    }

    /// Why a call that needs the group's authority is refused.
    pub open spec fn authority_refusal(self, origin: AccountId, id: GroupId) -> Option<Error> {
        if !self.authorized(origin, id) {
            Some(Error::ThresholdNotMet)
        } else {
            None
        }
    }

    /// The engine after `who` left the group, before anything ran: the
    /// removal is told, and where it took the threshold down, so is the
    /// threshold that now holds.
    pub open spec fn member_removed(self, id: GroupId, who: AccountId) -> EngineView {
        let g = self.group(id);
        let told = self.with_group(id, g.without_member(who)).noting(
            Event::MemberRemoved { group: id, member: who },
        );
        if g.without_member(who).threshold != g.threshold {
            told.noting(
                Event::ThresholdChanged {
                    group: id,
                    threshold: g.without_member(who).threshold as u32,
                },
            )
        } else {
            told
        }
    }

    /// Why `who` cannot be removed.
    pub open spec fn removal_refusal(self, origin: AccountId, id: GroupId, who: AccountId)
        -> Option<Error> {
        if !self.authorized(origin, id) {
            Some(Error::ThresholdNotMet)
        } else {
            self.group(id).removal_refusal(who)
        }
    }

    /// Why the threshold cannot change.
    pub open spec fn threshold_refusal(self, origin: AccountId, id: GroupId, threshold: nat)
        -> Option<Error> {
        if !self.authorized(origin, id) {
            Some(Error::ThresholdNotMet)
        } else {
            self.group(id).threshold_refusal(threshold)
        }
    }
}

/// What is owed to `who` after one group changed.
pub proof fn lemma_owed_update(groups: Seq<GroupView>, i: int, group: GroupView, who: AccountId)
    requires
        0 <= i < groups.len(),
    ensures
        owed(groups.update(i, group), who) + owed_in(groups[i].pending, who) == owed(groups, who)
            + owed_in(group.pending, who),
    decreases groups.len(),
{
    if i == groups.len() - 1 {
        assert(groups.update(i, group).drop_last() =~= groups.drop_last());
    } else {
        lemma_owed_update(groups.drop_last(), i, group, who);
        assert(groups.update(i, group).drop_last() =~= groups.drop_last().update(i, group));
    }
}

/// One group owes no more than all groups together.
pub proof fn lemma_owed_covers_group(groups: Seq<GroupView>, i: int, who: AccountId)
    requires
        0 <= i < groups.len(),
    ensures
        owed(groups, who) >= owed_in(groups[i].pending, who),
    decreases groups.len(),
{
    if i < groups.len() - 1 {
        lemma_owed_covers_group(groups.drop_last(), i, who);
    }
}

/// Where the reserved funds cover the deposits of the given payloads, each
/// deposit goes back in full.
pub proof fn lemma_release_all(book: Map<AccountId, Funds>, payloads: Seq<PayloadView>)
    requires
        forall|who: AccountId| funds_of(book, who).reserved >= #[trigger] owed_in(payloads, who),
    ensures
        forall|who: AccountId|
            funds_of(release_all(book, payloads), who).reserved + #[trigger] owed_in(payloads, who)
                == funds_of(book, who).reserved,
        forall|who: AccountId|
            funds_of(release_all(book, payloads), who).free == funds_of(book, who).free
                + #[trigger] owed_in(payloads, who),
    decreases payloads.len(),
{
    if payloads.len() > 0 {
        let rest = payloads.drop_last();
        let last = payloads.last();
        assert forall|who: AccountId| funds_of(book, who).reserved >= #[trigger] owed_in(
            rest,
            who,
        ) by {
            assert(funds_of(book, who).reserved >= owed_in(payloads, who));
        }
        lemma_release_all(book, rest);
        let mid = release_all(book, rest);
        assert(funds_of(mid, last.submitter).reserved + owed_in(rest, last.submitter) == funds_of(
            book,
            last.submitter,
        ).reserved);
        assert(funds_of(book, last.submitter).reserved >= owed_in(payloads, last.submitter));
        assert forall|who: AccountId|
            funds_of(release_all(book, payloads), who).reserved + #[trigger] owed_in(payloads, who)
                == funds_of(book, who).reserved && funds_of(release_all(book, payloads), who).free
                == funds_of(book, who).free + owed_in(payloads, who) by {
            assert(funds_of(mid, who).reserved + owed_in(rest, who) == funds_of(
                book,
                who,
            ).reserved);
            assert(funds_of(mid, who).free == funds_of(book, who).free + owed_in(rest, who));
        }
    }
}

impl EngineView {
    /// A change to one group that touches no deposit and no submitter, with
    /// a book that reserves no less, keeps the deposits in reserve.
    pub proof fn lemma_backed_same_deposits(
        self,
        id: GroupId,
        group: GroupView,
        book: Map<AccountId, Funds>,
    )
        requires
            self.backed(),
            self.has_group(id),
            group.pending.len() == self.group(id).pending.len(),
            forall|k: int|
                0 <= k < group.pending.len() ==> group.pending[k].deposit == self.group(
                    id,
                ).pending[k].deposit && group.pending[k].submitter == self.group(
                    id,
                ).pending[k].submitter,
            forall|who: AccountId|
                funds_of(book, who).reserved >= (#[trigger] funds_of(self.book, who)).reserved,
        ensures
            self.with_group(id, group).with_book(book).backed(),
    {
        let after = self.with_group(id, group).with_book(book);
        assert forall|who: AccountId| funds_of(after.book, who).reserved >= #[trigger] owed(
            after.groups,
            who,
        ) by {
            lemma_owed_update(self.groups, id.0 as int, group, who);
            lemma_owed_same(group.pending, self.group(id).pending, who);
            assert(funds_of(self.book, who).reserved >= owed(self.groups, who));
        }
    }

    /// A stored payload whose deposit was reserved keeps the deposits in reserve.
    pub proof fn lemma_backed_stored(self, id: GroupId, payload: PayloadView)
        requires
            self.backed(),
            self.has_group(id),
        ensures
            self.with_group(id, self.group(id).with_payload(payload)).with_book(
                book_reserve(self.book, payload.submitter, payload.deposit),
            ).backed(),
    {
        let g = self.group(id);
        let after = self.with_group(id, g.with_payload(payload)).with_book(
            book_reserve(self.book, payload.submitter, payload.deposit),
        );
        assert forall|who: AccountId| funds_of(after.book, who).reserved >= #[trigger] owed(
            after.groups,
            who,
        ) by {
            lemma_owed_update(self.groups, id.0 as int, g.with_payload(payload), who);
            lemma_owed_push(g.pending, payload, who);
            assert(funds_of(self.book, who).reserved >= owed(self.groups, who));
        }
    }

    /// A payload that leaves the store gets its deposit back in full, and
    /// the deposits of the others stay in reserve.
    pub proof fn lemma_backed_removed(self, id: GroupId, i: int)
        requires
            self.backed(),
            self.has_group(id),
            0 <= i < self.group(id).pending.len(),
        ensures
            releasable(
                self.book,
                self.group(id).pending[i].submitter,
                self.group(id).pending[i].deposit,
            ) == self.group(id).pending[i].deposit,
            self.with_group(id, self.group(id).without_payload(i)).with_book(
                book_unreserve(
                    self.book,
                    self.group(id).pending[i].submitter,
                    self.group(id).pending[i].deposit,
                ),
            ).backed(),
            self.with_group(id, self.group(id).executed_at(i)).with_book(
                book_unreserve(
                    self.book,
                    self.group(id).pending[i].submitter,
                    self.group(id).pending[i].deposit,
                ),
            ).backed(),
    {
        let g = self.group(id);
        let p = g.pending[i];
        let book = book_unreserve(self.book, p.submitter, p.deposit);
        assert(funds_of(self.book, p.submitter).reserved >= p.deposit) by {
            assert(funds_of(self.book, p.submitter).reserved >= owed(self.groups, p.submitter));
            lemma_owed_covers_group(self.groups, id.0 as int, p.submitter);
            lemma_owed_covers(g.pending, i, p.submitter);
        }
        let withdrawn = self.with_group(id, g.without_payload(i)).with_book(book);
        let ran = self.with_group(id, g.executed_at(i)).with_book(book);
        assert forall|who: AccountId|
            funds_of(book, who).reserved >= #[trigger] owed(withdrawn.groups, who) by {
            lemma_owed_update(self.groups, id.0 as int, g.without_payload(i), who);
            lemma_owed_remove(g.pending, i, who);
            assert(funds_of(self.book, who).reserved >= owed(self.groups, who));
        }
        assert forall|who: AccountId| funds_of(book, who).reserved >= #[trigger] owed(
            ran.groups,
            who,
        ) by {
            lemma_owed_update(self.groups, id.0 as int, g.executed_at(i), who);
            lemma_owed_remove(g.pending, i, who);
            assert(funds_of(self.book, who).reserved >= owed(self.groups, who));
        }
    }

    /// When the payloads of a group that have enough approvals run, each
    /// gets its deposit back in full, and the deposits of the others stay in
    /// reserve.
    pub proof fn lemma_backed_settled(self, id: GroupId)
        requires
            self.backed(),
            self.has_group(id),
        ensures
            self.settled(id).backed(),
            forall|who: AccountId|
                funds_of(self.settled(id).book, who).reserved + #[trigger] owed_in(
                    self.group(id).ready_now(),
                    who,
                ) == funds_of(self.book, who).reserved,
            forall|who: AccountId|
                funds_of(self.settled(id).book, who).free == funds_of(self.book, who).free
                    + #[trigger] owed_in(self.group(id).ready_now(), who),
    {
        let g = self.group(id);
        let ready = g.ready_now();
        assert forall|who: AccountId| funds_of(self.book, who).reserved >= #[trigger] owed_in(
            ready,
            who,
        ) by {
            assert(funds_of(self.book, who).reserved >= owed(self.groups, who));
            lemma_owed_covers_group(self.groups, id.0 as int, who);
            lemma_owed_split(g.pending, g.threshold, who);
        }
        lemma_release_all(self.book, ready);
        let after = self.settled(id);
        assert forall|who: AccountId| funds_of(after.book, who).reserved >= #[trigger] owed(
            after.groups,
            who,
        ) by {
            lemma_owed_update(self.groups, id.0 as int, g.settled(), who);
            lemma_owed_split(g.pending, g.threshold, who);
            assert(funds_of(self.book, who).reserved >= owed(self.groups, who));
            assert(funds_of(after.book, who).reserved + owed_in(ready, who) == funds_of(
                self.book,
                who,
            ).reserved);
        }
    }

    /// A new group, which has no payloads, owes nothing.
    pub proof fn lemma_backed_founded(self, group: GroupView)
        requires
            self.backed(),
            group.pending.len() == 0,
        ensures
            (EngineView { groups: self.groups.push(group), ..self }).backed(),
    {
        let after = EngineView { groups: self.groups.push(group), ..self };
        assert forall|who: AccountId| funds_of(after.book, who).reserved >= #[trigger] owed(
            after.groups,
            who,
        ) by {
            assert(after.groups.drop_last() =~= self.groups);
            assert(funds_of(self.book, who).reserved >= owed(self.groups, who));
        }
    }
}

} // verus!
