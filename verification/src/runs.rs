//! Runs of the engine: what any sequence of calls, from any state, leaves
//! true of the funds and of the payloads.

use crate::deposit::{book_reserve, book_unreserve, funds_of};
use crate::hashing::digest_of;
use crate::ident::{AccountId, Balance, Event, GroupId, PayloadHash};
use crate::model::{
    lemma_owed_push, lemma_owed_remove, lemma_owed_same, lemma_owed_split, GroupView, PayloadView,
};
use crate::state::{
    dispatch_event, executed_event, lemma_owed_update, owed, surplus, total, EngineView,
};
use vstd::prelude::*;

verus! {

/// A call of an entry point, together with what the ledger answered where
/// the call asks the ledger: whether it locked the deposit, whether it
/// moved the funds.
pub enum Call {
    CreateGroup { founders: Set<AccountId>, threshold: nat },
    Submit { caller: AccountId, group: GroupId, bytes: Seq<u8>, funded: bool },
    Withdraw { caller: AccountId, group: GroupId, hash: PayloadHash },
    Approve { caller: AccountId, group: GroupId, hash: PayloadHash },
    Unapprove { caller: AccountId, group: GroupId, hash: PayloadHash },
    Execute { group: GroupId, hash: PayloadHash },
    AddMember { origin: AccountId, group: GroupId, who: AccountId },
    RemoveMember { origin: AccountId, group: GroupId, who: AccountId },
    SetThreshold { origin: AccountId, group: GroupId, threshold: nat },
    Transfer {
        origin: AccountId,
        group: GroupId,
        destination: AccountId,
        amount: Balance,
        moved: bool,
    },
    ReportDispatch { group: GroupId, hash: PayloadHash, succeeded: bool },
    SetDepositRules { base_deposit: Balance, per_byte_rate: Balance },
}

/// The engine after one call: a call that is refused changes nothing.
pub open spec fn step(v: EngineView, call: Call) -> EngineView {
    match call {
        Call::CreateGroup { founders, threshold } => if founders.finite() && 1 <= threshold
            <= founders.len() {
            v.group_created(founders, threshold)
        } else {
            v
        },
        Call::Submit { caller, group, bytes, funded } => if v.submission_refusal(
            caller,
            group,
            bytes,
        ).is_none() && funded && funds_of(v.book, caller).free >= v.deposit(bytes) {
            v.submitted_and_settled(caller, group, bytes)
        } else {
            v
        },
        Call::Withdraw { caller, group, hash } => if v.withdrawal_refusal(
            caller,
            group,
            hash,
        ).is_none() {
            v.withdrawn(group, hash)
        } else {
            v
        },
        Call::Approve { caller, group, hash } => if v.approval_refusal(
            caller,
            group,
            hash,
        ).is_none() {
            if v.approved(caller, group, hash).ready(group, hash) {
                v.approved(caller, group, hash).ran(group, hash)
            } else {
                v.approved(caller, group, hash)
            }
        } else {
            v
        },
        Call::Unapprove { caller, group, hash } => if v.unapproval_refusal(
            caller,
            group,
            hash,
        ).is_none() {
            v.unapproved(caller, group, hash)
        } else {
            v
        },
        Call::Execute { group, hash } => if v.execution_refusal(group, hash).is_none() {
            v.ran(group, hash)
        } else {
            v
        },
        Call::AddMember { origin, group, who } => if v.authority_refusal(origin, group).is_none() {
            v.member_added(group, who)
        } else {
            v
        },
        Call::RemoveMember { origin, group, who } => if v.removal_refusal(
            origin,
            group,
            who,
        ).is_none() {
            v.member_removed(group, who).settled(group)
        } else {
            v
        },
        Call::SetThreshold { origin, group, threshold } => if v.threshold_refusal(
            origin,
            group,
            threshold,
        ).is_none() {
            v.threshold_set(group, threshold).settled(group)
        } else {
            v
        },
        Call::Transfer { origin, group, destination, amount, moved } => if v.authority_refusal(
            origin,
            group,
        ).is_none() && moved && funds_of(v.book, origin).free >= amount {
            v.transferred(group, destination, amount as nat)
        } else {
            v
        },
        Call::ReportDispatch { group, hash, succeeded } => if v.has_group(group) && v.group(
            group,
        ).executed.contains(hash) {
            v.noting(dispatch_event(group, hash, succeeded))
        } else {
            v
        },
        Call::SetDepositRules { base_deposit, per_byte_rate } => EngineView {
            base_deposit,
            per_byte_rate,
            ..v
        },
    }
}

/// The engine after a sequence of calls, the first one first.
pub open spec fn run(v: EngineView, calls: Seq<Call>) -> EngineView
    decreases calls.len(),
{
    if calls.len() == 0 {
        v
    } else {
        step(run(v, calls.drop_last()), calls.last())
    }
}

/// Whether no funds were moved between accounts by any of the calls.
pub open spec fn without_transfer(calls: Seq<Call>) -> bool {
    forall|i: int| 0 <= i < calls.len() ==> !(#[trigger] calls[i] is Transfer)
}

/// What two states have in common when the second came from the first by
/// steps that conserve: the deposits stay in reserve, and `who` has in
/// reserve, beyond the deposits, what it had.
pub open spec fn conserved(before: EngineView, after: EngineView, who: AccountId) -> bool {
    &&& after.backed()
    &&& after.groups.len() >= before.groups.len()
    &&& surplus(after, who) == surplus(before, who)
}

/// A state with the same groups and the same book conserves what another does.
proof fn lemma_same_funds(before: EngineView, mid: EngineView, after: EngineView, who: AccountId)
    requires
        conserved(before, mid, who),
        after.groups == mid.groups,
        after.book == mid.book,
    ensures
        conserved(before, after, who),
        total(after, who) == total(mid, who),
{
    assert forall|a: AccountId| funds_of(after.book, a).reserved >= #[trigger] owed(
        after.groups,
        a,
    ) by {
        assert(funds_of(mid.book, a).reserved >= owed(mid.groups, a));
    }
}

/// A change of one group that touches no deposit and no submitter conserves.
proof fn lemma_conserve_group(v: EngineView, id: GroupId, group: GroupView, who: AccountId)
    requires
        v.backed(),
        v.has_group(id),
        group.pending.len() == v.group(id).pending.len(),
        forall|k: int|
            0 <= k < group.pending.len() ==> group.pending[k].deposit == v.group(
                id,
            ).pending[k].deposit && group.pending[k].submitter == v.group(id).pending[k].submitter,
    ensures
        conserved(v, v.with_group(id, group), who),
        total(v.with_group(id, group), who) == total(v, who),
{
    v.lemma_backed_same_deposits(id, group, v.book);
    lemma_owed_update(v.groups, id.0 as int, group, who);
    lemma_owed_same(group.pending, v.group(id).pending, who);
    lemma_same_funds(v, v.with_group(id, group).with_book(v.book), v.with_group(id, group), who);
}

/// A submission conserves: the deposit is locked and owed at once.
proof fn lemma_conserve_submitted(
    v: EngineView,
    caller: AccountId,
    id: GroupId,
    bytes: Seq<u8>,
    who: AccountId,
)
    requires
        v.backed(),
        v.has_group(id),
    ensures
        conserved(v, v.submitted(caller, id, bytes), who),
        funds_of(v.book, caller).free >= v.deposit(bytes) ==> total(
            v.submitted(caller, id, bytes),
            who,
        ) == total(v, who),
        v.submitted(caller, id, bytes).has_group(id),
        v.submitted(caller, id, bytes).group(id).is_pending(digest_of(bytes)),
{
    let g = v.group(id);
    let after = v.submitted(caller, id, bytes);
    let stored = after.group(id).pending.last();
    assert(after.group(id).pending =~= g.pending.push(stored));
    v.lemma_backed_stored(id, stored);
    let plain = v.with_group(id, g.with_payload(stored)).with_book(
        book_reserve(v.book, caller, v.deposit(bytes)),
    );
    lemma_owed_update(v.groups, id.0 as int, g.with_payload(stored), who);
    lemma_owed_push(g.pending, stored, who);
    assert(conserved(v, plain, who));
    lemma_same_funds(v, plain, after, who);
    assert(after.group(id).pending[after.group(id).pending.len() - 1].hash == digest_of(bytes));
}

/// A payload that leaves the store, because it ran or was withdrawn,
/// conserves: its deposit is freed and owed no more.
proof fn lemma_conserve_resolved(v: EngineView, id: GroupId, hash: PayloadHash, who: AccountId)
    requires
        v.backed(),
        v.has_group(id),
        v.group(id).is_pending(hash),
    ensures
        conserved(v, v.withdrawn(id, hash), who),
        conserved(v, v.ran(id, hash), who),
        total(v.withdrawn(id, hash), who) == total(v, who),
        total(v.ran(id, hash), who) == total(v, who),
{
    let g = v.group(id);
    let i = g.index_of(hash);
    let p = g.pending[i];
    let book = book_unreserve(v.book, p.submitter, p.deposit);
    v.lemma_backed_removed(id, i);
    lemma_owed_remove(g.pending, i, who);
    lemma_owed_update(v.groups, id.0 as int, g.without_payload(i), who);
    lemma_owed_update(v.groups, id.0 as int, g.executed_at(i), who);
    let withdrawn = v.with_group(id, g.without_payload(i)).with_book(book);
    let ran = v.with_group(id, g.executed_at(i)).with_book(book);
    assert(conserved(v, withdrawn, who));
    assert(conserved(v, ran, who));
    lemma_same_funds(v, withdrawn, v.withdrawn(id, hash), who);
    lemma_same_funds(v, ran, v.ran(id, hash), who);
}

/// An approval conserves, and the payload still waits.
proof fn lemma_conserve_approved(
    v: EngineView,
    caller: AccountId,
    id: GroupId,
    hash: PayloadHash,
    who: AccountId,
)
    requires
        v.backed(),
        v.has_group(id),
        v.group(id).is_pending(hash),
    ensures
        conserved(v, v.approved(caller, id, hash), who),
        conserved(v, v.unapproved(caller, id, hash), who),
        total(v.approved(caller, id, hash), who) == total(v, who),
        total(v.unapproved(caller, id, hash), who) == total(v, who),
        v.approved(caller, id, hash).has_group(id),
        v.approved(caller, id, hash).group(id).is_pending(hash),
{
    let g = v.group(id);
    let i = g.index_of(hash);
    lemma_conserve_group(v, id, g.with_approval(i, caller), who);
    lemma_conserve_group(v, id, g.without_approval(i, caller), who);
    lemma_same_funds(
        v,
        v.with_group(id, g.with_approval(i, caller)),
        v.approved(caller, id, hash),
        who,
    );
    lemma_same_funds(
        v,
        v.with_group(id, g.without_approval(i, caller)),
        v.unapproved(caller, id, hash),
        who,
    );
    assert(v.approved(caller, id, hash).group(id).pending[i].hash == hash);
}

/// The run of every payload of a group that has enough approvals conserves.
proof fn lemma_conserve_settled(v: EngineView, id: GroupId, who: AccountId)
    requires
        v.backed(),
        v.has_group(id),
    ensures
        conserved(v, v.settled(id), who),
        total(v.settled(id), who) == total(v, who),
{
    let g = v.group(id);
    v.lemma_backed_settled(id);
    lemma_owed_update(v.groups, id.0 as int, g.settled(), who);
    lemma_owed_split(g.pending, g.threshold, who);
}

/// Conservation, step by step: whatever the call, the deposits of all
/// waiting payloads stay in reserve, and no account has more or less in
/// reserve beyond its deposits than before. Unless the call moves funds
/// from one account to another, no account's funds change in sum.
pub proof fn law_step_conserves(v: EngineView, call: Call, who: AccountId)
    requires
        v.backed(),
    ensures
        conserved(v, step(v, call), who),
        !(call is Transfer) ==> total(step(v, call), who) == total(v, who),
{
    let after = step(v, call);
    if after != v {
        lemma_changing_step_conserves(v, call, who);
    }
}

/// The same of a call that is not refused.
proof fn lemma_changing_step_conserves(v: EngineView, call: Call, who: AccountId)
    requires
        v.backed(),
        step(v, call) != v,
    ensures
        conserved(v, step(v, call), who),
        !(call is Transfer) ==> total(step(v, call), who) == total(v, who),
{
    let after = step(v, call);
    match call {
        Call::CreateGroup { founders, threshold } => {
            let group = GroupView::founded(
                crate::accounts::sub_account(v.seed, v.groups.len() as u64),
                founders,
                threshold,
            );
            v.lemma_backed_founded(group);
            let grown = EngineView { groups: v.groups.push(group), ..v };
            assert(grown.groups.drop_last() =~= v.groups);
            assert(conserved(v, grown, who));
            lemma_same_funds(v, grown, after, who);
        },
        Call::Submit { caller, group, bytes, funded } => {
            let hash = digest_of(bytes);
            let stored = v.submitted(caller, group, bytes);
            lemma_conserve_submitted(v, caller, group, bytes, who);
            if v.submitter_approves {
                lemma_conserve_approved(stored, caller, group, hash, who);
                let approved = stored.approved(caller, group, hash);
                if approved.ready(group, hash) {
                    lemma_conserve_resolved(approved, group, hash, who);
                }
            }
        },
        Call::Withdraw { caller, group, hash } => {
            lemma_conserve_resolved(v, group, hash, who);
        },
        Call::Approve { caller, group, hash } => {
            lemma_conserve_approved(v, caller, group, hash, who);
            let approved = v.approved(caller, group, hash);
            if approved.ready(group, hash) {
                lemma_conserve_resolved(approved, group, hash, who);
            }
        },
        Call::Unapprove { caller, group, hash } => {
            lemma_conserve_approved(v, caller, group, hash, who);
        },
        Call::Execute { group, hash } => {
            lemma_conserve_resolved(v, group, hash, who);
        },
        Call::AddMember { origin, group, who: member } => {
            lemma_conserve_group(v, group, v.group(group).with_member(member), who);
            lemma_same_funds(
                v,
                v.with_group(group, v.group(group).with_member(member)),
                after,
                who,
            );
        },
        Call::RemoveMember { origin, group, who: member } => {
            let removed = v.member_removed(group, member);
            lemma_conserve_group(v, group, v.group(group).without_member(member), who);
            lemma_same_funds(
                v,
                v.with_group(group, v.group(group).without_member(member)),
                removed,
                who,
            );
            lemma_conserve_settled(removed, group, who);
        },
        Call::SetThreshold { origin, group, threshold } => {
            let changed = v.threshold_set(group, threshold);
            lemma_conserve_group(v, group, v.group(group).with_threshold(threshold), who);
            lemma_same_funds(
                v,
                v.with_group(group, v.group(group).with_threshold(threshold)),
                changed,
                who,
            );
            lemma_conserve_settled(changed, group, who);
        },
        Call::Transfer { origin, group, destination, amount, moved } => {
            assert forall|a: AccountId| funds_of(after.book, a).reserved >= #[trigger] owed(
                after.groups,
                a,
            ) by {
                assert(funds_of(v.book, a).reserved >= owed(v.groups, a));
            }
        },
        Call::ReportDispatch { group, hash, succeeded } => {
            lemma_same_funds(v, v, after, who);
        },
        Call::SetDepositRules { base_deposit, per_byte_rate } => {
            lemma_same_funds(v, v, after, who);
        },
    }
}

/// Conservation over every run: from a state in which the deposits are in
/// reserve, whatever calls are made in whatever order, at the end the
/// deposits of all waiting payloads are in reserve, and every account has
/// in reserve, beyond its deposits, exactly what it had at the start. If no
/// call moved funds between accounts, every account's funds, free and
/// reserved together, are what they were.
pub proof fn law_conservation_over_runs(v: EngineView, calls: Seq<Call>, who: AccountId)
    requires
        v.backed(),
    ensures
        run(v, calls).backed(),
        surplus(run(v, calls), who) == surplus(v, who),
        without_transfer(calls) ==> total(run(v, calls), who) == total(v, who),
    decreases calls.len(),
{
    if calls.len() > 0 {
        law_conservation_over_runs(v, calls.drop_last(), who);
        law_step_conserves(run(v, calls.drop_last()), calls.last(), who);
        if without_transfer(calls) {
            assert(!(calls[calls.len() - 1] is Transfer));
            assert forall|i: int| 0 <= i < calls.drop_last().len() implies !(
            #[trigger] calls.drop_last()[i] is Transfer) by {
                assert(!(calls[i] is Transfer));
            }
        }
    }
}

/// Conservation as an equality: on an engine whose ledger held nothing in
/// reserve for an account but that account's deposits, whatever calls are
/// made, the account's reserved funds are at the end exactly the deposits
/// of the payloads that it submitted and that still wait.
pub proof fn law_reserved_equals_deposits(v: EngineView, calls: Seq<Call>, who: AccountId)
    requires
        funds_of(v.book, who).reserved == owed(v.groups, who),
        v.backed(),
    ensures
        funds_of(run(v, calls).book, who).reserved == owed(run(v, calls).groups, who),
{
    law_conservation_over_runs(v, calls, who);
}

/// The test for the notification that a payload with this hash was stored
/// in the group.
pub open spec fn is_submission(id: GroupId, hash: PayloadHash) -> spec_fn(Event) -> bool {
    |e: Event|
        match e {
            Event::PayloadSubmitted { group, hash: h, .. } => group == id && h == hash,
            _ => false,
        }
}

/// The test for the notification that the payload ran.
pub open spec fn is_execution(id: GroupId, hash: PayloadHash) -> spec_fn(Event) -> bool {
    |e: Event| e == (Event::PayloadExecuted { group: id, hash })
}

/// The test for the notification that the payload was withdrawn.
pub open spec fn is_withdrawal(id: GroupId, hash: PayloadHash) -> spec_fn(Event) -> bool {
    |e: Event| e == (Event::PayloadWithdrawn { group: id, hash })
}

/// How many of the notifications pass the test.
pub open spec fn count(events: Seq<Event>, test: spec_fn(Event) -> bool) -> nat
    decreases events.len(),
{
    if events.len() == 0 {
        0
    } else {
        count(events.drop_last(), test) + if test(events.last()) {
            1nat
        } else {
            0nat
        }
    }
}

/// How many of the payloads have this hash.
pub open spec fn hits(pending: Seq<PayloadView>, hash: PayloadHash) -> nat
    decreases pending.len(),
{
    if pending.len() == 0 {
        0
    } else {
        hits(pending.drop_last(), hash) + if pending.last().hash == hash {
            1nat
        } else {
            0nat
        }
    }
}

/// How many payloads with this hash wait in the group.
pub open spec fn waiting(v: EngineView, id: GroupId, hash: PayloadHash) -> nat {
    if v.has_group(id) {
        hits(v.group(id).pending, hash)
    } else {
        0
    }
}

/// The submissions of a payload that are not accounted for: those told,
/// less the runs and the withdrawals told, less the payloads that wait.
pub open spec fn unaccounted(v: EngineView, id: GroupId, hash: PayloadHash) -> int {
    count(v.events, is_submission(id, hash)) - count(v.events, is_execution(id, hash)) - count(
        v.events,
        is_withdrawal(id, hash),
    ) - waiting(v, id, hash)
}

/// What one more notification adds to a count.
proof fn lemma_count_push(events: Seq<Event>, e: Event, test: spec_fn(Event) -> bool)
    ensures
        count(events.push(e), test) == count(events, test) + if test(e) {
            1nat
        } else {
            0nat
        },
{
    assert(events.push(e).drop_last() =~= events);
}

/// The count of two lists of notifications, one behind the other.
proof fn lemma_count_add(a: Seq<Event>, b: Seq<Event>, test: spec_fn(Event) -> bool)
    ensures
        count(a + b, test) == count(a, test) + count(b, test),
    decreases b.len(),
{
    if b.len() == 0 {
        assert(a + b =~= a);
    } else {
        lemma_count_add(a, b.drop_last(), test);
        assert((a + b).drop_last() =~= a + b.drop_last());
    }
}

/// What one more payload adds to the payloads with a hash.
proof fn lemma_hits_push(pending: Seq<PayloadView>, p: PayloadView, hash: PayloadHash)
    ensures
        hits(pending.push(p), hash) == hits(pending, hash) + if p.hash == hash {
            1nat
        } else {
            0nat
        },
{
    assert(pending.push(p).drop_last() =~= pending);
}

/// What a payload that leaves takes from the payloads with a hash.
proof fn lemma_hits_remove(pending: Seq<PayloadView>, i: int, hash: PayloadHash)
    requires
        0 <= i < pending.len(),
    ensures
        hits(pending.remove(i), hash) + (if pending[i].hash == hash {
            1nat
        } else {
            0nat
        }) == hits(pending, hash),
    decreases pending.len(),
{
    if i == pending.len() - 1 {
        assert(pending.remove(i) =~= pending.drop_last());
    } else {
        lemma_hits_remove(pending.drop_last(), i, hash);
        assert(pending.remove(i).drop_last() =~= pending.drop_last().remove(i));
        assert(pending.remove(i).last() == pending.last());
    }
}

/// Payloads with the same hashes, one for one, hit the same.
proof fn lemma_hits_same(a: Seq<PayloadView>, b: Seq<PayloadView>, hash: PayloadHash)
    requires
        a.len() == b.len(),
        forall|i: int| 0 <= i < a.len() ==> a[i].hash == b[i].hash,
    ensures
        hits(a, hash) == hits(b, hash),
    decreases a.len(),
{
    if a.len() > 0 {
        lemma_hits_same(a.drop_last(), b.drop_last(), hash);
    }
}

/// The payloads with a hash are those among the payloads that run and
/// those among the payloads that wait on.
proof fn lemma_hits_split(pending: Seq<PayloadView>, threshold: nat, hash: PayloadHash)
    ensures
        hits(pending.filter(crate::model::is_waiting(threshold)), hash) + hits(
            pending.filter(crate::model::is_ready(threshold)),
            hash,
        ) == hits(pending, hash),
    decreases pending.len(),
{
    reveal(Seq::filter);
    if pending.len() > 0 {
        let rest = pending.drop_last();
        let last = pending.last();
        lemma_hits_split(rest, threshold, hash);
        assert(pending =~= rest.push(last));
        rest.lemma_filter_push(last, crate::model::is_waiting(threshold));
        rest.lemma_filter_push(last, crate::model::is_ready(threshold));
        if last.ready(threshold) {
            lemma_hits_push(rest.filter(crate::model::is_ready(threshold)), last, hash);
        } else {
            lemma_hits_push(rest.filter(crate::model::is_waiting(threshold)), last, hash);
        }
    }
}

/// The notifications of the payloads that ran in one group tell of as many
/// runs of a hash as those payloads have that hash, and of nothing else.
proof fn lemma_count_executed(
    ran: Seq<PayloadView>,
    id: GroupId,
    target: GroupId,
    hash: PayloadHash,
)
    ensures
        count(ran.map_values(executed_event(id)), is_execution(target, hash)) == if target == id {
            hits(ran, hash)
        } else {
            0
        },
        count(ran.map_values(executed_event(id)), is_submission(target, hash)) == 0,
        count(ran.map_values(executed_event(id)), is_withdrawal(target, hash)) == 0,
    decreases ran.len(),
{
    let told = ran.map_values(executed_event(id));
    if ran.len() > 0 {
        lemma_count_executed(ran.drop_last(), id, target, hash);
        assert(told.drop_last() =~= ran.drop_last().map_values(executed_event(id)));
        assert(told.last() == (Event::PayloadExecuted { group: id, hash: ran.last().hash }));
    }
}

/// What a notification does to the submissions not accounted for.
proof fn lemma_unaccounted_noting(v: EngineView, e: Event, id: GroupId, hash: PayloadHash)
    ensures
        unaccounted(v.noting(e), id, hash) == unaccounted(v, id, hash) + (if is_submission(
            id,
            hash,
        )(e) {
            1int
        } else {
            0int
        }) - (if is_execution(id, hash)(e) {
            1int
        } else {
            0int
        }) - (if is_withdrawal(id, hash)(e) {
            1int
        } else {
            0int
        }),
{
    lemma_count_push(v.events, e, is_submission(id, hash));
    lemma_count_push(v.events, e, is_execution(id, hash));
    lemma_count_push(v.events, e, is_withdrawal(id, hash));
}

/// What a change of one group does to the submissions not accounted for.
proof fn lemma_unaccounted_group(
    v: EngineView,
    at: GroupId,
    group: GroupView,
    id: GroupId,
    hash: PayloadHash,
)
    requires
        v.has_group(at),
    ensures
        unaccounted(v.with_group(at, group), id, hash) == unaccounted(v, id, hash) + if at == id {
            hits(v.group(at).pending, hash) - hits(group.pending, hash)
        } else {
            0
        },
        v.with_group(at, group).has_group(at),
        v.with_group(at, group).group(at) == group,
{
}

/// The submissions not accounted for stay what they are through a change
/// of one group that keeps the hashes of its payloads.
proof fn lemma_unaccounted_same_hashes(
    v: EngineView,
    at: GroupId,
    group: GroupView,
    id: GroupId,
    hash: PayloadHash,
)
    requires
        v.has_group(at),
        group.pending.len() == v.group(at).pending.len(),
        forall|k: int|
            0 <= k < group.pending.len() ==> group.pending[k].hash == v.group(at).pending[k].hash,
    ensures
        unaccounted(v.with_group(at, group), id, hash) == unaccounted(v, id, hash),
{
    lemma_unaccounted_group(v, at, group, id, hash);
    lemma_hits_same(group.pending, v.group(at).pending, hash);
}

/// A submission is accounted for by the payload that then waits.
proof fn lemma_unaccounted_submitted(
    v: EngineView,
    caller: AccountId,
    at: GroupId,
    bytes: Seq<u8>,
    id: GroupId,
    hash: PayloadHash,
)
    requires
        v.has_group(at),
    ensures
        unaccounted(v.submitted(caller, at, bytes), id, hash) == unaccounted(v, id, hash),
        v.submitted(caller, at, bytes).has_group(at),
        v.submitted(caller, at, bytes).group(at).is_pending(digest_of(bytes)),
{
    let g = v.group(at);
    let after = v.submitted(caller, at, bytes);
    let stored = after.group(at).pending.last();
    assert(after.group(at).pending =~= g.pending.push(stored));
    lemma_hits_push(g.pending, stored, hash);
    lemma_unaccounted_group(v, at, g.with_payload(stored), id, hash);
    let plain = v.with_group(at, g.with_payload(stored)).with_book(
        book_reserve(v.book, caller, v.deposit(bytes)),
    );
    assert(unaccounted(plain, id, hash) == unaccounted(
        v.with_group(at, g.with_payload(stored)),
        id,
        hash,
    ));
    lemma_unaccounted_noting(
        plain,
        Event::PayloadSubmitted {
            group: at,
            hash: digest_of(bytes),
            submitter: caller,
            deposit: v.deposit(bytes) as Balance,
        },
        id,
        hash,
    );
    assert(after.group(at).pending[after.group(at).pending.len() - 1].hash == digest_of(bytes));
}

/// A payload that leaves the store is accounted for by the run or the
/// withdrawal that is told.
proof fn lemma_unaccounted_resolved(
    v: EngineView,
    at: GroupId,
    gone: PayloadHash,
    id: GroupId,
    hash: PayloadHash,
)
    requires
        v.has_group(at),
        v.group(at).is_pending(gone),
    ensures
        unaccounted(v.withdrawn(at, gone), id, hash) == unaccounted(v, id, hash),
        unaccounted(v.ran(at, gone), id, hash) == unaccounted(v, id, hash),
{
    let g = v.group(at);
    let i = g.index_of(gone);
    let p = g.pending[i];
    let book = book_unreserve(v.book, p.submitter, p.deposit);
    lemma_hits_remove(g.pending, i, hash);
    lemma_unaccounted_group(v, at, g.without_payload(i), id, hash);
    lemma_unaccounted_group(v, at, g.executed_at(i), id, hash);
    let withdrawn = v.with_group(at, g.without_payload(i)).with_book(book);
    let ran = v.with_group(at, g.executed_at(i)).with_book(book);
    assert(unaccounted(withdrawn, id, hash) == unaccounted(
        v.with_group(at, g.without_payload(i)),
        id,
        hash,
    ));
    assert(unaccounted(ran, id, hash) == unaccounted(
        v.with_group(at, g.executed_at(i)),
        id,
        hash,
    ));
    lemma_unaccounted_noting(withdrawn, Event::PayloadWithdrawn { group: at, hash: gone }, id, hash);
    lemma_unaccounted_noting(ran, Event::PayloadExecuted { group: at, hash: gone }, id, hash);
}

/// An approval, and its taking back, touch no account of submissions, and
/// the payload still waits.
proof fn lemma_unaccounted_approved(
    v: EngineView,
    caller: AccountId,
    at: GroupId,
    voted: PayloadHash,
    id: GroupId,
    hash: PayloadHash,
)
    requires
        v.has_group(at),
        v.group(at).is_pending(voted),
    ensures
        unaccounted(v.approved(caller, at, voted), id, hash) == unaccounted(v, id, hash),
        unaccounted(v.unapproved(caller, at, voted), id, hash) == unaccounted(v, id, hash),
        v.approved(caller, at, voted).has_group(at),
        v.approved(caller, at, voted).group(at).is_pending(voted),
{
    let g = v.group(at);
    let i = g.index_of(voted);
    lemma_unaccounted_same_hashes(v, at, g.with_approval(i, caller), id, hash);
    lemma_unaccounted_same_hashes(v, at, g.without_approval(i, caller), id, hash);
    lemma_unaccounted_noting(
        v.with_group(at, g.with_approval(i, caller)),
        Event::ApprovalAdded { group: at, hash: voted, member: caller },
        id,
        hash,
    );
    lemma_unaccounted_noting(
        v.with_group(at, g.without_approval(i, caller)),
        Event::ApprovalRemoved { group: at, hash: voted, member: caller },
        id,
        hash,
    );
    assert(v.approved(caller, at, voted).group(at).pending[i].hash == voted);
}

/// The payloads that run when a group is settled are accounted for by the
/// runs that are told.
proof fn lemma_unaccounted_settled(v: EngineView, at: GroupId, id: GroupId, hash: PayloadHash)
    requires
        v.has_group(at),
    ensures
        unaccounted(v.settled(at), id, hash) == unaccounted(v, id, hash),
{
    let g = v.group(at);
    let told = g.ready_now().map_values(executed_event(at));
    lemma_hits_split(g.pending, g.threshold, hash);
    lemma_count_executed(g.ready_now(), at, id, hash);
    lemma_count_add(v.events, told, is_submission(id, hash));
    lemma_count_add(v.events, told, is_execution(id, hash));
    lemma_count_add(v.events, told, is_withdrawal(id, hash));
    lemma_unaccounted_group(v, at, g.settled(), id, hash);
}

/// No call changes the submissions not accounted for.
proof fn lemma_changing_step_accounts(v: EngineView, call: Call, id: GroupId, hash: PayloadHash)
    requires
        step(v, call) != v,
    ensures
        unaccounted(step(v, call), id, hash) == unaccounted(v, id, hash),
{
    let after = step(v, call);
    match call {
        Call::CreateGroup { founders, threshold } => {
            let at = GroupId(v.groups.len() as u64);
            let account = crate::accounts::sub_account(v.seed, at.0);
            let group = GroupView::founded(account, founders, threshold);
            let grown = EngineView { groups: v.groups.push(group), ..v };
            assert(unaccounted(grown, id, hash) == unaccounted(v, id, hash)) by {
                if id.0 < v.groups.len() {
                    assert(grown.group(id) == v.group(id));
                }
            }
            lemma_unaccounted_noting(grown, Event::GroupCreated { group: at, account }, id, hash);
        },
        Call::Submit { caller, group, bytes, funded } => {
            let stored = v.submitted(caller, group, bytes);
            lemma_unaccounted_submitted(v, caller, group, bytes, id, hash);
            if v.submitter_approves {
                lemma_unaccounted_approved(stored, caller, group, digest_of(bytes), id, hash);
                let approved = stored.approved(caller, group, digest_of(bytes));
                if approved.ready(group, digest_of(bytes)) {
                    lemma_unaccounted_resolved(approved, group, digest_of(bytes), id, hash);
                }
            }
        },
        Call::Withdraw { caller, group, hash: gone } => {
            lemma_unaccounted_resolved(v, group, gone, id, hash);
        },
        Call::Approve { caller, group, hash: voted } => {
            lemma_unaccounted_approved(v, caller, group, voted, id, hash);
            let approved = v.approved(caller, group, voted);
            if approved.ready(group, voted) {
                lemma_unaccounted_resolved(approved, group, voted, id, hash);
            }
        },
        Call::Unapprove { caller, group, hash: voted } => {
            lemma_unaccounted_approved(v, caller, group, voted, id, hash);
        },
        Call::Execute { group, hash: gone } => {
            lemma_unaccounted_resolved(v, group, gone, id, hash);
        },
        Call::AddMember { origin, group, who } => {
            lemma_unaccounted_same_hashes(v, group, v.group(group).with_member(who), id, hash);
            lemma_unaccounted_noting(
                v.with_group(group, v.group(group).with_member(who)),
                Event::MemberAdded { group, member: who },
                id,
                hash,
            );
        },
        Call::RemoveMember { origin, group, who } => {
            let g = v.group(group);
            let less = v.with_group(group, g.without_member(who));
            lemma_unaccounted_same_hashes(v, group, g.without_member(who), id, hash);
            let told = less.noting(Event::MemberRemoved { group, member: who });
            lemma_unaccounted_noting(less, Event::MemberRemoved { group, member: who }, id, hash);
            lemma_unaccounted_noting(
                told,
                Event::ThresholdChanged {
                    group,
                    threshold: g.without_member(who).threshold as u32,
                },
                id,
                hash,
            );
            lemma_unaccounted_settled(v.member_removed(group, who), group, id, hash);
        },
        Call::SetThreshold { origin, group, threshold } => {
            lemma_unaccounted_same_hashes(
                v,
                group,
                v.group(group).with_threshold(threshold),
                id,
                hash,
            );
            lemma_unaccounted_noting(
                v.with_group(group, v.group(group).with_threshold(threshold)),
                Event::ThresholdChanged { group, threshold: threshold as u32 },
                id,
                hash,
            );
            lemma_unaccounted_settled(v.threshold_set(group, threshold), group, id, hash);
        },
        Call::Transfer { origin, group, destination, amount, moved } => {},
        Call::ReportDispatch { group, hash: reported, succeeded } => {
            lemma_unaccounted_noting(v, dispatch_event(group, reported, succeeded), id, hash);
        },
        Call::SetDepositRules { base_deposit, per_byte_rate } => {},
    }
}

/// Accounting over every run: whatever calls are made in whatever order,
/// the submissions of a payload that are not accounted for stay what they
/// were. Every submission that is told is matched by exactly one of three:
/// a run that is told, a withdrawal that is told, or a payload that waits.
pub proof fn law_accounting_over_runs(
    v: EngineView,
    calls: Seq<Call>,
    id: GroupId,
    hash: PayloadHash,
)
    ensures
        unaccounted(run(v, calls), id, hash) == unaccounted(v, id, hash),
    decreases calls.len(),
{
    if calls.len() > 0 {
        let before = run(v, calls.drop_last());
        law_accounting_over_runs(v, calls.drop_last(), id, hash);
        if step(before, calls.last()) != before {
            lemma_changing_step_accounts(before, calls.last(), id, hash);
        }
    }
}

/// Whether the engine has just been made: no group, nothing told.
pub open spec fn fresh(v: EngineView) -> bool {
    v.groups.len() == 0 && v.events.len() == 0
}

/// On an engine that has just been made nothing is owed and every
/// submission is accounted for, there being none.
pub proof fn law_fresh_engine(v: EngineView, id: GroupId, hash: PayloadHash, who: AccountId)
    requires
        fresh(v),
    ensures
        v.backed(),
        owed(v.groups, who) == 0,
        unaccounted(v, id, hash) == 0,
{
    assert forall|a: AccountId| funds_of(v.book, a).reserved >= #[trigger] owed(v.groups, a) by {}
}

/// A payload runs at most once for each time that it is submitted: after
/// any calls on an engine that was made afresh, a payload was run and
/// withdrawn, taken together, as often as it was submitted, less once if it
/// waits. So no submission runs twice, and none that was withdrawn runs.
/// Since this holds after every call, it holds between any two of them.
pub proof fn law_one_run_per_submission(
    v: EngineView,
    calls: Seq<Call>,
    id: GroupId,
    hash: PayloadHash,
)
    requires
        fresh(v),
    ensures
        count(run(v, calls).events, is_execution(id, hash)) + count(
            run(v, calls).events,
            is_withdrawal(id, hash),
        ) + waiting(run(v, calls), id, hash) == count(
            run(v, calls).events,
            is_submission(id, hash),
        ),
        count(run(v, calls).events, is_execution(id, hash)) <= count(
            run(v, calls).events,
            is_submission(id, hash),
        ),
{
    assert(unaccounted(v, id, hash) == 0);
    law_accounting_over_runs(v, calls, id, hash);
}

/// On an engine that was made afresh on a ledger without reserved funds,
/// after any calls the reserved funds of every account are exactly the
/// deposits of the payloads that it submitted and that still wait; and if
/// no call moved funds between accounts, the account's funds, free and
/// reserved together, are what the ledger held for it at the start.
pub proof fn law_conservation_from_the_start(v: EngineView, calls: Seq<Call>, who: AccountId)
    requires
        fresh(v),
        funds_of(v.book, who).reserved == 0,
    ensures
        funds_of(run(v, calls).book, who).reserved == owed(run(v, calls).groups, who),
        without_transfer(calls) ==> total(run(v, calls), who) == funds_of(v.book, who).free,
{
    assert forall|a: AccountId| funds_of(v.book, a).reserved >= #[trigger] owed(v.groups, a) by {}
    law_conservation_over_runs(v, calls, who);
}

} // verus!
