//! What holds of every group and every engine, whatever was done to them.

use crate::deposit::{book_transfer, funds_of};
use crate::ident::{AccountId, Error, GroupId, PayloadHash};
use crate::model::{
    is_ready, is_waiting, lemma_index_of, lemma_sum_push, lemma_sum_remove,
    lemma_sum_same_deposits, sum_deposits, GroupView, PayloadView,
};
use crate::state::{lemma_owed_covers_group, lemma_owed_update, owed, surplus, EngineView};
use vstd::prelude::*;

verus! {

/// A payload runs at most once: after it ran, it waits no more, and to run
/// it again is refused because it ran already.
pub proof fn law_no_second_execution(g: GroupView, hash: PayloadHash)
    requires
        g.wf(),
        g.execution_refusal(hash).is_none(),
    ensures
        !g.executed_at(g.index_of(hash)).is_pending(hash),
        g.executed_at(g.index_of(hash)).execution_refusal(hash) == Some(Error::AlreadyExecuted),
        g.executed_at(g.index_of(hash)).wf(),
{
    let i = g.index_of(hash);
    lemma_removed_is_gone(g, i);
    lemma_executed_at_wf(g, i);
}

/// The same of the engine: once a payload ran, neither entry point runs it
/// again, and one of them says that it ran already.
pub proof fn law_engine_no_second_execution(v: EngineView, id: GroupId, hash: PayloadHash)
    requires
        v.inv(),
        v.execution_refusal(id, hash).is_none(),
    ensures
        v.ran(id, hash).execution_refusal(id, hash) == Some(Error::AlreadyExecuted),
        !v.ran(id, hash).group(id).is_pending(hash),
        !v.ran(id, hash).ready(id, hash),
{
    law_no_second_execution(v.group(id), hash);
}

/// A payload that ran because of an approval cannot be run again: it
/// waits no more, so that to run it by name finds nothing, and to try it is
/// refused because it ran already.
pub proof fn law_approved_payload_runs_once(
    v: EngineView,
    caller: AccountId,
    id: GroupId,
    hash: PayloadHash,
)
    requires
        v.inv(),
        v.approval_refusal(caller, id, hash).is_none(),
        v.approved(caller, id, hash).ready(id, hash),
    ensures
        v.approved(caller, id, hash).inv(),
        !v.approved(caller, id, hash).ran(id, hash).group(id).is_pending(hash),
        v.approved(caller, id, hash).ran(id, hash).execution_refusal(id, hash) == Some(
            Error::AlreadyExecuted,
        ),
{
    let g = v.group(id);
    let i = g.index_of(hash);
    let approved = v.approved(caller, id, hash);
    lemma_approved_wf(g, i, caller);
    v.lemma_backed_same_deposits(id, g.with_approval(i, caller), v.book);
    assert forall|k: int| 0 <= k < approved.groups.len() implies {
        &&& (#[trigger] approved.groups[k]).wf()
        &&& approved.groups[k].account.raw@ == crate::accounts::sub_account_bytes(
            approved.seed,
            k as u64,
        )
    } by {
        if k != id.0 {
            assert(approved.groups[k] == v.groups[k]);
        }
    }
    law_engine_no_second_execution(approved, id, hash);
}

/// Between two calls nothing is left to run: whatever payload is named,
/// to run it is refused.
pub proof fn law_nothing_left_to_run(v: EngineView, id: GroupId, hash: PayloadHash)
    requires
        v.wf(),
    ensures
        v.execution_refusal(id, hash).is_some(),
        !v.ready(id, hash),
{
    if v.has_group(id) && v.group(id).is_pending(hash) {
        let g = v.group(id);
        assert(g.quiescent());
        assert(!g.pending[g.index_of(hash)].ready(g.threshold));
    }
}

/// A payload that was withdrawn waits no more, and did not run.
pub proof fn law_withdrawn_is_gone(g: GroupView, hash: PayloadHash, requester: AccountId)
    requires
        g.wf(),
        g.withdrawal_refusal(hash, requester).is_none(),
    ensures
        !g.without_payload(g.index_of(hash)).is_pending(hash),
        g.without_payload(g.index_of(hash)).execution_refusal(hash) == Some(
            Error::PayloadNotFound,
        ),
{
    lemma_removed_is_gone(g, g.index_of(hash));
}

/// To remove a member never adds an approval to any payload; where the
/// member had approved, the payload has exactly one approval less.
pub proof fn law_removal_drops_approval(g: GroupView, who: AccountId, i: int)
    requires
        g.wf(),
        0 <= i < g.pending.len(),
    ensures
        g.without_member(who).pending[i].approvals.len() <= g.pending[i].approvals.len(),
        g.pending[i].approvals.contains(who) ==> g.without_member(who).pending[i].approvals.len()
            + 1 == g.pending[i].approvals.len(),
        !g.pending[i].approvals.contains(who) ==> g.without_member(who).pending[i].approvals
            == g.pending[i].approvals,
{
    let before = g.pending[i].approvals;
    assert(before.finite());
    if !before.contains(who) {
        assert(before.remove(who) =~= before);
    }
}

/// Before the removal, a payload may have had as many approvals as the
/// threshold asked for; after it, one approval is missing and the payload
/// waits again, unless the threshold came down too.
pub proof fn law_removal_can_unapprove(g: GroupView, who: AccountId, i: int)
    requires
        g.wf(),
        0 <= i < g.pending.len(),
        g.pending[i].approvals.contains(who),
        g.pending[i].approvals.len() == g.threshold,
        g.threshold < g.members.len(),
    ensures
        g.pending[i].ready(g.threshold),
        !g.without_member(who).pending[i].ready(g.without_member(who).threshold),
{
    law_removal_drops_approval(g, who, i);
    assert(g.members.remove(who).len() == g.members.len() - 1) by {
        assert(g.pending[i].approvals.subset_of(g.members));
    }
}

/// To approve and then to take the approval back leaves the group as it was.
pub proof fn law_approve_unapprove_round_trip(g: GroupView, hash: PayloadHash, member: AccountId)
    requires
        g.wf(),
        g.approval_refusal(hash, member).is_none(),
    ensures
        g.with_approval(g.index_of(hash), member).unapproval_refusal(hash, member).is_none(),
        g.with_approval(g.index_of(hash), member).index_of(hash) == g.index_of(hash),
        g.with_approval(g.index_of(hash), member).without_approval(g.index_of(hash), member) == g,
{
    let i = g.index_of(hash);
    let approved = g.with_approval(i, member);
    lemma_approved_wf(g, i, member);
    assert(approved.pending[i].hash == hash);
    lemma_index_of(approved, i);
    let back = approved.without_approval(i, member);
    assert(g.pending[i].approvals.insert(member).remove(member) =~= g.pending[i].approvals);
    assert(back.pending =~= g.pending);
}

/// The same of the engine, where the approval was not the one that made
/// the payload run: the groups and the book are as they were, and only the
/// two notifications tell that anything happened.
pub proof fn law_engine_round_trip(v: EngineView, caller: AccountId, id: GroupId, hash: PayloadHash)
    requires
        v.inv(),
        v.approval_refusal(caller, id, hash).is_none(),
    ensures
        v.approved(caller, id, hash).unapproval_refusal(caller, id, hash).is_none(),
        v.approved(caller, id, hash).unapproved(caller, id, hash).groups == v.groups,
        v.approved(caller, id, hash).unapproved(caller, id, hash).book == v.book,
{
    law_approve_unapprove_round_trip(v.group(id), hash, caller);
    let approved = v.approved(caller, id, hash);
    assert(approved.unapproved(caller, id, hash).groups =~= v.groups);
}

/// What a group holds in reserve changes with the payloads that come and
/// go, by exactly their deposits, and with nothing else.
pub proof fn law_held_follows_payloads(g: GroupView, payload: PayloadView, i: int, who: AccountId)
    requires
        0 <= i < g.pending.len(),
    ensures
        g.with_payload(payload).held() == g.held() + payload.deposit,
        g.without_payload(i).held() + g.pending[i].deposit == g.held(),
        g.executed_at(i).held() + g.pending[i].deposit == g.held(),
        g.with_approval(i, who).held() == g.held(),
        g.without_approval(i, who).held() == g.held(),
        g.with_member(who).held() == g.held(),
        g.without_member(who).held() == g.held(),
{
    lemma_sum_push(g.pending, payload);
    lemma_sum_remove(g.pending, i);
    lemma_sum_same_deposits(g.with_approval(i, who).pending, g.pending);
    lemma_sum_same_deposits(g.without_approval(i, who).pending, g.pending);
    lemma_sum_same_deposits(g.without_member(who).pending, g.pending);
}

/// When the payloads with enough approvals run, what the group holds in
/// reserve goes down by exactly their deposits.
pub proof fn law_held_after_settling(g: GroupView)
    ensures
        g.settled().held() + sum_deposits(g.ready_now()) == g.held(),
{
    lemma_sum_split(g.pending, g.threshold);
}

/// A submission locks exactly the deposit: the submitter's reserved funds
/// and what the group holds grow by the same amount.
pub proof fn law_submission_reserves_deposit(
    v: EngineView,
    caller: AccountId,
    id: GroupId,
    bytes: Seq<u8>,
)
    requires
        v.inv(),
        v.submission_refusal(caller, id, bytes).is_none(),
        funds_of(v.book, caller).free >= v.deposit(bytes),
    ensures
        v.submitted(caller, id, bytes).group(id).held() == v.group(id).held() + v.deposit(bytes),
        funds_of(v.submitted(caller, id, bytes).book, caller).reserved == funds_of(
            v.book,
            caller,
        ).reserved + v.deposit(bytes),
        funds_of(v.submitted(caller, id, bytes).book, caller).free + v.deposit(bytes) == funds_of(
            v.book,
            caller,
        ).free,
{
    let g = v.group(id);
    let stored = v.submitted(caller, id, bytes).group(id).pending.last();
    lemma_sum_push(g.pending, stored);
    assert(v.submitted(caller, id, bytes).group(id).pending =~= g.pending.push(stored));
}

/// Conservation: at every step, what the ledger holds in reserve for an
/// account covers the deposits of all the waiting payloads that the account
/// submitted; and within a group, no single payload's deposit exceeds what
/// the group holds.
pub proof fn law_deposits_are_in_reserve(v: EngineView, id: GroupId, hash: PayloadHash)
    requires
        v.inv(),
        v.has_group(id),
        v.group(id).is_pending(hash),
    ensures
        funds_of(v.book, v.group(id).payload(hash).submitter).reserved >= owed(
            v.groups,
            v.group(id).payload(hash).submitter,
        ),
        owed(v.groups, v.group(id).payload(hash).submitter) >= v.group(id).payload(hash).deposit,
        v.group(id).held() >= v.group(id).payload(hash).deposit,
{
    let g = v.group(id);
    let i = g.index_of(hash);
    let p = g.pending[i];
    lemma_owed_covers_group(v.groups, id.0 as int, p.submitter);
    crate::model::lemma_owed_covers(g.pending, i, p.submitter);
    lemma_sum_remove(g.pending, i);
}

/// A payload that runs or is withdrawn gets its whole deposit back: the
/// submitter's reserved funds go down by the deposit and the free funds go
/// up by it, and the deposits of all other payloads stay in reserve.
pub proof fn law_deposit_goes_back_in_full(v: EngineView, id: GroupId, hash: PayloadHash)
    requires
        v.inv(),
        v.has_group(id),
        v.group(id).is_pending(hash),
    ensures
        v.ran(id, hash).book == v.withdrawn(id, hash).book,
        funds_of(v.ran(id, hash).book, v.group(id).payload(hash).submitter).reserved + v.group(
            id,
        ).payload(hash).deposit == funds_of(v.book, v.group(id).payload(hash).submitter).reserved,
        funds_of(v.ran(id, hash).book, v.group(id).payload(hash).submitter).free == funds_of(
            v.book,
            v.group(id).payload(hash).submitter,
        ).free + v.group(id).payload(hash).deposit,
        v.ran(id, hash).backed(),
        v.withdrawn(id, hash).backed(),
        v.ran(id, hash).group(id).held() + v.group(id).payload(hash).deposit == v.group(id).held(),
        v.withdrawn(id, hash).group(id).held() + v.group(id).payload(hash).deposit == v.group(
            id,
        ).held(),
{
    let g = v.group(id);
    let i = g.index_of(hash);
    v.lemma_backed_removed(id, i);
    lemma_sum_remove(g.pending, i);
}

/// Conservation, step by step: no step of the engine changes what an
/// account has in reserve beyond its deposits. A submission adds the
/// deposit to both sides; a withdrawal and a run take it from both; an
/// approval and its taking back, a change of the members or of the
/// threshold, and a transfer of free funds touch neither. So on a ledger
/// that held nothing in reserve when the engine was made, the reserved
/// funds of every account are at every moment exactly the deposits of its
/// waiting payloads.
pub proof fn law_reserve_follows_deposits(
    v: EngineView,
    caller: AccountId,
    id: GroupId,
    bytes: Seq<u8>,
    hash: PayloadHash,
    threshold: nat,
    amount: nat,
    who: AccountId,
)
    requires
        v.inv(),
        v.has_group(id),
    ensures
        surplus(v, who) >= 0,
        surplus(v.submitted(caller, id, bytes), who) == surplus(v, who),
        surplus(v.settled(id), who) == surplus(v, who),
        surplus(v.with_group(id, v.group(id).with_member(caller)), who) == surplus(v, who),
        surplus(v.with_group(id, v.group(id).without_member(caller)), who) == surplus(v, who),
        surplus(v.with_group(id, v.group(id).with_threshold(threshold)), who) == surplus(v, who),
        surplus(v.with_book(book_transfer(v.book, v.group(id).account, caller, amount)), who)
            == surplus(v, who),
        v.group(id).is_pending(hash) ==> {
            &&& surplus(v.withdrawn(id, hash), who) == surplus(v, who)
            &&& surplus(v.ran(id, hash), who) == surplus(v, who)
            &&& surplus(v.approved(caller, id, hash), who) == surplus(v, who)
            &&& surplus(v.unapproved(caller, id, hash), who) == surplus(v, who)
        },
{
    let g = v.group(id);
    let at = id.0 as int;
    assert(funds_of(v.book, who).reserved >= owed(v.groups, who));
    // A submission.
    let stored = v.submitted(caller, id, bytes).group(id);
    lemma_owed_update(v.groups, at, stored, who);
    crate::model::lemma_owed_push(g.pending, stored.pending.last(), who);
    assert(stored.pending =~= g.pending.push(stored.pending.last()));
    assert(v.submitted(caller, id, bytes).groups == v.groups.update(at, stored));
    // The payloads that have enough approvals run.
    v.lemma_backed_settled(id);
    lemma_owed_update(v.groups, at, g.settled(), who);
    crate::model::lemma_owed_split(g.pending, g.threshold, who);
    // The members or the threshold change.
    lemma_owed_update(v.groups, at, g.with_member(caller), who);
    lemma_owed_update(v.groups, at, g.without_member(caller), who);
    crate::model::lemma_owed_same(g.without_member(caller).pending, g.pending, who);
    lemma_owed_update(v.groups, at, g.with_threshold(threshold), who);
    if g.is_pending(hash) {
        let i = g.index_of(hash);
        v.lemma_backed_removed(id, i);
        crate::model::lemma_owed_remove(g.pending, i, who);
        lemma_owed_update(v.groups, at, g.without_payload(i), who);
        lemma_owed_update(v.groups, at, g.executed_at(i), who);
        lemma_owed_update(v.groups, at, g.with_approval(i, caller), who);
        crate::model::lemma_owed_same(g.with_approval(i, caller).pending, g.pending, who);
        lemma_owed_update(v.groups, at, g.without_approval(i, caller), who);
        crate::model::lemma_owed_same(g.without_approval(i, caller).pending, g.pending, who);
    }
}

/// When a change of the members or of the threshold lets payloads run, each
/// of them gets its whole deposit back, and what the group holds goes down
/// by their deposits.
pub proof fn law_settling_conserves(v: EngineView, id: GroupId, who: AccountId)
    requires
        v.inv(),
        v.has_group(id),
    ensures
        v.settled(id).backed(),
        funds_of(v.settled(id).book, who).reserved + crate::model::owed_in(
            v.group(id).ready_now(),
            who,
        ) == funds_of(v.book, who).reserved,
        v.settled(id).group(id).held() + sum_deposits(v.group(id).ready_now()) == v.group(
            id,
        ).held(),
        v.settled(id).group(id).quiescent(),
{
    v.lemma_backed_settled(id);
    law_held_after_settling(v.group(id));
    let g = v.group(id);
    assert forall|k: int| 0 <= k < g.settled().pending.len() implies !(
    #[trigger] g.settled().pending[k]).ready(g.settled().threshold) by {
        g.pending.lemma_filter_pred(is_waiting(g.threshold), k);
    }
}

/// Two groups of one engine never control the same account.
pub proof fn law_group_accounts_differ(v: EngineView, a: GroupId, b: GroupId)
    requires
        v.inv(),
        v.has_group(a),
        v.has_group(b),
        a != b,
    ensures
        v.group(a).account != v.group(b).account,
{
    if v.group(a).account == v.group(b).account {
        assert(v.groups[a.0 as int].account.raw@ == crate::accounts::sub_account_bytes(
            v.seed,
            a.0,
        ));
        assert(v.groups[b.0 as int].account.raw@ == crate::accounts::sub_account_bytes(
            v.seed,
            b.0,
        ));
        crate::accounts::lemma_group_accounts_distinct(v.seed, a.0, b.0);
    }
}

/// A payload that left the store is not found under its hash again.
proof fn lemma_removed_is_gone(g: GroupView, i: int)
    requires
        g.wf(),
        0 <= i < g.pending.len(),
    ensures
        !g.without_payload(i).is_pending(g.pending[i].hash),
        !g.executed_at(i).is_pending(g.pending[i].hash),
        g.index_of(g.pending[i].hash) == i,
{
    lemma_index_of(g, i);
    let rest = g.pending.remove(i);
    assert forall|k: int| 0 <= k < rest.len() implies rest[k].hash != g.pending[i].hash by {
        let k0 = if k < i { k } else { k + 1 };
        assert(rest[k] == g.pending[k0]);
        if k0 < i {
            assert(g.pending[k0].hash != g.pending[i].hash);
        } else {
            assert(g.pending[i].hash != g.pending[k0].hash);
        }
    }
}

/// A group stays well formed when one of its payloads runs.
proof fn lemma_executed_at_wf(g: GroupView, i: int)
    requires
        g.wf(),
        0 <= i < g.pending.len(),
    ensures
        g.executed_at(i).wf(),
{
    let after = g.executed_at(i);
    lemma_removed_is_gone(g, i);
    assert forall|a: int, b: int| 0 <= a < b < after.pending.len() implies after.pending[a].hash
        != after.pending[b].hash by {
        let a0 = if a < i { a } else { a + 1 };
        let b0 = if b < i { b } else { b + 1 };
        assert(g.pending[a0].hash != g.pending[b0].hash);
    }
    assert forall|a: int| 0 <= a < after.pending.len() implies {
        &&& (#[trigger] after.pending[a]).approvals.finite()
        &&& after.pending[a].approvals.subset_of(after.members)
        &&& !after.executed.contains(after.pending[a].hash)
        &&& crate::hashing::payload_hash(after.pending[a].bytes, after.pending[a].hash)
        &&& after.pending[a].deposit <= u64::MAX
    } by {
        let a0 = if a < i { a } else { a + 1 };
        assert(after.pending[a] == g.pending[a0]);
        assert(g.is_pending(after.pending[a].hash)) by {
            assert(g.pending[a0].hash == after.pending[a].hash);
        }
        if after.pending[a].hash == g.pending[i].hash {
            assert(after.is_pending(g.pending[i].hash));
        }
    }
}

/// A group stays well formed when a member approves a payload.
proof fn lemma_approved_wf(g: GroupView, i: int, member: AccountId)
    requires
        g.wf(),
        0 <= i < g.pending.len(),
        g.members.contains(member),
    ensures
        g.with_approval(i, member).wf(),
{
    let after = g.with_approval(i, member);
    assert forall|a: int, b: int| 0 <= a < b < after.pending.len() implies after.pending[a].hash
        != after.pending[b].hash by {
        assert(g.pending[a].hash != g.pending[b].hash);
    }
    assert forall|a: int| 0 <= a < after.pending.len() implies {
        &&& (#[trigger] after.pending[a]).approvals.finite()
        &&& after.pending[a].approvals.subset_of(after.members)
        &&& !after.executed.contains(after.pending[a].hash)
        &&& crate::hashing::payload_hash(after.pending[a].bytes, after.pending[a].hash)
        &&& after.pending[a].deposit <= u64::MAX
    } by {
        assert(g.pending[a].approvals.subset_of(g.members));
    }
}

/// The deposits of the payloads that run and of those that wait add up to
/// the deposits of all.
proof fn lemma_sum_split(pending: Seq<PayloadView>, threshold: nat)
    ensures
        sum_deposits(pending.filter(is_waiting(threshold))) + sum_deposits(
            pending.filter(is_ready(threshold)),
        ) == sum_deposits(pending),
    decreases pending.len(),
{
    reveal(Seq::filter);
    if pending.len() > 0 {
        let rest = pending.drop_last();
        let last = pending.last();
        lemma_sum_split(rest, threshold);
        assert(pending =~= rest.push(last));
        rest.lemma_filter_push(last, is_waiting(threshold));
        rest.lemma_filter_push(last, is_ready(threshold));
        if last.ready(threshold) {
            lemma_sum_push(rest.filter(is_ready(threshold)), last);
        } else {
            lemma_sum_push(rest.filter(is_waiting(threshold)), last);
        }
    }
}

} // verus!
