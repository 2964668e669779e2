use supersig::accounts::{group_account, ALICE, BOB, CHARLIE};
use supersig::balances::{Balances, ExtBuilder};
use supersig::engine::Supersig;
use supersig::hashing::hash_payload;
use supersig::ident::{AccountId, Error, Event, GroupId};

const SEED: [u8; 8] = *b"py/susig";
const BASE: u64 = 5_000;
const RATE: u64 = 1_000;

fn alice() -> AccountId {
    ALICE()
}

fn bob() -> AccountId {
    BOB()
}

fn charlie() -> AccountId {
    CHARLIE()
}

fn stranger() -> AccountId {
    AccountId { raw: [9; 32] }
}

fn engine() -> Supersig<Balances> {
    Supersig::new(SEED, ExtBuilder::default().build(), BASE, RATE, false)
}

fn engine_with_group(threshold: u32) -> (Supersig<Balances>, GroupId) {
    let mut engine = engine();
    let id = engine.create_group(&vec![alice(), bob(), charlie()], threshold).unwrap();
    (engine, id)
}

#[test]
fn create_group_numbers_groups_and_derives_their_accounts() {
    let mut engine = engine();
    let first = engine.create_group(&vec![alice(), bob()], 2).unwrap();
    let second = engine.create_group(&vec![charlie()], 1).unwrap();
    assert_eq!(first, GroupId(0));
    assert_eq!(second, GroupId(1));
    assert_eq!(engine.group_count(), 2);
    assert_eq!(engine.group(first).unwrap().account(), group_account(&SEED, 0));
    assert_eq!(engine.group(second).unwrap().account(), group_account(&SEED, 1));
    assert_eq!(engine.group(first).unwrap().threshold(), 2);
    assert_eq!(engine.group(first).unwrap().member_count(), 2);
    assert!(engine.group(first).unwrap().is_member(&alice()));
    assert!(!engine.group(first).unwrap().is_member(&charlie()));
    assert!(engine.group(GroupId(2)).is_none());
}

#[test]
fn create_group_refuses_a_threshold_of_zero_or_above_the_founders() {
    let mut engine = engine();
    assert_eq!(engine.create_group(&vec![alice(), bob()], 0), Err(Error::InvalidThreshold));
    assert_eq!(engine.create_group(&vec![alice(), bob()], 3), Err(Error::InvalidThreshold));
    assert_eq!(engine.create_group(&Vec::new(), 1), Err(Error::InvalidThreshold));
    assert_eq!(engine.group_count(), 0);
    assert_eq!(engine.create_group(&vec![alice(), bob()], 2), Ok(GroupId(0)));
}

#[test]
fn founders_named_twice_count_once() {
    let mut engine = engine();
    assert_eq!(
        engine.create_group(&vec![alice(), alice(), bob()], 3),
        Err(Error::InvalidThreshold)
    );
    let id = engine.create_group(&vec![alice(), alice(), bob()], 2).unwrap();
    assert_eq!(engine.group(id).unwrap().member_count(), 2);
}

#[test]
fn submit_reserves_the_deposit_and_stores_the_payload() {
    let (mut engine, id) = engine_with_group(2);
    let bytes = b"0123456789".to_vec();
    let hash = engine.submit_payload(&alice(), id, bytes.clone()).unwrap().hash;
    assert_eq!(hash, hash_payload(&bytes));
    assert_eq!(engine.ledger().reserved_balance(&alice()), 15_000);
    assert_eq!(engine.ledger().free_balance(&alice()), 985_000);
    let group = engine.group(id).unwrap();
    assert!(group.is_pending(&hash));
    assert_eq!(group.pending_count(), 1);
    assert_eq!(group.approval_count(&hash), Some(0));
    assert_eq!(group.held(), 15_000);
}

#[test]
fn submit_refusals() {
    let (mut engine, id) = engine_with_group(2);
    assert_eq!(
        engine.submit_payload(&stranger(), id, vec![1, 2, 3]).unwrap_err(),
        Error::NotAMember
    );
    assert_eq!(
        engine.submit_payload(&alice(), GroupId(5), vec![1, 2, 3]).unwrap_err(),
        Error::NotAMember
    );
    // Bob holds 100_000: a payload of 96 bytes costs 101_000.
    assert_eq!(
        engine.submit_payload(&bob(), id, vec![0; 96]).unwrap_err(),
        Error::InsufficientFunds
    );
    assert_eq!(engine.ledger().free_balance(&bob()), 100_000);
    assert_eq!(engine.group(id).unwrap().pending_count(), 0);
    // 95 bytes cost exactly what Bob holds.
    assert!(engine.submit_payload(&bob(), id, vec![0; 95]).is_ok());
    assert_eq!(engine.ledger().free_balance(&bob()), 0);
    assert_eq!(engine.ledger().reserved_balance(&bob()), 100_000);
}

#[test]
fn submit_reports_a_deposit_that_overflows() {
    let mut engine = Supersig::new(SEED, ExtBuilder::default().build(), u64::MAX, 1, false);
    let id = engine.create_group(&vec![alice()], 1).unwrap();
    assert_eq!(
        engine.submit_payload(&alice(), id, vec![7]).unwrap_err(),
        Error::ArithmeticOverflow
    );
    assert_eq!(engine.ledger().reserved_balance(&alice()), 0);
    assert_eq!(engine.group(id).unwrap().pending_count(), 0);
}

#[test]
fn payload_executes_when_the_threshold_is_met() {
    let (mut engine, id) = engine_with_group(2);
    let bytes = b"pay the baker".to_vec();
    let deposit = BASE + RATE * bytes.len() as u64;
    let hash = engine.submit_payload(&alice(), id, bytes.clone()).unwrap().hash;
    assert_eq!(engine.ledger().reserved_balance(&alice()), deposit);

    let first = engine.approve_payload(&alice(), id, &hash).unwrap();
    assert!(first.is_none());
    assert_eq!(engine.group(id).unwrap().approval_count(&hash), Some(1));
    assert_eq!(engine.ledger().reserved_balance(&alice()), deposit);

    let second = engine.approve_payload(&bob(), id, &hash).unwrap();
    let execution = second.expect("two of three approved");
    assert_eq!(execution.group, id);
    assert_eq!(execution.origin, group_account(&SEED, 0));
    assert_eq!(execution.payload.hash, hash);
    assert_eq!(execution.payload.bytes, bytes);
    assert_eq!(execution.payload.submitter, alice());
    assert_eq!(execution.payload.deposit, deposit);
    assert_eq!(execution.payload.approvals, vec![alice(), bob()]);

    assert_eq!(engine.ledger().reserved_balance(&alice()), 0);
    assert_eq!(engine.ledger().free_balance(&alice()), 1_000_000);
    let group = engine.group(id).unwrap();
    assert!(!group.is_pending(&hash));
    assert!(group.has_executed(&hash));
    assert_eq!(group.held(), 0);

    assert_eq!(engine.execute_payload(id, &hash).unwrap_err(), Error::PayloadNotFound);
    assert_eq!(engine.try_execute(id, &hash).unwrap_err(), Error::AlreadyExecuted);
    assert_eq!(
        engine.approve_payload(&charlie(), id, &hash).unwrap_err(),
        Error::PayloadNotFound
    );
    assert_eq!(
        engine.unapprove_payload(&alice(), id, &hash),
        Err(Error::AlreadyExecuted)
    );
    assert_eq!(engine.ledger().free_balance(&alice()), 1_000_000);
}

#[test]
fn removal_takes_the_threshold_down_and_runs_what_is_then_approved() {
    let (mut engine, id) = engine_with_group(3);
    let origin = group_account(&SEED, 0);
    let q = engine.submit_payload(&alice(), id, b"Q".to_vec()).unwrap().hash;
    assert!(engine.approve_payload(&alice(), id, &q).unwrap().is_none());
    assert!(engine.approve_payload(&bob(), id, &q).unwrap().is_none());

    // The removal of Charlie is itself a payload that all three approve.
    let removal = engine.submit_payload(&bob(), id, b"remove charlie".to_vec()).unwrap().hash;
    assert!(engine.approve_payload(&alice(), id, &removal).unwrap().is_none());
    assert!(engine.approve_payload(&bob(), id, &removal).unwrap().is_none());
    let approved = engine.approve_payload(&charlie(), id, &removal).unwrap().unwrap();
    assert_eq!(approved.origin, origin);
    assert_eq!(approved.payload.bytes, b"remove charlie".to_vec());
    assert!(engine.group(id).unwrap().is_pending(&q));

    // The host performs the operation with the group's authority.
    let run = engine.remove_member(&approved.origin, id, &charlie()).unwrap();
    assert_eq!(run.len(), 1);
    assert_eq!(run[0].payload.hash, q);
    assert_eq!(run[0].payload.approvals, vec![alice(), bob()]);
    let group = engine.group(id).unwrap();
    assert_eq!(group.threshold(), 2);
    assert_eq!(group.member_count(), 2);
    assert!(!group.is_member(&charlie()));
    assert!(!group.is_pending(&q));
    assert!(group.has_executed(&q));
    assert_eq!(engine.ledger().reserved_balance(&alice()), 0);
    assert_eq!(engine.ledger().reserved_balance(&bob()), 0);
}

#[test]
fn removal_of_an_approver_takes_the_approval_away() {
    let (mut engine, id) = engine_with_group(2);
    let origin = group_account(&SEED, 0);
    let mut four = engine;
    four.add_member(&origin, id, stranger()).unwrap();
    four.set_threshold(&origin, id, 3).unwrap();
    let hash = four.submit_payload(&alice(), id, b"P".to_vec()).unwrap().hash;
    assert!(four.approve_payload(&alice(), id, &hash).unwrap().is_none());
    assert!(four.approve_payload(&charlie(), id, &hash).unwrap().is_none());
    assert_eq!(four.group(id).unwrap().approval_count(&hash), Some(2));

    let run = four.remove_member(&origin, id, &charlie()).unwrap();
    assert!(run.is_empty());
    let group = four.group(id).unwrap();
    assert_eq!(group.approval_count(&hash), Some(1));
    assert_eq!(group.threshold(), 3);
    assert_eq!(group.member_count(), 3);

    // A member who had not approved leaves: the count stays.
    let run = four.remove_member(&origin, id, &stranger()).unwrap();
    assert!(run.is_empty());
    let group = four.group(id).unwrap();
    assert_eq!(group.approval_count(&hash), Some(1));
    assert_eq!(group.threshold(), 2);
}

#[test]
fn duplicate_is_refused_and_resubmission_after_withdrawal_starts_afresh() {
    let (mut engine, id) = engine_with_group(2);
    let bytes = b"same bytes".to_vec();
    let hash = engine.submit_payload(&alice(), id, bytes.clone()).unwrap().hash;
    assert!(engine.approve_payload(&bob(), id, &hash).unwrap().is_none());
    assert_eq!(
        engine.submit_payload(&alice(), id, bytes.clone()).unwrap_err(),
        Error::DuplicatePayload
    );
    assert_eq!(
        engine.submit_payload(&bob(), id, bytes.clone()).unwrap_err(),
        Error::DuplicatePayload
    );
    assert_eq!(engine.ledger().reserved_balance(&bob()), 0);

    assert_eq!(engine.withdraw_payload(&alice(), id, &hash), Ok(()));
    assert_eq!(engine.ledger().reserved_balance(&alice()), 0);
    assert!(!engine.group(id).unwrap().is_pending(&hash));
    assert!(!engine.group(id).unwrap().has_executed(&hash));

    let again = engine.submit_payload(&bob(), id, bytes.clone()).unwrap().hash;
    assert_eq!(again, hash);
    assert_eq!(engine.group(id).unwrap().approval_count(&hash), Some(0));
    assert_eq!(engine.ledger().reserved_balance(&bob()), 15_000);
    assert!(engine.approve_payload(&bob(), id, &hash).unwrap().is_none());
}

#[test]
fn same_bytes_in_another_group_are_another_payload() {
    let (mut engine, first) = engine_with_group(2);
    let second = engine.create_group(&vec![alice(), bob()], 2).unwrap();
    let bytes = b"shared".to_vec();
    let a = engine.submit_payload(&alice(), first, bytes.clone()).unwrap().hash;
    let b = engine.submit_payload(&alice(), second, bytes.clone()).unwrap().hash;
    assert_eq!(a, b);
    assert_eq!(engine.ledger().reserved_balance(&alice()), 22_000);
    assert_eq!(engine.group(first).unwrap().held(), 11_000);
    assert_eq!(engine.group(second).unwrap().held(), 11_000);
}

#[test]
fn withdraw_refusals() {
    let (mut engine, id) = engine_with_group(2);
    let hash = engine.submit_payload(&alice(), id, b"mine".to_vec()).unwrap().hash;
    assert_eq!(engine.withdraw_payload(&bob(), id, &hash), Err(Error::NotSubmitter));
    assert_eq!(
        engine.withdraw_payload(&alice(), id, &hash_payload(&b"other".to_vec())),
        Err(Error::PayloadNotFound)
    );
    assert_eq!(
        engine.withdraw_payload(&alice(), GroupId(3), &hash),
        Err(Error::PayloadNotFound)
    );
    assert_eq!(engine.ledger().reserved_balance(&alice()), 9_000);
    assert_eq!(engine.withdraw_payload(&alice(), id, &hash), Ok(()));
    assert_eq!(engine.withdraw_payload(&alice(), id, &hash), Err(Error::PayloadNotFound));
}

#[test]
fn approve_refusals() {
    let (mut engine, id) = engine_with_group(3);
    let hash = engine.submit_payload(&alice(), id, b"vote".to_vec()).unwrap().hash;
    assert_eq!(
        engine.approve_payload(&stranger(), id, &hash).unwrap_err(),
        Error::NotAMember
    );
    assert_eq!(
        engine.approve_payload(&alice(), GroupId(1), &hash).unwrap_err(),
        Error::NotAMember
    );
    assert_eq!(
        engine
            .approve_payload(&alice(), id, &hash_payload(&b"none".to_vec()))
            .unwrap_err(),
        Error::PayloadNotFound
    );
    assert!(engine.approve_payload(&alice(), id, &hash).unwrap().is_none());
    assert_eq!(
        engine.approve_payload(&alice(), id, &hash).unwrap_err(),
        Error::AlreadyApproved
    );
    assert_eq!(engine.group(id).unwrap().approval_count(&hash), Some(1));
}

#[test]
fn approve_then_unapprove_restores_the_approvals() {
    let (mut engine, id) = engine_with_group(3);
    let hash = engine.submit_payload(&alice(), id, b"round trip".to_vec()).unwrap().hash;
    assert!(engine.approve_payload(&alice(), id, &hash).unwrap().is_none());
    assert!(engine.approve_payload(&bob(), id, &hash).unwrap().is_none());
    assert_eq!(engine.unapprove_payload(&bob(), id, &hash), Ok(()));
    assert_eq!(engine.group(id).unwrap().approval_count(&hash), Some(1));
    assert_eq!(engine.unapprove_payload(&bob(), id, &hash), Err(Error::NotApproved));
    // Bob and Charlie complete the three approvals.
    assert!(engine.approve_payload(&bob(), id, &hash).unwrap().is_none());
    let run = engine.approve_payload(&charlie(), id, &hash).unwrap().unwrap();
    assert_eq!(run.payload.approvals, vec![alice(), bob(), charlie()]);
}

#[test]
fn unapprove_refusals() {
    let (mut engine, id) = engine_with_group(2);
    let hash = engine.submit_payload(&alice(), id, b"undo".to_vec()).unwrap().hash;
    assert_eq!(engine.unapprove_payload(&alice(), id, &hash), Err(Error::NotApproved));
    assert_eq!(engine.unapprove_payload(&stranger(), id, &hash), Err(Error::NotApproved));
    assert_eq!(
        engine.unapprove_payload(&alice(), id, &hash_payload(&b"none".to_vec())),
        Err(Error::PayloadNotFound)
    );
    assert_eq!(
        engine.unapprove_payload(&alice(), GroupId(8), &hash),
        Err(Error::PayloadNotFound)
    );
}

#[test]
fn explicit_execution_needs_the_threshold() {
    let (mut engine, id) = engine_with_group(2);
    let hash = engine.submit_payload(&alice(), id, b"wait".to_vec()).unwrap().hash;
    assert_eq!(engine.execute_payload(id, &hash).unwrap_err(), Error::ThresholdNotMet);
    assert_eq!(engine.try_execute(id, &hash).unwrap_err(), Error::ThresholdNotMet);
    assert!(engine.approve_payload(&alice(), id, &hash).unwrap().is_none());
    assert_eq!(engine.execute_payload(id, &hash).unwrap_err(), Error::ThresholdNotMet);
    let never = hash_payload(&b"never".to_vec());
    assert_eq!(engine.execute_payload(id, &never).unwrap_err(), Error::PayloadNotFound);
    assert_eq!(engine.try_execute(id, &never).unwrap_err(), Error::PayloadNotFound);
    assert_eq!(engine.try_execute(GroupId(4), &hash).unwrap_err(), Error::PayloadNotFound);
    assert!(engine.group(id).unwrap().is_pending(&hash));
    assert_eq!(engine.ledger().reserved_balance(&alice()), 9_000);
}

#[test]
fn membership_changes_pass_only_with_the_groups_authority() {
    let (mut engine, id) = engine_with_group(2);
    let origin = group_account(&SEED, 0);
    assert_eq!(engine.add_member(&alice(), id, stranger()), Err(Error::ThresholdNotMet));
    assert_eq!(
        engine.remove_member(&alice(), id, &bob()).unwrap_err(),
        Error::ThresholdNotMet
    );
    assert_eq!(engine.set_threshold(&bob(), id, 1).unwrap_err(), Error::ThresholdNotMet);
    assert_eq!(
        engine.add_member(&origin, GroupId(1), stranger()),
        Err(Error::ThresholdNotMet)
    );
    assert_eq!(
        engine.transfer_from_group_account(&alice(), id, &bob(), 1),
        Err(Error::ThresholdNotMet)
    );
    let group = engine.group(id).unwrap();
    assert_eq!(group.member_count(), 3);
    assert_eq!(group.threshold(), 2);

    assert_eq!(engine.add_member(&origin, id, stranger()), Ok(()));
    assert_eq!(engine.add_member(&origin, id, stranger()), Ok(()));
    assert_eq!(engine.group(id).unwrap().member_count(), 4);
    assert!(engine.group(id).unwrap().is_member(&stranger()));
}

#[test]
fn remove_member_refusals() {
    let mut engine = engine();
    let id = engine.create_group(&vec![alice()], 1).unwrap();
    let origin = group_account(&SEED, 0);
    assert_eq!(
        engine.remove_member(&origin, id, &bob()).unwrap_err(),
        Error::NotAMember
    );
    assert_eq!(
        engine.remove_member(&origin, id, &alice()).unwrap_err(),
        Error::LastMemberRemoval
    );
    assert_eq!(engine.group(id).unwrap().member_count(), 1);
}

#[test]
fn set_threshold_refusals_and_effect() {
    let (mut engine, id) = engine_with_group(3);
    let origin = group_account(&SEED, 0);
    assert_eq!(engine.set_threshold(&origin, id, 0).unwrap_err(), Error::InvalidThreshold);
    assert_eq!(
        engine.set_threshold(&origin, id, 4).unwrap_err(),
        Error::ThresholdExceedsMembers
    );
    assert_eq!(engine.group(id).unwrap().threshold(), 3);

    let first = engine.submit_payload(&alice(), id, b"first".to_vec()).unwrap().hash;
    let second = engine.submit_payload(&bob(), id, b"second".to_vec()).unwrap().hash;
    let third = engine.submit_payload(&charlie(), id, b"third".to_vec()).unwrap().hash;
    for hash in [&third, &first] {
        assert!(engine.approve_payload(&alice(), id, hash).unwrap().is_none());
        assert!(engine.approve_payload(&bob(), id, hash).unwrap().is_none());
    }
    assert!(engine.approve_payload(&charlie(), id, &second).unwrap().is_none());

    // Two approvals now suffice: the first and the third payload run, oldest first.
    let run = engine.set_threshold(&origin, id, 2).unwrap();
    assert_eq!(run.len(), 2);
    assert_eq!(run[0].payload.hash, first);
    assert_eq!(run[1].payload.hash, third);
    let group = engine.group(id).unwrap();
    assert_eq!(group.threshold(), 2);
    assert_eq!(group.pending_count(), 1);
    assert!(group.is_pending(&second));
    assert_eq!(group.held(), 11_000);
    assert_eq!(engine.ledger().reserved_balance(&alice()), 0);
    assert_eq!(engine.ledger().reserved_balance(&bob()), 11_000);
    assert_eq!(engine.ledger().reserved_balance(&charlie()), 0);
}

#[test]
fn transfer_from_the_group_account() {
    let group_funds = group_account(&SEED, 0);
    let ledger = ExtBuilder::default().balances(vec![(group_funds, 500)]).build();
    let mut engine = Supersig::new(SEED, ledger, BASE, RATE, false);
    let id = engine.create_group(&vec![alice(), bob()], 2).unwrap();
    assert_eq!(
        engine.transfer_from_group_account(&group_funds, id, &bob(), 501),
        Err(Error::InsufficientFunds)
    );
    assert_eq!(engine.transfer_from_group_account(&group_funds, id, &bob(), 200), Ok(()));
    assert_eq!(engine.ledger().free_balance(&group_funds), 300);
    assert_eq!(engine.ledger().free_balance(&bob()), 100_200);
}

#[test]
fn held_funds_are_the_sum_of_the_waiting_deposits() {
    let (mut engine, id) = engine_with_group(2);
    let a = engine.submit_payload(&alice(), id, vec![1]).unwrap().hash;
    let b = engine.submit_payload(&alice(), id, vec![1, 2]).unwrap().hash;
    let c = engine.submit_payload(&bob(), id, vec![1, 2, 3]).unwrap().hash;
    assert_eq!(engine.group(id).unwrap().held(), 6_000 + 7_000 + 8_000);
    assert_eq!(engine.ledger().reserved_balance(&alice()), 13_000);
    assert_eq!(engine.ledger().reserved_balance(&bob()), 8_000);

    engine.withdraw_payload(&alice(), id, &a).unwrap();
    assert_eq!(engine.group(id).unwrap().held(), 15_000);
    engine.approve_payload(&alice(), id, &c).unwrap();
    assert!(engine.approve_payload(&charlie(), id, &c).unwrap().is_some());
    assert_eq!(engine.group(id).unwrap().held(), 7_000);
    assert_eq!(engine.ledger().reserved_balance(&alice()), 7_000);
    assert_eq!(engine.ledger().reserved_balance(&bob()), 0);
    assert!(engine.group(id).unwrap().is_pending(&b));
}

#[test]
fn new_deposit_rules_leave_stored_deposits_alone() {
    let (mut engine, id) = engine_with_group(2);
    let old = engine.submit_payload(&alice(), id, vec![0; 4]).unwrap().hash;
    engine.set_deposit_rules(1, 2);
    assert_eq!(engine.base_deposit(), 1);
    assert_eq!(engine.per_byte_rate(), 2);
    let new = engine.submit_payload(&alice(), id, vec![1; 4]).unwrap().hash;
    assert_eq!(engine.ledger().reserved_balance(&alice()), 9_000 + 9);
    assert_eq!(engine.group(id).unwrap().held(), 9_009);
    engine.withdraw_payload(&alice(), id, &old).unwrap();
    assert_eq!(engine.ledger().reserved_balance(&alice()), 9);
    engine.withdraw_payload(&alice(), id, &new).unwrap();
    assert_eq!(engine.ledger().free_balance(&alice()), 1_000_000);
}

#[test]
fn resubmission_after_execution_runs_again() {
    let mut engine = engine();
    let id = engine.create_group(&vec![alice(), bob()], 1).unwrap();
    let bytes = b"again".to_vec();
    let hash = engine.submit_payload(&alice(), id, bytes.clone()).unwrap().hash;
    assert!(engine.approve_payload(&bob(), id, &hash).unwrap().is_some());
    assert!(engine.group(id).unwrap().has_executed(&hash));
    assert_eq!(engine.submit_payload(&bob(), id, bytes.clone()).unwrap().hash, hash);
    assert!(!engine.group(id).unwrap().has_executed(&hash));
    assert_eq!(engine.group(id).unwrap().approval_count(&hash), Some(0));
    let run = engine.approve_payload(&alice(), id, &hash).unwrap().unwrap();
    assert_eq!(run.payload.submitter, bob());
    assert_eq!(run.payload.approvals, vec![alice()]);
}

#[test]
fn notifications_tell_what_happened_in_order() {
    let (mut engine, id) = engine_with_group(2);
    let origin = group_account(&SEED, 0);
    let hash = engine.submit_payload(&alice(), id, b"tell".to_vec()).unwrap().hash;
    engine.approve_payload(&alice(), id, &hash).unwrap();
    engine.unapprove_payload(&alice(), id, &hash).unwrap();
    engine.approve_payload(&bob(), id, &hash).unwrap();
    engine.approve_payload(&charlie(), id, &hash).unwrap();
    let other = engine.submit_payload(&bob(), id, b"back".to_vec()).unwrap().hash;
    engine.withdraw_payload(&bob(), id, &other).unwrap();
    engine.add_member(&origin, id, stranger()).unwrap();
    assert_eq!(
        engine.events().clone(),
        vec![
            Event::GroupCreated { group: id, account: origin },
            Event::PayloadSubmitted { group: id, hash, submitter: alice(), deposit: 9_000 },
            Event::ApprovalAdded { group: id, hash, member: alice() },
            Event::ApprovalRemoved { group: id, hash, member: alice() },
            Event::ApprovalAdded { group: id, hash, member: bob() },
            Event::ApprovalAdded { group: id, hash, member: charlie() },
            Event::PayloadExecuted { group: id, hash },
            Event::PayloadSubmitted { group: id, hash: other, submitter: bob(), deposit: 9_000 },
            Event::PayloadWithdrawn { group: id, hash: other },
            Event::MemberAdded { group: id, member: stranger() },
        ]
    );
    let taken = engine.take_events();
    assert_eq!(taken.len(), 10);
    assert!(engine.events().is_empty());
}

#[test]
fn refused_calls_tell_nothing() {
    let (mut engine, id) = engine_with_group(2);
    engine.take_events();
    let hash = hash_payload(&b"none".to_vec());
    assert!(engine.submit_payload(&stranger(), id, vec![1]).is_err());
    assert!(engine.approve_payload(&alice(), id, &hash).is_err());
    assert!(engine.unapprove_payload(&alice(), id, &hash).is_err());
    assert!(engine.withdraw_payload(&alice(), id, &hash).is_err());
    assert!(engine.execute_payload(id, &hash).is_err());
    assert!(engine.add_member(&alice(), id, stranger()).is_err());
    assert!(engine.set_threshold(&alice(), id, 1).is_err());
    assert!(engine.remove_member(&alice(), id, &bob()).is_err());
    assert!(engine.create_group(&vec![alice()], 2).is_err());
    assert!(engine.events().is_empty());
}

#[test]
fn membership_change_tells_of_the_payloads_that_it_lets_run() {
    let (mut engine, id) = engine_with_group(3);
    let origin = group_account(&SEED, 0);
    let hash = engine.submit_payload(&alice(), id, b"wait".to_vec()).unwrap().hash;
    engine.approve_payload(&alice(), id, &hash).unwrap();
    engine.approve_payload(&bob(), id, &hash).unwrap();
    engine.take_events();
    let run = engine.set_threshold(&origin, id, 2).unwrap();
    assert_eq!(run.len(), 1);
    assert_eq!(
        engine.take_events(),
        vec![
            Event::ThresholdChanged { group: id, threshold: 2 },
            Event::PayloadExecuted { group: id, hash },
        ]
    );
    let run = engine.remove_member(&origin, id, &charlie()).unwrap();
    assert!(run.is_empty());
    assert_eq!(
        engine.take_events(),
        vec![Event::MemberRemoved { group: id, member: charlie() }]
    );
}

#[test]
fn failed_dispatch_is_reported_and_rolls_nothing_back() {
    let (mut engine, id) = engine_with_group(2);
    let origin = group_account(&SEED, 0);
    // The payload asks for the removal of somebody who is no member.
    let hash = engine.submit_payload(&alice(), id, b"remove a stranger".to_vec()).unwrap().hash;
    engine.approve_payload(&alice(), id, &hash).unwrap();
    let execution = engine.approve_payload(&bob(), id, &hash).unwrap().unwrap();
    assert_eq!(
        engine.report_dispatch(id, &hash_payload(&b"never ran".to_vec()), false),
        Err(Error::PayloadNotFound)
    );
    engine.take_events();

    // The host performs it with the group's authority; the operation fails.
    let outcome = engine.remove_member(&execution.origin, id, &stranger());
    assert_eq!(outcome.unwrap_err(), Error::NotAMember);
    assert_eq!(engine.report_dispatch(id, &hash, false), Ok(()));

    // The failure is reported; the payload stays gone and the deposit stays released.
    assert_eq!(engine.take_events(), vec![Event::DispatchFailed { group: id, hash }]);
    let group = engine.group(id).unwrap();
    assert!(!group.is_pending(&hash));
    assert!(group.has_executed(&hash));
    assert_eq!(group.member_count(), 3);
    assert_eq!(group.threshold(), 2);
    assert_eq!(engine.ledger().reserved_balance(&alice()), 0);
    assert_eq!(engine.ledger().free_balance(&alice()), 1_000_000);
    assert_eq!(engine.execute_payload(id, &hash).unwrap_err(), Error::PayloadNotFound);
    assert_eq!(engine.try_execute(id, &hash).unwrap_err(), Error::AlreadyExecuted);

    // A fresh submission starts the cycle again.
    assert_eq!(engine.submit_payload(&bob(), id, b"remove a stranger".to_vec()).unwrap().hash, hash);
    assert_eq!(engine.group(id).unwrap().approval_count(&hash), Some(0));
    assert_eq!(engine.report_dispatch(id, &hash, true), Err(Error::PayloadNotFound));
}

#[test]
fn successful_dispatch_is_reported() {
    let (mut engine, id) = engine_with_group(1);
    let hash = engine.submit_payload(&alice(), id, b"fine".to_vec()).unwrap().hash;
    assert!(engine.approve_payload(&bob(), id, &hash).unwrap().is_some());
    engine.take_events();
    assert_eq!(engine.report_dispatch(id, &hash, true), Ok(()));
    assert_eq!(engine.report_dispatch(GroupId(9), &hash, true), Err(Error::PayloadNotFound));
    assert_eq!(
        engine.events().clone(),
        vec![Event::DispatchSucceeded { group: id, hash }]
    );
}

fn approving_engine() -> Supersig<Balances> {
    Supersig::new(SEED, ExtBuilder::default().build(), BASE, RATE, true)
}

#[test]
fn submission_counts_as_approval_where_the_engine_says_so() {
    let mut engine = approving_engine();
    assert!(engine.submitter_approves());
    let id = engine.create_group(&vec![alice(), bob(), charlie()], 2).unwrap();
    let submission = engine.submit_payload(&alice(), id, b"mine".to_vec()).unwrap();
    assert!(submission.execution.is_none());
    let hash = submission.hash;
    assert_eq!(engine.group(id).unwrap().approval_count(&hash), Some(1));
    assert_eq!(
        engine.approve_payload(&alice(), id, &hash).unwrap_err(),
        Error::AlreadyApproved
    );
    let run = engine.approve_payload(&bob(), id, &hash).unwrap().unwrap();
    assert_eq!(run.payload.approvals, vec![alice(), bob()]);
    assert_eq!(
        engine.take_events(),
        vec![
            Event::GroupCreated { group: id, account: group_account(&SEED, 0) },
            Event::PayloadSubmitted { group: id, hash, submitter: alice(), deposit: 9_000 },
            Event::ApprovalAdded { group: id, hash, member: alice() },
            Event::ApprovalAdded { group: id, hash, member: bob() },
            Event::PayloadExecuted { group: id, hash },
        ]
    );
}

#[test]
fn submission_runs_at_once_where_one_approval_suffices() {
    let mut engine = approving_engine();
    let id = engine.create_group(&vec![alice(), bob()], 1).unwrap();
    let submission = engine.submit_payload(&bob(), id, b"now".to_vec()).unwrap();
    let run = submission.execution.expect("the submitter's approval is all it takes");
    assert_eq!(run.payload.hash, submission.hash);
    assert_eq!(run.payload.submitter, bob());
    assert_eq!(run.payload.approvals, vec![bob()]);
    assert_eq!(run.origin, group_account(&SEED, 0));
    assert_eq!(engine.ledger().reserved_balance(&bob()), 0);
    assert_eq!(engine.ledger().free_balance(&bob()), 100_000);
    let group = engine.group(id).unwrap();
    assert!(group.has_executed(&submission.hash));
    assert_eq!(group.pending_count(), 0);
    assert_eq!(
        engine.execute_payload(id, &submission.hash).unwrap_err(),
        Error::PayloadNotFound
    );
}

#[test]
fn withdrawal_and_resubmission_start_with_the_submitters_approval_alone() {
    let mut engine = approving_engine();
    let id = engine.create_group(&vec![alice(), bob(), charlie()], 3).unwrap();
    let hash = engine.submit_payload(&alice(), id, b"fresh".to_vec()).unwrap().hash;
    engine.approve_payload(&bob(), id, &hash).unwrap();
    assert_eq!(engine.group(id).unwrap().approval_count(&hash), Some(2));
    engine.withdraw_payload(&alice(), id, &hash).unwrap();
    let again = engine.submit_payload(&charlie(), id, b"fresh".to_vec()).unwrap();
    assert_eq!(again.hash, hash);
    assert_eq!(
        engine.group(id).unwrap().payload(&hash).unwrap().approvals,
        vec![charlie()]
    );
    assert_eq!(engine.unapprove_payload(&charlie(), id, &hash), Ok(()));
    assert_eq!(engine.group(id).unwrap().approval_count(&hash), Some(0));
}

#[test]
fn explicit_approval_is_asked_for_where_the_engine_says_so() {
    let mut engine = engine();
    assert!(!engine.submitter_approves());
    let id = engine.create_group(&vec![alice()], 1).unwrap();
    let submission = engine.submit_payload(&alice(), id, b"wait".to_vec()).unwrap();
    assert!(submission.execution.is_none());
    assert_eq!(engine.group(id).unwrap().approval_count(&submission.hash), Some(0));
    assert!(engine.approve_payload(&alice(), id, &submission.hash).unwrap().is_some());
}

#[test]
fn removal_that_lowers_the_threshold_tells_the_new_threshold() {
    let (mut engine, id) = engine_with_group(3);
    let origin = group_account(&SEED, 0);
    engine.take_events();
    engine.remove_member(&origin, id, &charlie()).unwrap();
    assert_eq!(engine.group(id).unwrap().threshold(), 2);
    assert_eq!(
        engine.take_events(),
        vec![
            Event::MemberRemoved { group: id, member: charlie() },
            Event::ThresholdChanged { group: id, threshold: 2 },
        ]
    );
    // A removal that leaves the threshold alone tells of no threshold.
    engine.add_member(&origin, id, charlie()).unwrap();
    engine.take_events();
    engine.remove_member(&origin, id, &bob()).unwrap();
    assert_eq!(
        engine.take_events(),
        vec![Event::MemberRemoved { group: id, member: bob() }]
    );
}

#[test]
fn lowered_threshold_is_told_before_the_payloads_that_it_lets_run() {
    let (mut engine, id) = engine_with_group(3);
    let origin = group_account(&SEED, 0);
    let hash = engine.submit_payload(&alice(), id, b"Q".to_vec()).unwrap().hash;
    engine.approve_payload(&alice(), id, &hash).unwrap();
    engine.approve_payload(&bob(), id, &hash).unwrap();
    engine.take_events();
    let run = engine.remove_member(&origin, id, &charlie()).unwrap();
    assert_eq!(run.len(), 1);
    assert_eq!(
        engine.take_events(),
        vec![
            Event::MemberRemoved { group: id, member: charlie() },
            Event::ThresholdChanged { group: id, threshold: 2 },
            Event::PayloadExecuted { group: id, hash },
        ]
    );
}

fn owed_to(engine: &Supersig<Balances>, who: &AccountId) -> u64 {
    let mut owed = 0;
    for index in 0..engine.group_count() {
        let group = engine.group(GroupId(index as u64)).unwrap();
        for hash in group.pending_hashes() {
            let payload = group.payload(&hash).unwrap();
            if payload.submitter == *who {
                owed += payload.deposit;
            }
        }
    }
    owed
}

fn assert_conserved(engine: &Supersig<Balances>) {
    for (who, endowed) in [(alice(), 1_000_000), (bob(), 100_000), (charlie(), 100_000)] {
        let reserved = engine.ledger().reserved_balance(&who);
        let free = engine.ledger().free_balance(&who);
        assert_eq!(reserved, owed_to(engine, &who));
        assert_eq!(free + reserved, endowed);
    }
    for index in 0..engine.group_count() {
        let group = engine.group(GroupId(index as u64)).unwrap();
        let mut sum = 0u128;
        for hash in group.pending_hashes() {
            sum += group.payload(&hash).unwrap().deposit as u128;
        }
        assert_eq!(group.held(), sum);
    }
}

fn assert_accounted(engine: &Supersig<Balances>, group: GroupId, hash: &supersig::ident::PayloadHash) {
    let mut submitted = 0;
    let mut resolved = 0;
    for event in engine.events() {
        match event {
            Event::PayloadSubmitted { group: g, hash: h, .. } if *g == group && h == hash => {
                submitted += 1
            }
            Event::PayloadExecuted { group: g, hash: h } if *g == group && h == hash => {
                resolved += 1
            }
            Event::PayloadWithdrawn { group: g, hash: h } if *g == group && h == hash => {
                resolved += 1
            }
            _ => {}
        }
    }
    let waits = engine.group(group).map_or(false, |g| g.is_pending(hash));
    assert_eq!(submitted, resolved + waits as usize);
}

#[test]
fn funds_and_payloads_are_accounted_for_after_every_call_of_a_run() {
    let (mut engine, id) = engine_with_group(2);
    let origin = group_account(&SEED, 0);
    let other = engine.create_group(&vec![bob(), charlie()], 1).unwrap();
    let p = hash_payload(&b"p".to_vec());
    let q = hash_payload(&b"qq".to_vec());
    let check = |engine: &Supersig<Balances>| {
        assert_conserved(engine);
        for group in [id, other, GroupId(7)] {
            assert_accounted(engine, group, &p);
            assert_accounted(engine, group, &q);
        }
    };
    check(&engine);
    engine.submit_payload(&alice(), id, b"p".to_vec()).unwrap();
    check(&engine);
    assert!(engine.submit_payload(&bob(), id, b"p".to_vec()).is_err());
    check(&engine);
    engine.submit_payload(&bob(), other, b"p".to_vec()).unwrap();
    check(&engine);
    engine.submit_payload(&bob(), id, b"qq".to_vec()).unwrap();
    check(&engine);
    engine.approve_payload(&charlie(), id, &p).unwrap();
    check(&engine);
    engine.unapprove_payload(&charlie(), id, &p).unwrap();
    check(&engine);
    engine.withdraw_payload(&alice(), id, &p).unwrap();
    check(&engine);
    assert!(engine.execute_payload(id, &p).is_err());
    check(&engine);
    engine.submit_payload(&charlie(), id, b"p".to_vec()).unwrap();
    check(&engine);
    engine.approve_payload(&alice(), id, &p).unwrap();
    engine.approve_payload(&alice(), id, &q).unwrap();
    check(&engine);
    assert!(engine.approve_payload(&bob(), id, &p).unwrap().is_some());
    check(&engine);
    assert!(engine.approve_payload(&bob(), other, &p).unwrap().is_some());
    check(&engine);
    engine.submit_payload(&alice(), id, b"p".to_vec()).unwrap();
    engine.approve_payload(&alice(), id, &p).unwrap();
    check(&engine);
    let run = engine.set_threshold(&origin, id, 1).unwrap();
    assert_eq!(run.len(), 2);
    check(&engine);
    engine.report_dispatch(id, &p, false).unwrap();
    engine.add_member(&origin, id, stranger()).unwrap();
    engine.remove_member(&origin, id, &alice()).unwrap();
    engine.set_deposit_rules(1, 1);
    engine.submit_payload(&stranger(), id, b"p".to_vec()).unwrap_err();
    engine.submit_payload(&charlie(), id, b"qq".to_vec()).unwrap();
    check(&engine);
    assert_eq!(engine.ledger().reserved_balance(&charlie()), 3);
}

#[test]
fn transfer_moves_funds_and_leaves_the_reserves_alone() {
    let funds = group_account(&SEED, 0);
    let ledger = ExtBuilder::default().balances(vec![(funds, 500)]).build();
    let mut engine = Supersig::new(SEED, ledger, BASE, RATE, false);
    let id = engine.create_group(&vec![alice(), bob()], 2).unwrap();
    engine.submit_payload(&bob(), id, vec![1, 2]).unwrap();
    engine.transfer_from_group_account(&funds, id, &bob(), 120).unwrap();
    assert_eq!(engine.ledger().reserved_balance(&bob()), 7_000);
    assert_eq!(engine.ledger().free_balance(&bob()), 93_000 + 120);
    assert_eq!(engine.ledger().reserved_balance(&funds), 0);
    assert_eq!(engine.ledger().free_balance(&funds), 380);
    // A refused transfer changes no balance.
    assert!(engine.transfer_from_group_account(&funds, id, &bob(), 381).is_err());
    assert_eq!(engine.ledger().free_balance(&funds), 380);
    assert_eq!(engine.ledger().free_balance(&bob()), 93_120);
}
