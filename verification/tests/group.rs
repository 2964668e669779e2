use supersig::group::Group;
use supersig::hashing::hash_payload;
use supersig::ident::{AccountId, Error};

fn member(tag: u8) -> AccountId {
    AccountId { raw: [tag; 32] }
}

fn group_of(count: u8, threshold: u32) -> Group {
    let founders: Vec<AccountId> = (1..=count).map(member).collect();
    Group::new(member(0xee), &founders, threshold).unwrap()
}

#[test]
fn group_threshold_must_be_between_one_and_the_member_count() {
    let founders = vec![member(1), member(2), member(3)];
    assert_eq!(Group::new(member(0), &founders, 0).unwrap_err(), Error::InvalidThreshold);
    assert_eq!(Group::new(member(0), &founders, 4).unwrap_err(), Error::InvalidThreshold);
    assert_eq!(Group::new(member(0), &Vec::new(), 1).unwrap_err(), Error::InvalidThreshold);
    for threshold in 1..=3 {
        let group = Group::new(member(0), &founders, threshold).unwrap();
        assert_eq!(group.threshold(), threshold);
        assert_eq!(group.member_count(), 3);
        assert_eq!(group.account(), member(0));
        assert_eq!(group.pending_count(), 0);
        assert_eq!(group.held(), 0);
    }
}

#[test]
fn group_stores_a_payload_under_its_hash() {
    let mut group = group_of(3, 2);
    let bytes = b"operation".to_vec();
    assert_eq!(group.check_submission(&member(1), &bytes), Ok(hash_payload(&bytes)));
    assert_eq!(group.check_submission(&member(9), &bytes), Err(Error::NotAMember));
    let hash = group.submit(member(1), bytes.clone(), 77).unwrap();
    assert_eq!(hash, hash_payload(&bytes));
    assert!(group.is_pending(&hash));
    assert_eq!(group.approval_count(&hash), Some(0));
    assert_eq!(group.held(), 77);
    assert_eq!(group.submit(member(2), bytes.clone(), 5), Err(Error::DuplicatePayload));
    assert_eq!(group.check_submission(&member(2), &bytes), Err(Error::DuplicatePayload));
    assert_eq!(group.submit(member(9), b"other".to_vec(), 5), Err(Error::NotAMember));
    assert_eq!(group.pending_count(), 1);
    assert_eq!(group.held(), 77);
    assert_eq!(group.approval_count(&hash_payload(&b"other".to_vec())), None);
}

#[test]
fn group_payload_runs_once() {
    let mut group = group_of(3, 2);
    let hash = group.submit(member(1), b"once".to_vec(), 10).unwrap();
    assert_eq!(group.try_execute(&hash).unwrap_err(), Error::ThresholdNotMet);
    assert_eq!(group.approve(&hash, &member(1)), Ok(false));
    assert_eq!(group.try_execute(&hash).unwrap_err(), Error::ThresholdNotMet);
    assert_eq!(group.approve(&hash, &member(3)), Ok(true));
    // Approved, and still stored until it runs.
    assert!(group.is_pending(&hash));
    assert_eq!(group.held(), 10);

    let payload = group.try_execute(&hash).unwrap();
    assert_eq!(payload.bytes, b"once".to_vec());
    assert_eq!(payload.submitter, member(1));
    assert_eq!(payload.deposit, 10);
    assert_eq!(payload.approvals, vec![member(1), member(3)]);
    assert!(!group.is_pending(&hash));
    assert!(group.has_executed(&hash));
    assert_eq!(group.held(), 0);

    assert_eq!(group.try_execute(&hash).unwrap_err(), Error::AlreadyExecuted);
    assert_eq!(group.unapprove(&hash, &member(1)), Err(Error::AlreadyExecuted));
    assert_eq!(group.approve(&hash, &member(2)), Err(Error::PayloadNotFound));
    assert!(group.purge_on_execution(&hash).is_none());
    assert!(group.has_executed(&hash));
}

#[test]
fn group_purge_is_safe_to_repeat() {
    let mut group = group_of(2, 2);
    let hash = group.submit(member(1), b"purge".to_vec(), 3).unwrap();
    let purged = group.purge_on_execution(&hash).unwrap();
    assert_eq!(purged.hash, hash);
    assert_eq!(group.pending_count(), 0);
    assert!(group.has_executed(&hash));
    assert!(group.purge_on_execution(&hash).is_none());
    assert!(group.purge_on_execution(&hash).is_none());
    assert_eq!(group.pending_count(), 0);
    assert_eq!(group.held(), 0);
}

#[test]
fn group_removal_pulls_an_approved_payload_below_the_threshold() {
    let mut group = group_of(4, 2);
    let hash = group.submit(member(1), b"flip".to_vec(), 1).unwrap();
    assert_eq!(group.approve(&hash, &member(1)), Ok(false));
    assert_eq!(group.approve(&hash, &member(2)), Ok(true));
    assert_eq!(group.approval_count(&hash), Some(2));

    assert_eq!(group.remove_member(&member(2)), Ok(()));
    assert_eq!(group.approval_count(&hash), Some(1));
    assert_eq!(group.threshold(), 2);
    assert_eq!(group.member_count(), 3);
    assert_eq!(group.try_execute(&hash).unwrap_err(), Error::ThresholdNotMet);
    assert!(group.take_ready().is_empty());

    // The removal of a member who had not approved never adds an approval.
    assert_eq!(group.remove_member(&member(4)), Ok(()));
    assert_eq!(group.approval_count(&hash), Some(1));
    assert_eq!(group.remove_member(&member(4)), Err(Error::NotAMember));
}

#[test]
fn group_threshold_comes_down_with_the_members() {
    let mut group = group_of(3, 3);
    assert_eq!(group.remove_member(&member(3)), Ok(()));
    assert_eq!(group.threshold(), 2);
    assert_eq!(group.remove_member(&member(2)), Ok(()));
    assert_eq!(group.threshold(), 1);
    assert_eq!(group.remove_member(&member(1)), Err(Error::LastMemberRemoval));
    assert_eq!(group.member_count(), 1);
    assert_eq!(group.threshold(), 1);
}

#[test]
fn group_take_ready_hands_out_the_approved_payloads_oldest_first() {
    let mut group = group_of(3, 2);
    let a = group.submit(member(1), b"a".to_vec(), 1).unwrap();
    let b = group.submit(member(1), b"b".to_vec(), 2).unwrap();
    let c = group.submit(member(2), b"c".to_vec(), 4).unwrap();
    let d = group.submit(member(3), b"d".to_vec(), 8).unwrap();
    for hash in [&d, &a, &c] {
        group.approve(hash, &member(1)).unwrap();
    }
    for hash in [&c, &a] {
        group.approve(hash, &member(2)).unwrap();
    }
    let run = group.take_ready();
    let hashes: Vec<_> = run.iter().map(|p| p.hash).collect();
    assert_eq!(hashes, vec![a, c]);
    assert_eq!(group.pending_count(), 2);
    assert!(group.is_pending(&b));
    assert!(group.is_pending(&d));
    assert!(group.has_executed(&a));
    assert!(group.has_executed(&c));
    assert!(!group.has_executed(&d));
    assert_eq!(group.held(), 10);
    assert!(group.take_ready().is_empty());

    assert_eq!(group.set_threshold(1), Ok(()));
    let run = group.take_ready();
    assert_eq!(run.len(), 1);
    assert_eq!(run[0].hash, d);
    assert_eq!(group.held(), 2);
}

#[test]
fn group_withdraw_is_for_the_submitter() {
    let mut group = group_of(2, 1);
    let hash = group.submit(member(2), b"mine".to_vec(), 9).unwrap();
    assert_eq!(group.withdraw(&hash, &member(1)).unwrap_err(), Error::NotSubmitter);
    assert_eq!(group.withdraw(&hash, &member(9)).unwrap_err(), Error::NotSubmitter);
    let payload = group.withdraw(&hash, &member(2)).unwrap();
    assert_eq!(payload.deposit, 9);
    assert!(!group.has_executed(&hash));
    assert_eq!(group.withdraw(&hash, &member(2)).unwrap_err(), Error::PayloadNotFound);
    assert_eq!(group.try_execute(&hash).unwrap_err(), Error::PayloadNotFound);
    assert_eq!(group.unapprove(&hash, &member(2)), Err(Error::PayloadNotFound));
}

#[test]
fn group_add_member_is_idempotent() {
    let mut group = group_of(2, 2);
    assert!(!group.is_member(&member(7)));
    group.add_member(member(7));
    group.add_member(member(7));
    assert!(group.is_member(&member(7)));
    assert_eq!(group.member_count(), 3);
    assert_eq!(group.threshold(), 2);
    assert_eq!(group.set_threshold(3), Ok(()));
    assert_eq!(group.set_threshold(4), Err(Error::ThresholdExceedsMembers));
    assert_eq!(group.set_threshold(0), Err(Error::InvalidThreshold));
    assert_eq!(group.threshold(), 3);
}

#[test]
fn group_lists_its_members_and_its_waiting_payloads() {
    let founders = vec![member(3), member(1), member(3), member(2)];
    let mut group = Group::new(member(0xee), &founders, 2).unwrap();
    assert_eq!(group.members(), vec![member(3), member(1), member(2)]);
    assert!(group.pending_hashes().is_empty());

    let a = group.submit(member(1), b"a".to_vec(), 1).unwrap();
    let b = group.submit(member(2), b"b".to_vec(), 2).unwrap();
    let c = group.submit(member(3), b"c".to_vec(), 3).unwrap();
    assert_eq!(group.pending_hashes(), vec![a, b, c]);
    group.withdraw(&b, &member(2)).unwrap();
    assert_eq!(group.pending_hashes(), vec![a, c]);

    group.approve(&c, &member(2)).unwrap();
    let stored = group.payload(&c).unwrap();
    assert_eq!(stored.bytes, b"c".to_vec());
    assert_eq!(stored.submitter, member(3));
    assert_eq!(stored.deposit, 3);
    assert_eq!(stored.approvals, vec![member(2)]);
    assert!(group.payload(&b).is_none());

    group.remove_member(&member(1)).unwrap();
    assert_eq!(group.members(), vec![member(3), member(2)]);
}
