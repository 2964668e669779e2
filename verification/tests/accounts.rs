use supersig::accounts::{
    get_account_id_from_seed, get_from_seed, group_account, ALICE, BOB, CHARLIE,
};
use supersig::hashing::hash_payload;
use supersig::ident::AccountId;

fn hex(bytes: &[u8]) -> String {
    let mut out = String::new();
    for b in bytes {
        out.push_str(&format!("{:02x}", b));
    }
    out
}

#[test]
fn alice_is_the_well_known_development_account() {
    let alice = ALICE();
    assert_eq!(
        hex(&alice.raw),
        "d43593c715fdd31c61141abd04a99fd6822c8558854ccde39a5684e7a56da27d"
    );
}

#[test]
fn bob_and_charlie_are_the_well_known_development_accounts() {
    let bob = BOB();
    let charlie = CHARLIE();
    assert_eq!(
        hex(&bob.raw),
        "8eaf04151687736326c9fea17e25fc5287613693c912909cb226aa4794f26a48"
    );
    assert_eq!(
        hex(&charlie.raw),
        "90b5ab205c6974c9ea841be688864633dc9ca8a357843eeacf2314649965fe22"
    );
}

#[test]
fn named_users_come_from_their_seeds() {
    assert_eq!(Some(ALICE()), get_account_id_from_seed("Alice"));
    assert_eq!(Some(BOB()), get_account_id_from_seed("Bob"));
    assert_eq!(Some(CHARLIE()), get_account_id_from_seed("Charlie"));
    assert_ne!(ALICE(), BOB());
    assert_ne!(BOB(), CHARLIE());
}

#[test]
fn account_holds_the_bytes_of_the_public_key() {
    let key = get_from_seed("Dave").expect("the seed Dave is a derivation path");
    let account = get_account_id_from_seed("Dave").expect("the seed Dave is a derivation path");
    assert_eq!(key.raw, account.raw);
    assert_ne!(key.raw, [0u8; 32]);
}

#[test]
fn seed_that_is_no_derivation_path_gives_no_key() {
    assert!(get_from_seed("Alice").is_some());
    assert!(get_from_seed("").is_none());
    assert!(get_from_seed("Alice//").is_none());
    assert!(get_account_id_from_seed("").is_none());
}

#[test]
fn group_account_is_prefix_seed_counter_and_zeros() {
    let seed = *b"py/susig";
    let account = group_account(&seed, 0x0102030405060708);
    let mut expected = [0u8; 32];
    expected[..4].copy_from_slice(b"modl");
    expected[4..12].copy_from_slice(b"py/susig");
    expected[12..20].copy_from_slice(&[8, 7, 6, 5, 4, 3, 2, 1]);
    assert_eq!(account, AccountId { raw: expected });
}

#[test]
fn group_accounts_differ_by_counter_and_by_seed() {
    let first = group_account(b"py/susig", 0);
    let second = group_account(b"py/susig", 1);
    let other = group_account(b"py/other", 0);
    assert_ne!(first, second);
    assert_ne!(first, other);
    assert_eq!(first, group_account(b"py/susig", 0));
}

#[test]
fn payload_hash_is_the_blake2_digest() {
    let empty = hash_payload(&Vec::new());
    assert_eq!(
        hex(&empty.raw),
        "0e5751c026e543b2e8ab2eb06099daa1d1e5df47778f7787faab45cdf12fe3a8"
    );
    let abc = hash_payload(&b"abc".to_vec());
    assert_eq!(
        hex(&abc.raw),
        "bddd813c634239723171ef3fee98579b94964e3bb1cb3e427262c8c068d52319"
    );
    assert_ne!(empty, abc);
    assert_eq!(abc, hash_payload(&vec![0x61, 0x62, 0x63]));
}

#[test]
fn seed_is_put_behind_two_slashes() {
    // The key of a seed is the key of one hard step from the development
    // phrase: another step behind it, or none, gives another key or none.
    let alice = get_from_seed("Alice").unwrap();
    let further = get_from_seed("Alice//stash").unwrap();
    let soft = get_from_seed("Alice/soft").unwrap();
    assert_ne!(alice.raw, further.raw);
    assert_ne!(alice.raw, soft.raw);
    assert_ne!(further.raw, soft.raw);
    // Behind a third slash stands a password, not a step.
    let locked = get_from_seed("/Alice").unwrap();
    assert_ne!(alice.raw, locked.raw);
}

#[test]
fn every_name_has_a_key() {
    for name in ["a", "0", "Alice Bob", "x y z", "\u{e9}t\u{e9}", "with\nnewline", "42"] {
        assert!(get_from_seed(name).is_some(), "{:?}", name);
        assert!(get_account_id_from_seed(name).is_some(), "{:?}", name);
    }
}
