//! Accounts derived from seeds: a group's dedicated account, and the key
//! pairs of named development users.

use crate::ident::AccountId;
use vstd::bytes::*;
use vstd::prelude::*;
use vstd::string::*;

verus! {

/// The four bytes that open every account derived for a module.
pub open spec fn module_prefix() -> Seq<u8> {
    seq![0x6du8, 0x6fu8, 0x64u8, 0x6cu8]
}

/// The bytes of the account derived from a module's seed and a counter:
/// the prefix, the seed, the counter in little-endian order, then zeros.
pub open spec fn sub_account_bytes(seed: Seq<u8>, counter: u64) -> Seq<u8> {
    module_prefix() + seed + spec_u64_to_le_bytes(counter) + Seq::new(12, |i: int| 0u8)
}

/// Calls `AccountIdConversion::into_sub_account_truncating` of sp_runtime on a
/// `frame_support::PalletId`. Trusted: the account is the encoding of the module
/// prefix `modl`, the eight seed bytes and the counter, filled up with zeros.
#[verifier::external_body]
fn into_sub_account(seed: &[u8; 8], counter: u64) -> (account: [u8; 32])
    ensures
        account@ == sub_account_bytes(seed@, counter),
{
    let id = frame_support::PalletId(*seed);
    let account: sp_core::crypto::AccountId32 =
        sp_runtime::traits::AccountIdConversion::into_sub_account_truncating(&id, counter);
    account.into()
}

/// The account derived from a module's seed and a counter.
pub open spec fn sub_account(seed: Seq<u8>, counter: u64) -> AccountId {
    choose|a: AccountId| a.raw@ == sub_account_bytes(seed, counter)
}

/// The dedicated account of the group with the given counter value.
pub fn group_account(seed: &[u8; 8], counter: u64) -> (account: AccountId)
    ensures
        account.raw@ == sub_account_bytes(seed@, counter),
        account == sub_account(seed@, counter),
{
    let account = AccountId { raw: into_sub_account(seed, counter) };
    proof {
        assert(sub_account(seed@, counter).raw =~= account.raw);
    }
    account
}

/// Two counters never lead to the same account bytes under one seed.
pub proof fn lemma_group_accounts_distinct(seed: Seq<u8>, a: u64, b: u64)
    requires
        seed.len() == 8,
        sub_account_bytes(seed, a) == sub_account_bytes(seed, b),
    ensures
        a == b,
{
    lemma_auto_spec_u64_to_from_le_bytes();
    let la = spec_u64_to_le_bytes(a);
    let lb = spec_u64_to_le_bytes(b);
    assert forall|i: int| 0 <= i < 8 implies la[i] == lb[i] by {
        assert(sub_account_bytes(seed, a)[12 + i] == la[i]);
        assert(sub_account_bytes(seed, b)[12 + i] == lb[i]);
    }
    assert(la =~= lb);
}

/// The public half of an sr25519 key pair.
#[derive(Clone, Copy, Debug)]
pub struct PublicKey {
    pub raw: [u8; 32],
}

/// The sr25519 public key of the key pair that a secret address names,
/// where the address can be read.
pub uninterp spec fn sr25519_public_of(address: Seq<char>) -> Option<Seq<u8>>;

/// Whether the address is two slashes and then a name: a name is not empty
/// and holds no slash.
pub open spec fn names_a_dev_key(address: Seq<char>) -> bool {
    &&& address.len() > 2
    &&& address[0] == '/'
    &&& address[1] == '/'
    &&& !address.skip(2).contains('/')
}

/// Calls `sp_core::Pair::from_string` for sr25519 on the address, without
/// a password, and `public` on the pair. Trusted: the outcome depends on
/// the address alone; an address that cannot be read gives `None`; and an
/// address of two slashes and a name can be read, as one hard step from the
/// development phrase.
#[verifier::external_body]
fn sr25519_public_from_address(address: &str) -> (key: Option<[u8; 32]>)
    ensures
        match key {
            Some(k) => sr25519_public_of(address@) == Some(k@),
            None => sr25519_public_of(address@).is_none(),
        },
        names_a_dev_key(address@) ==> key.is_some(),
{
    match <sp_core::sr25519::Pair as sp_core::Pair>::from_string(address, None) {
        Ok(pair) => Some(sp_core::Pair::public(&pair).0),
        Err(_) => None,
    }
}

/// Calls `IdentifyAccount::into_account` of sp_runtime on the `MultiSigner`
/// made from an sr25519 public key. Trusted: the account holds the key's bytes.
#[verifier::external_body]
fn signer_account(key: &[u8; 32]) -> (account: [u8; 32])
    ensures
        account@ == key@,
{
    let signer = sp_runtime::MultiSigner::from(sp_core::sr25519::Public::from_raw(*key));
    sp_runtime::traits::IdentifyAccount::into_account(signer).into()
}

/// The address of the development key that a seed names: two slashes, then
/// the seed.
pub open spec fn dev_address(seed: Seq<char>) -> Seq<char> {
    "//"@ + seed
}

/// Whether a seed is a name: not empty and without a slash.
pub open spec fn is_name(seed: Seq<char>) -> bool {
    seed.len() > 0 && !seed.contains('/')
}

/// The account of the development key that a seed names, where there is one.
pub open spec fn dev_account(seed: Seq<char>) -> Option<AccountId> {
    match sr25519_public_of(dev_address(seed)) {
        Some(bytes) => if exists|a: AccountId| a.raw@ == bytes {
            Some(choose|a: AccountId| a.raw@ == bytes)
        } else {
            None
        },
        None => None,
    }
}

/// The address of a name is two slashes and a name.
pub proof fn lemma_dev_address(seed: Seq<char>)
    ensures
        dev_address(seed).len() == seed.len() + 2,
        dev_address(seed).skip(2) == seed,
        is_name(seed) ==> names_a_dev_key(dev_address(seed)),
{
    reveal_strlit("//");
    assert("//"@.len() == 2);
    assert(dev_address(seed).skip(2) =~= seed);
}

/// The public key of the development key that a seed names, or `None`
/// where the seed's address cannot be read. A seed that is a name always
/// has a key.
pub fn get_from_seed(seed: &str) -> (key: Option<PublicKey>)
    ensures
        match key {
            Some(k) => sr25519_public_of(dev_address(seed@)) == Some(k.raw@),
            None => sr25519_public_of(dev_address(seed@)).is_none(),
        },
        is_name(seed@) ==> key.is_some(),
{
    let address = String::from_str("//").concat(seed);
    proof {
        lemma_dev_address(seed@);
    }
    match sr25519_public_from_address(address.as_str()) {
        Some(raw) => Some(PublicKey { raw }),
        None => None,
    }
}

/// The account of the development key that a seed names. A seed that is a
/// name always has an account.
pub fn get_account_id_from_seed(seed: &str) -> (account: Option<AccountId>)
    ensures
        account == dev_account(seed@),
        account.is_some() == sr25519_public_of(dev_address(seed@)).is_some(),
        account.is_some() ==> Some(account.unwrap().raw@) == sr25519_public_of(
            dev_address(seed@),
        ),
        is_name(seed@) ==> account.is_some(),
{
    match get_from_seed(seed) {
        Some(key) => {
            let found = AccountId { raw: signer_account(&key.raw) };
            proof {
                let bytes = sr25519_public_of(dev_address(seed@)).unwrap();
                let chosen = choose|a: AccountId| a.raw@ == bytes;
                assert(found.raw@ == bytes);
                assert(chosen.raw =~= found.raw);
            }
            Some(found)
        },
        None => None,
    }
}

/// The development user Alice.
#[allow(non_snake_case)]
pub fn ALICE() -> (account: AccountId)
    ensures
        Some(account) == dev_account("Alice"@),
{
    proof {
        reveal_strlit("Alice");
        assert("Alice"@ =~= seq!['A', 'l', 'i', 'c', 'e']);
        assert(is_name("Alice"@));
    }
    match get_account_id_from_seed("Alice") {
        Some(account) => account,
        None => unreached(),
    }
}

/// The development user Bob.
#[allow(non_snake_case)]
pub fn BOB() -> (account: AccountId)
    ensures
        Some(account) == dev_account("Bob"@),
{
    proof {
        reveal_strlit("Bob");
        assert("Bob"@ =~= seq!['B', 'o', 'b']);
        assert(is_name("Bob"@));
    }
    match get_account_id_from_seed("Bob") {
        Some(account) => account,
        None => unreached(),
    }
}

/// The development user Charlie.
#[allow(non_snake_case)]
pub fn CHARLIE() -> (account: AccountId)
    ensures
        Some(account) == dev_account("Charlie"@),
{
    proof {
        reveal_strlit("Charlie");
        assert("Charlie"@ =~= seq!['C', 'h', 'a', 'r', 'l', 'i', 'e']);
        assert(is_name("Charlie"@));
    }
    match get_account_id_from_seed("Charlie") {
        Some(account) => account,
        None => unreached(),
    }
}

} // verus!
