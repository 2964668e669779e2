//! A ledger held in memory, and the builder that endows its accounts.

use crate::accounts::{dev_account, ALICE, BOB, CHARLIE};
use crate::deposit::{book_transfer, funds_of, Currency, Funds};
use crate::ident::{AccountId, Balance};
use vstd::prelude::*;

verus! {

/// One account of the ledger in memory.
#[derive(Clone, Copy, Debug)]
pub struct AccountEntry {
    pub who: AccountId,
    pub free: Balance,
    pub reserved: Balance,
}

/// Whether `who` has an entry.
pub open spec fn listed(entries: Seq<AccountEntry>, who: AccountId) -> bool {
    exists|i: int| 0 <= i < entries.len() && entries[i].who == who
}

/// The entry of `who`; an account without one holds nothing.
pub open spec fn entry_of(entries: Seq<AccountEntry>, who: AccountId) -> AccountEntry {
    if listed(entries, who) {
        entries[choose|i: int| 0 <= i < entries.len() && entries[i].who == who]
    } else {
        AccountEntry { who, free: 0, reserved: 0 }
    }
}

/// The funds that the entries give `who`.
pub open spec fn entry_funds(entries: Seq<AccountEntry>, who: AccountId) -> Funds {
    Funds {
        free: entry_of(entries, who).free as nat,
        reserved: entry_of(entries, who).reserved as nat,
    }
}

/// No account has two entries, and no account's funds exceed what a balance holds.
pub open spec fn entries_wf(entries: Seq<AccountEntry>) -> bool {
    &&& forall|i: int, j: int|
        0 <= i < j < entries.len() ==> entries[i].who != entries[j].who
    &&& forall|i: int|
        0 <= i < entries.len() ==> #[trigger] entries[i].free + entries[i].reserved
            <= Balance::MAX
}

/// The book that the entries stand for.
pub open spec fn entries_book(entries: Seq<AccountEntry>) -> Map<AccountId, Funds> {
    Map::total(|who: AccountId| entry_funds(entries, who))
}

proof fn lemma_entry_funds(entries: Seq<AccountEntry>, i: int)
    requires
        entries_wf(entries),
        0 <= i < entries.len(),
    ensures
        listed(entries, entries[i].who),
        entry_of(entries, entries[i].who) == entries[i],
{
    let who = entries[i].who;
    let j = choose|j: int| 0 <= j < entries.len() && entries[j].who == who;
    assert(j == i);
}

/// Replacing one entry's balances changes the funds of its account alone.
proof fn lemma_update_entry(entries: Seq<AccountEntry>, i: int, entry: AccountEntry)
    requires
        entries_wf(entries),
        0 <= i < entries.len(),
        entry.who == entries[i].who,
        entry.free + entry.reserved <= Balance::MAX,
    ensures
        entries_wf(entries.update(i, entry)),
        entries_book(entries.update(i, entry)) == entries_book(entries).insert(
            entry.who,
            Funds { free: entry.free as nat, reserved: entry.reserved as nat },
        ),
{
    let after = entries.update(i, entry);
    assert(entries_wf(after)) by {
        assert forall|a: int, b: int| 0 <= a < b < after.len() implies after[a].who
            != after[b].who by {
            assert(after[a].who == entries[a].who);
            assert(after[b].who == entries[b].who);
        }
    }
    assert forall|who: AccountId| #[trigger]
        entry_funds(after, who) == (if who == entry.who {
            Funds { free: entry.free as nat, reserved: entry.reserved as nat }
        } else {
            entry_funds(entries, who)
        }) by {
        if who == entry.who {
            lemma_entry_funds(after, i);
        } else if listed(entries, who) {
            let j = choose|j: int| 0 <= j < entries.len() && entries[j].who == who;
            assert(after[j] == entries[j]);
            lemma_entry_funds(after, j);
        } else if listed(after, who) {
            let j = choose|j: int| 0 <= j < after.len() && after[j].who == who;
            assert(entries[j].who == who);
        }
    }
    assert(entries_book(after) =~= entries_book(entries).insert(
        entry.who,
        Funds { free: entry.free as nat, reserved: entry.reserved as nat },
    ));
}

/// A new entry gives funds to its account alone.
proof fn lemma_push_entry(entries: Seq<AccountEntry>, entry: AccountEntry)
    requires
        entries_wf(entries),
        !listed(entries, entry.who),
        entry.free + entry.reserved <= Balance::MAX,
    ensures
        entries_wf(entries.push(entry)),
        entries_book(entries.push(entry)) == entries_book(entries).insert(
            entry.who,
            Funds { free: entry.free as nat, reserved: entry.reserved as nat },
        ),
{
    let after = entries.push(entry);
    assert(entries_wf(after)) by {
        assert forall|a: int, b: int| 0 <= a < b < after.len() implies after[a].who
            != after[b].who by {
            if b == entries.len() {
                assert(entries[a].who != entry.who);
            }
        }
    }
    assert forall|who: AccountId| #[trigger]
        entry_funds(after, who) == (if who == entry.who {
            Funds { free: entry.free as nat, reserved: entry.reserved as nat }
        } else {
            entry_funds(entries, who)
        }) by {
        if who == entry.who {
            lemma_entry_funds(after, entries.len() as int);
        } else if listed(entries, who) {
            let j = choose|j: int| 0 <= j < entries.len() && entries[j].who == who;
            assert(after[j] == entries[j]);
            lemma_entry_funds(after, j);
        } else if listed(after, who) {
            let j = choose|j: int| 0 <= j < after.len() && after[j].who == who;
            assert(entries[j].who == who);
        }
    }
    assert(entries_book(after) =~= entries_book(entries).insert(
        entry.who,
        Funds { free: entry.free as nat, reserved: entry.reserved as nat },
    ));
}

/// The book in which every account holds nothing.
pub open spec fn empty_book() -> Map<AccountId, Funds> {
    Map::total(|who: AccountId| Funds { free: 0, reserved: 0 })
}

/// The book after each endowment of the list was written, the first one
/// first: an account named twice keeps the later amount.
pub open spec fn endowed_book(endowed: Seq<(AccountId, Balance)>) -> Map<AccountId, Funds>
    decreases endowed.len(),
{
    if endowed.len() == 0 {
        empty_book()
    } else {
        endowed_book(endowed.drop_last()).insert(
            endowed.last().0,
            Funds { free: endowed.last().1 as nat, reserved: 0 },
        )
    }
}

/// What a development user is endowed with, where the user's account can
/// be derived.
pub open spec fn dev_endowment(seed: Seq<char>, amount: Balance) -> Seq<(AccountId, Balance)> {
    match dev_account(seed) {
        Some(account) => seq![(account, amount)],
        None => Seq::empty(),
    }
}

/// The endowments of a builder that was told nothing: Alice, Bob and Charlie.
pub open spec fn dev_endowments() -> Seq<(AccountId, Balance)> {
    dev_endowment("Alice"@, 1_000_000) + dev_endowment("Bob"@, 100_000) + dev_endowment(
        "Charlie"@,
        100_000,
    )
}

/// A currency ledger kept in memory: each account's free and reserved funds.
pub struct Balances {
    entries: Vec<AccountEntry>,
}

impl Balances {
    /// A ledger on which every account holds nothing.
    pub fn new() -> (ledger: Balances)
        ensures
            ledger.wf(),
            ledger.book() == empty_book(),
    {
        let ledger = Balances { entries: Vec::new() };
        proof {
            assert(ledger.book() =~= empty_book());
        }
        ledger
    }

    /// The ledger's book is the book of its entries.
    proof fn lemma_book(&self)
        ensures
            self.book() == entries_book(self.entries@),
    {
        assert(self.book() =~= entries_book(self.entries@));
    }

    /// Where the entry of `who` stands.
    fn find(&self, who: &AccountId) -> (at: Option<usize>)
        ensures
            match at {
                Some(i) => i < self.entries@.len() && self.entries@[i as int].who == *who,
                None => !listed(self.entries@, *who),
            },
    {
        let mut i: usize = 0;
        while i < self.entries.len()
            invariant
                i <= self.entries@.len(),
                forall|j: int| 0 <= j < i ==> self.entries@[j].who != *who,
            decreases self.entries@.len() - i,
        {
            if self.entries[i].who == *who {
                return Some(i);
            }
            i += 1;
        }
        None
    }

    /// The free funds of `who`.
    pub fn free_balance(&self, who: &AccountId) -> (amount: Balance)
        requires
            self.wf(),
        ensures
            amount as nat == funds_of(self.book(), *who).free,
    {
        proof {
            self.lemma_book();
        }
        match self.find(who) {
            Some(i) => {
                proof {
                    lemma_entry_funds(self.entries@, i as int);
                }
                self.entries[i].free
            },
            None => 0,
        }
    }

    /// The reserved funds of `who`.
    pub fn reserved_balance(&self, who: &AccountId) -> (amount: Balance)
        requires
            self.wf(),
        ensures
            amount as nat == funds_of(self.book(), *who).reserved,
    {
        proof {
            self.lemma_book();
        }
        match self.find(who) {
            Some(i) => {
                proof {
                    lemma_entry_funds(self.entries@, i as int);
                }
                self.entries[i].reserved
            },
            None => 0,
        }
    }

    /// Gives `who` the free funds `amount` and no reserved funds, whatever
    /// the account held before.
    pub fn endow(&mut self, who: AccountId, amount: Balance)
        requires
            old(self).wf(),
        ensures
            final(self).wf(),
            final(self).book() == old(self).book().insert(
                who,
                Funds { free: amount as nat, reserved: 0 },
            ),
    {
        proof {
            self.lemma_book();
        }
        self.endow_entry(AccountEntry { who, free: amount, reserved: 0 });
        proof {
            self.lemma_book();
        }
    }
}

impl Currency for Balances {
    closed spec fn wf(&self) -> bool {
        entries_wf(self.entries@)
    }

    closed spec fn free(&self, who: AccountId) -> Balance {
        entry_of(self.entries@, who).free
    }

    closed spec fn reserved(&self, who: AccountId) -> Balance {
        entry_of(self.entries@, who).reserved
    }

    open spec fn can_reserve(&self, who: AccountId, amount: Balance) -> bool {
        funds_of(self.book(), who).free >= amount
    }

    open spec fn can_transfer(&self, from: AccountId, to: AccountId, amount: Balance) -> bool {
        &&& funds_of(self.book(), from).free >= amount
        &&& from == to || funds_of(self.book(), to).free + funds_of(self.book(), to).reserved
            + amount <= Balance::MAX
    }

    fn reserve(&mut self, who: &AccountId, amount: Balance) -> (ok: bool) {
        proof {
            self.lemma_book();
        }
        let held = self.entry(who);
        let ok = held.free >= amount;
        if ok {
            self.endow_entry(
                AccountEntry {
                    who: *who,
                    free: held.free - amount,
                    reserved: held.reserved + amount,
                },
            );
        }
        proof {
            self.lemma_book();
        }
        ok
    }

    fn unreserve(&mut self, who: &AccountId, amount: Balance) -> (missing: Balance) {
        proof {
            self.lemma_book();
        }
        let held = self.entry(who);
        let moved: Balance = if amount <= held.reserved {
            amount
        } else {
            held.reserved
        };
        self.endow_entry(
            AccountEntry { who: *who, free: held.free + moved, reserved: held.reserved - moved },
        );
        proof {
            self.lemma_book();
        }
        amount - moved
    }

    fn transfer(&mut self, from: &AccountId, to: &AccountId, amount: Balance) -> (ok: bool) {
        proof {
            self.lemma_book();
        }
        let ghost before = self.book();
        let source = self.entry(from);
        let target = self.entry(to);
        if source.free < amount {
            return false;
        }
        if *from == *to {
            proof {
                assert(book_transfer(before, *from, *to, amount as nat) =~= before);
            }
            return true;
        }
        if amount > Balance::MAX - target.free || target.reserved > Balance::MAX - target.free
            - amount {
            return false;
        }
        self.endow_entry(
            AccountEntry { who: *from, free: source.free - amount, reserved: source.reserved },
        );
        self.endow_entry(
            AccountEntry { who: *to, free: target.free + amount, reserved: target.reserved },
        );
        proof {
            self.lemma_book();
        }
        true
    }
}

impl Balances {
    /// The balances of `who`.
    fn entry(&self, who: &AccountId) -> (held: AccountEntry)
        requires
            entries_wf(self.entries@),
        ensures
            held == entry_of(self.entries@, *who),
            held.who == *who,
            held.free + held.reserved <= Balance::MAX,
    {
        match self.find(who) {
            Some(i) => {
                proof {
                    lemma_entry_funds(self.entries@, i as int);
                }
                self.entries[i]
            },
            None => AccountEntry { who: *who, free: 0, reserved: 0 },
        }
    }

    /// Writes one account's balances.
    fn endow_entry(&mut self, entry: AccountEntry)
        requires
            entries_wf(old(self).entries@),
            entry.free + entry.reserved <= Balance::MAX,
        ensures
            entries_wf(final(self).entries@),
            entries_book(final(self).entries@) == entries_book(old(self).entries@).insert(
                entry.who,
                Funds { free: entry.free as nat, reserved: entry.reserved as nat },
            ),
    {
        match self.find(&entry.who) {
            Some(i) => {
                proof {
                    lemma_update_entry(self.entries@, i as int, entry);
                }
                self.entries[i] = entry;
            },
            None => {
                proof {
                    lemma_push_entry(self.entries@, entry);
                }
                self.entries.push(entry);
            },
        }
    }
}

/// Collects the accounts that a ledger starts with, and builds the ledger.
pub struct ExtBuilder {
    caps_endowed_accounts: Vec<(AccountId, Balance)>,
}

impl Default for ExtBuilder {
    /// A builder that endows the three development users.
    fn default() -> (builder: ExtBuilder)
        ensures
            builder.endowed() == dev_endowments(),
            builder.endowed().len() == 3,
    {
        let mut endowed: Vec<(AccountId, Balance)> = Vec::new();
        endowed.push((ALICE(), 1_000_000));
        endowed.push((BOB(), 100_000));
        endowed.push((CHARLIE(), 100_000));
        proof {
            assert(endowed@ =~= dev_endowments());
        }
        ExtBuilder { caps_endowed_accounts: endowed }
    }
}

impl ExtBuilder {
    /// The endowments collected so far, in the order in which they came.
    pub closed spec fn endowed(&self) -> Seq<(AccountId, Balance)> {
        self.caps_endowed_accounts@
    }

    /// The endowments collected so far.
    pub fn endowments(&self) -> (list: &Vec<(AccountId, Balance)>)
        ensures
            list@ == self.endowed(),
    {
        &self.caps_endowed_accounts
    }

    /// Adds endowments behind those collected so far.
    pub fn balances(self, accounts: Vec<(AccountId, Balance)>) -> (builder: ExtBuilder)
        ensures
            builder.endowed() == self.endowed() + accounts@,
    {
        let mut endowed = self.caps_endowed_accounts;
        let ghost before = endowed@;
        let mut i: usize = 0;
        proof {
            assert(endowed@ =~= before + accounts@.take(0));
        }
        while i < accounts.len()
            invariant
                i <= accounts@.len(),
                endowed@ == before + accounts@.take(i as int),
            decreases accounts@.len() - i,
        {
            endowed.push(accounts[i]);
            proof {
                assert(accounts@.take(i + 1) =~= accounts@.take(i as int).push(accounts@[i as int]));
                assert(endowed@ =~= before + accounts@.take(i + 1));
            }
            i += 1;
        }
        proof {
            assert(accounts@.take(accounts@.len() as int) =~= accounts@);
        }
        ExtBuilder { caps_endowed_accounts: endowed }
    }

    /// Builds the ledger: every endowment is written as free funds.
    pub fn build(self) -> (ledger: Balances)
        ensures
            ledger.wf(),
            ledger.book() == endowed_book(self.endowed()),
    {
        let mut ledger = Balances::new();
        let mut i: usize = 0;
        proof {
            assert(self.caps_endowed_accounts@.take(0) =~= Seq::<(AccountId, Balance)>::empty());
        }
        while i < self.caps_endowed_accounts.len()
            invariant
                i <= self.caps_endowed_accounts@.len(),
                ledger.wf(),
                ledger.book() == endowed_book(self.caps_endowed_accounts@.take(i as int)),
            decreases self.caps_endowed_accounts@.len() - i,
        {
            let (who, amount) = self.caps_endowed_accounts[i];
            proof {
                let next = self.caps_endowed_accounts@.take(i + 1);
                assert(next.drop_last() =~= self.caps_endowed_accounts@.take(i as int));
                assert(next.last() == self.caps_endowed_accounts@[i as int]);
            }
            ledger.endow(who, amount);
            i += 1;
        }
        proof {
            assert(self.caps_endowed_accounts@.take(self.caps_endowed_accounts@.len() as int)
                =~= self.caps_endowed_accounts@);
        }
        ledger
    }
}

} // verus!
