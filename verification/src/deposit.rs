//! Deposit accounting: what a payload costs its submitter, and the ledger
//! that locks, frees and moves the funds.

use crate::ident::{AccountId, Balance, Error};
use vstd::prelude::*;

verus! {

/// The deposit that backs a payload of `len` bytes.
pub open spec fn deposit_amount(base: Balance, rate: Balance, len: nat) -> nat {
    base as nat + rate as nat * len
}

/// Computes the deposit for a payload of `len` bytes, refusing an amount
/// that no balance can hold.
pub fn deposit_for(base: Balance, rate: Balance, len: usize) -> (quote: Result<Balance, Error>)
    ensures
        match quote {
            Ok(amount) => amount as nat == deposit_amount(base, rate, len as nat),
            Err(e) => e == Error::ArithmeticOverflow && deposit_amount(base, rate, len as nat)
                > Balance::MAX as nat,
        },
{
    let bytes: u64 = len as u64;
    match rate.checked_mul(bytes) {
        None => Err(Error::ArithmeticOverflow),
        Some(variable) => match base.checked_add(variable) {
            None => Err(Error::ArithmeticOverflow),
            Some(amount) => Ok(amount),
        },
    }
}

/// What the ledger holds for one account.
pub struct Funds {
    pub free: nat,
    pub reserved: nat,
}

/// The funds of `who`; an account that the ledger has never seen holds nothing.
pub open spec fn funds_of(book: Map<AccountId, Funds>, who: AccountId) -> Funds {
    if book.contains_key(who) {
        book[who]
    } else {
        Funds { free: 0, reserved: 0 }
    }
}

/// The book after `amount` moved from the free to the reserved funds of `who`.
pub open spec fn book_reserve(book: Map<AccountId, Funds>, who: AccountId, amount: nat) -> Map<
    AccountId,
    Funds,
> {
    let held = funds_of(book, who);
    book.insert(
        who,
        Funds { free: (held.free - amount) as nat, reserved: held.reserved + amount },
    )
}

/// How much of `amount` the reserved funds of `who` can give back.
pub open spec fn releasable(book: Map<AccountId, Funds>, who: AccountId, amount: nat) -> nat {
    if amount <= funds_of(book, who).reserved {
        amount
    } else {
        funds_of(book, who).reserved
    }
}

/// The book after up to `amount` moved from the reserved back to the free
/// funds of `who`.
pub open spec fn book_unreserve(book: Map<AccountId, Funds>, who: AccountId, amount: nat) -> Map<
    AccountId,
    Funds,
> {
    let held = funds_of(book, who);
    let moved = releasable(book, who, amount);
    book.insert(
        who,
        Funds { free: held.free + moved, reserved: (held.reserved - moved) as nat },
    )
}

/// The book after `amount` of free funds moved from `from` to `to`.
pub open spec fn book_transfer(
    book: Map<AccountId, Funds>,
    from: AccountId,
    to: AccountId,
    amount: nat,
) -> Map<AccountId, Funds> {
    let source = funds_of(book, from);
    let debited = book.insert(
        from,
        Funds { free: (source.free - amount) as nat, reserved: source.reserved },
    );
    let target = funds_of(debited, to);
    debited.insert(to, Funds { free: target.free + amount, reserved: target.reserved })
}

/// The currency ledger that the engine instructs. The engine never holds
/// funds itself: it asks the ledger to lock, free or move them.
pub trait Currency {
    /// The ledger's own consistency.
    spec fn wf(&self) -> bool;

    /// The funds of `who` that are free to be spent or locked.
    spec fn free(&self, who: AccountId) -> Balance;

    /// The funds of `who` that are locked.
    spec fn reserved(&self, who: AccountId) -> Balance;

    /// Whether the ledger would lock `amount` of the free funds of `who`.
    spec fn can_reserve(&self, who: AccountId, amount: Balance) -> bool;

    /// Whether the ledger would move `amount` of free funds from `from` to `to`.
    spec fn can_transfer(&self, from: AccountId, to: AccountId, amount: Balance) -> bool;

    /// Every account's funds.
    open spec fn book(&self) -> Map<AccountId, Funds> {
        Map::total(
            |who: AccountId|
                Funds { free: self.free(who) as nat, reserved: self.reserved(who) as nat },
        )
    }

    /// Locks `amount` of the free funds of `who`, or changes nothing.
    fn reserve(&mut self, who: &AccountId, amount: Balance) -> (ok: bool)
        requires
            old(self).wf(),
        ensures
            final(self).wf(),
            ok == old(self).can_reserve(*who, amount),
            ok ==> funds_of(old(self).book(), *who).free >= amount,
            final(self).book() == if ok {
                book_reserve(old(self).book(), *who, amount as nat)
            } else {
                old(self).book()
            },
    ;

    /// Frees up to `amount` of the reserved funds of `who`, and returns what
    /// of `amount` was not there to be freed.
    fn unreserve(&mut self, who: &AccountId, amount: Balance) -> (missing: Balance)
        requires
            old(self).wf(),
        ensures
            final(self).wf(),
            missing as nat == amount as nat - releasable(old(self).book(), *who, amount as nat),
            final(self).book() == book_unreserve(old(self).book(), *who, amount as nat),
    ;

    /// Moves `amount` of free funds from `from` to `to`, or changes nothing.
    fn transfer(&mut self, from: &AccountId, to: &AccountId, amount: Balance) -> (ok: bool)
        requires
            old(self).wf(),
        ensures
            final(self).wf(),
            ok == old(self).can_transfer(*from, *to, amount),
            ok ==> funds_of(old(self).book(), *from).free >= amount,
            final(self).book() == if ok {
                book_transfer(old(self).book(), *from, *to, amount as nat)
            } else {
                old(self).book()
            },
    ;
}

/// The deposit rules of one engine and the ledger that it instructs.
pub struct DepositAccounting<L: Currency> {
    /// The ledger that holds the funds.
    pub ledger: L,
    /// What every payload costs, whatever its length.
    pub base_deposit: Balance,
    /// What each byte of a payload costs on top.
    pub per_byte_rate: Balance,
}

impl<L: Currency> DepositAccounting<L> {
    /// Puts the deposit rules on top of a ledger.
    pub fn new(ledger: L, base_deposit: Balance, per_byte_rate: Balance) -> (accounting: Self)
        ensures
            accounting.ledger == ledger,
            accounting.base_deposit == base_deposit,
            accounting.per_byte_rate == per_byte_rate,
    {
        DepositAccounting { ledger, base_deposit, per_byte_rate }
    }

    /// The deposit for a payload of `len` bytes under the present rules.
    pub fn quote(&self, len: usize) -> (quote: Result<Balance, Error>)
        ensures
            match quote {
                Ok(amount) => amount as nat == deposit_amount(
                    self.base_deposit,
                    self.per_byte_rate,
                    len as nat,
                ),
                Err(e) => e == Error::ArithmeticOverflow && deposit_amount(
                    self.base_deposit,
                    self.per_byte_rate,
                    len as nat,
                ) > Balance::MAX as nat,
            },
    {
        deposit_for(self.base_deposit, self.per_byte_rate, len)
    }

    /// Locks `amount` of the free funds of `payer`.
    pub fn reserve(&mut self, payer: &AccountId, amount: Balance) -> (done: Result<(), Error>)
        requires
            old(self).ledger.wf(),
        ensures
            final(self).ledger.wf(),
            final(self).base_deposit == old(self).base_deposit,
            final(self).per_byte_rate == old(self).per_byte_rate,
            done.is_ok() == old(self).ledger.can_reserve(*payer, amount),
            match done {
                Ok(_) => final(self).ledger.book() == book_reserve(
                    old(self).ledger.book(),
                    *payer,
                    amount as nat,
                ) && funds_of(old(self).ledger.book(), *payer).free >= amount,
                Err(e) => e == Error::InsufficientFunds && final(self).ledger.book() == old(self).ledger.book(),
            },
    {
        if self.ledger.reserve(payer, amount) {
            Ok(())
        } else {
            Err(Error::InsufficientFunds)
        }
    }

    /// Frees up to `amount` of the reserved funds of `payer`; returns what
    /// of `amount` the ledger did not hold in reserve.
    pub fn release(&mut self, payer: &AccountId, amount: Balance) -> (missing: Balance)
        requires
            old(self).ledger.wf(),
        ensures
            final(self).ledger.wf(),
            final(self).base_deposit == old(self).base_deposit,
            final(self).per_byte_rate == old(self).per_byte_rate,
            missing as nat == amount as nat - releasable(
                old(self).ledger.book(),
                *payer,
                amount as nat,
            ),
            final(self).ledger.book() == book_unreserve(
                old(self).ledger.book(),
                *payer,
                amount as nat,
            ),
    {
        self.ledger.unreserve(payer, amount)
    }

    /// Moves `amount` of free funds from `from` to `to`.
    pub fn transfer(&mut self, from: &AccountId, to: &AccountId, amount: Balance) -> (done: Result<
        (),
        Error,
    >)
        requires
            old(self).ledger.wf(),
        ensures
            final(self).ledger.wf(),
            final(self).base_deposit == old(self).base_deposit,
            final(self).per_byte_rate == old(self).per_byte_rate,
            done.is_ok() == old(self).ledger.can_transfer(*from, *to, amount),
            match done {
                Ok(_) => final(self).ledger.book() == book_transfer(
                    old(self).ledger.book(),
                    *from,
                    *to,
                    amount as nat,
                ) && funds_of(old(self).ledger.book(), *from).free >= amount,
                Err(e) => e == Error::InsufficientFunds && final(self).ledger.book() == old(self).ledger.book(),
            },
    {
        if self.ledger.transfer(from, to, amount) {
            Ok(())
        } else {
            Err(Error::InsufficientFunds)
        }
    }
}

} // verus!
