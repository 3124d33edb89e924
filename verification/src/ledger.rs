//! The ledger: the book of balances held in memory, and the operations on it.

use vstd::prelude::*;

use candid::Principal;

use crate::laws::{
    lemma_debited, lemma_entry_is_balance, lemma_recorded, lemma_settled, lemma_share_of,
};
use crate::model::{
    adjusted, balance_of, book_of, debited, in_range, parties, recorded, settle_amount, settled,
    share_of, total, well_formed, Book,
};
use crate::party::same_party;

verus! {

/// Why an expense was not recorded.
#[derive(Debug, Clone, Copy, PartialEq, Eq, Structural)]
pub enum LedgerError {
    /// The declared payer is not the caller.
    Unauthorized,
    /// There are no participants to split the amount among.
    InvalidInput,
}

/// Whether an expense is taken: the payer must be the caller, and there must
/// be at least one participant.
pub open spec fn expense_verdict(
    payer: Principal,
    caller: Principal,
    participants: Seq<Principal>,
) -> Result<(), LedgerError> {
    if payer != caller {
        Err(LedgerError::Unauthorized)
    } else if participants.len() == 0 {
        Err(LedgerError::InvalidInput)
    } else {
        Ok(())
    }
}

/// The net balances of all parties that the ledger has seen, in order of
/// first touch. No party has two entries.
pub struct Ledger {
    entries: Vec<(Principal, i64)>,
}

impl View for Ledger {
    type V = Book;

    closed spec fn view(&self) -> Book {
        book_of(self.entries@)
    }
}

/// Where `party` stands among the entries, if it does.
fn position<B>(entries: &Vec<(Principal, B)>, party: &Principal) -> (found: Option<usize>)
    ensures
        match found {
            Some(i) => i < entries.len() && entries[i as int].0 == *party,
            None => forall|i: int| 0 <= i < entries.len() ==> entries[i].0 != *party,
        },
{
    let mut i: usize = 0;
    while i < entries.len()
        invariant
            i <= entries.len(),
            forall|j: int| 0 <= j < i ==> entries[j].0 != *party,
        decreases entries.len() - i,
    {
        if same_party(&entries[i].0, party) {
            return Some(i);
        }
        i += 1;
    }
    None
}

/// The book that a vector of entries with wide balances stands for.
spec fn wide_book(entries: Seq<(Principal, i128)>) -> Book {
    Seq::new(entries.len(), |i: int| (entries[i].0, entries[i].1 as int))
}

/// The magnitude of the least 64-bit integer: no balance or amount of 64
/// bits is further from zero.
spec fn reach() -> int {
    0x8000_0000_0000_0000
}

/// No balance of the book exceeds `limit` in magnitude.
spec fn within(book: Book, limit: int) -> bool {
    forall|i: int| 0 <= i < book.len() ==> -limit <= (#[trigger] book[i]).1 <= limit
}

/// An adjustment moves no balance further from zero than its own size.
proof fn lemma_adjusted_within(book: Book, party: Principal, delta: int, limit: int, step: int)
    requires
        within(book, limit),
        -step <= delta <= step,
        0 <= limit,
    ensures
        within(adjusted(book, party, delta), limit + step),
{
    let after = adjusted(book, party, delta);
    assert forall|i: int| 0 <= i < after.len() implies -(limit + step) <= (#[trigger] after[i]).1
        <= limit + step by {
        if i < book.len() {
            assert(-limit <= book[i].1 <= limit);
        }
        if parties(book).contains(party) {
            assert(-limit <= book[parties(book).index_of(party)].1 <= limit);
        }
    }
}

/// The entries with their balances in 128 bits, where sums of them have room.
fn widened(entries: &Vec<(Principal, i64)>) -> (wide: Vec<(Principal, i128)>)
    ensures
        wide_book(wide@) == book_of(entries@),
{
    let mut wide: Vec<(Principal, i128)> = Vec::new();
    let mut i: usize = 0;
    while i < entries.len()
        invariant
            i <= entries.len(),
            wide.len() == i,
            forall|j: int|
                0 <= j < i ==> (#[trigger] wide[j]).0 == entries[j].0 && wide[j].1
                    == entries[j].1,
        decreases entries.len() - i,
    {
        wide.push((entries[i].0, entries[i].1 as i128));
        i += 1;
    }
    assert(wide_book(wide@) =~= book_of(entries@));
    wide
}

/// The entries with their balances in 64 bits again, or `None` where one of
/// them does not fit.
fn narrowed(wide: &Vec<(Principal, i128)>) -> (entries: Option<Vec<(Principal, i64)>>)
    ensures
        entries is Some <==> in_range(wide_book(wide@)),
        entries matches Some(narrow) ==> book_of(narrow@) == wide_book(wide@),
{
    let mut narrow: Vec<(Principal, i64)> = Vec::new();
    let mut i: usize = 0;
    while i < wide.len()
        invariant
            i <= wide.len(),
            narrow.len() == i,
            forall|j: int|
                0 <= j < i ==> (#[trigger] narrow[j]).0 == wide[j].0 && narrow[j].1 == wide[j].1,
        decreases wide.len() - i,
    {
        let balance = wide[i].1;
        if balance < i64::MIN as i128 || balance > i64::MAX as i128 {
            assert(wide_book(wide@)[i as int].1 == balance);
            return None;
        }
        narrow.push((wide[i].0, balance as i64));
        i += 1;
    }
    assert(book_of(narrow@) =~= wide_book(wide@));
    Some(narrow)
}

/// Adds `delta` to the balance of `party`, which joins at the end if it is new.
fn adjust(entries: &mut Vec<(Principal, i128)>, party: Principal, delta: i128)
    requires
        well_formed(wide_book(old(entries)@)),
        within(wide_book(old(entries)@), 2 * reach()),
        -reach() <= delta <= reach(),
    ensures
        wide_book(final(entries)@) == adjusted(wide_book(old(entries)@), party, delta as int),
{
    let ghost before = wide_book(entries@);
    match position(entries, &party) {
        Some(i) => {
            let balance = entries[i].1;
            proof {
                lemma_entry_is_balance(before, i as int);
                assert(-2 * reach() <= before[i as int].1 <= 2 * reach());
            }
            entries.set(i, (party, balance + delta));
        },
        None => {
            proof {
                lemma_stranger(before, party);
            }
            entries.push((party, delta));
        },
    }
}

/// A party that stands at no index is not among the parties of the book.
proof fn lemma_stranger(book: Book, party: Principal)
    requires
        forall|i: int| 0 <= i < book.len() ==> (#[trigger] book[i]).0 != party,
    ensures
        !parties(book).contains(party),
{
    if parties(book).contains(party) {
        let i = parties(book).index_of(party);
        assert(book[i].0 == party);
    }
}

/// The entries after `payer` has paid `amount` for `participants`, or `None`
/// where one of the new balances does not fit in 64 bits.
fn expense_outcome(
    entries: &Vec<(Principal, i64)>,
    payer: Principal,
    amount: i64,
    participants: &Vec<Principal>,
) -> (outcome: Option<Vec<(Principal, i64)>>)
    requires
        well_formed(book_of(entries@)),
        participants.len() > 0,
    ensures
        outcome is Some <==> in_range(
            recorded(book_of(entries@), payer, amount as int, participants@),
        ),
        outcome matches Some(after) ==> book_of(after@) == recorded(
            book_of(entries@),
            payer,
            amount as int,
            participants@,
        ),
{
    let ghost before = book_of(entries@);
    let heads = participants.len();
    let share: i128 = (amount as i128) / (heads as i128);
    let ghost size: int = if share >= 0 {
        share as int
    } else {
        -share
    };
    proof {
        // all the shares together are no more than the amount, which has 64 bits
        lemma_share_of(amount as int, heads as int);
        assert(size * heads <= reach()) by (nonlinear_arith)
            requires
                size == if share >= 0 {
                    share as int
                } else {
                    -share
                },
                -reach() <= share * heads <= reach(),
        ;
    }
    let mut scratch = widened(entries);
    let mut k: usize = 0;
    while k < heads
        invariant
            k <= heads,
            heads == participants.len(),
            0 <= size <= reach(),
            -size <= share <= size,
            size * heads <= reach(),
            well_formed(before),
            wide_book(scratch@) == debited(before, share as int, participants@.take(k as int)),
            within(wide_book(scratch@), reach() + size * k),
        decreases heads - k,
    {
        let ghost current = wide_book(scratch@);
        proof {
            vstd::arithmetic::mul::lemma_mul_inequality(k as int, heads as int, size);
            assert(size * k == k * size && size * heads == heads * size) by (nonlinear_arith);
            assert(size * (k + 1) == size * k + size) by (nonlinear_arith);
            lemma_debited(before, share as int, participants@.take(k as int));
            assert(within(current, 2 * reach()));
        }
        adjust(&mut scratch, participants[k], -share);
        proof {
            assert(participants@.take(k + 1).drop_last() =~= participants@.take(k as int));
            lemma_adjusted_within(current, participants[k as int], -share, reach() + size * k, size);
        }
        k += 1;
    }
    proof {
        assert(participants@.take(heads as int) =~= participants@);
        lemma_debited(before, share as int, participants@);
        assert(within(wide_book(scratch@), 2 * reach()));
    }
    adjust(&mut scratch, payer, amount as i128);
    narrowed(&scratch)
}

impl Ledger {
    /// Every ledger is well formed and holds balances of 64 bits.
    #[verifier::type_invariant]
    pub open spec fn sound(&self) -> bool {
        well_formed(self@) && in_range(self@)
    }

    /// An empty ledger: every party's balance is zero.
    pub fn new() -> (ledger: Ledger)
        ensures
            ledger@ == Seq::<(Principal, int)>::empty(),
            total(ledger@) == 0,
    {
        Ledger { entries: Vec::new() }
    }

    /// The net balance of `user` toward the whole group, zero for a party
    /// that the ledger has never seen. It is not a balance between the one
    /// who asks and `user`.
    pub fn get_net_balance_with_user(&self, user: Principal) -> (balance: i64)
        ensures
            balance == balance_of(self@, user),
            !parties(self@).contains(user) ==> balance == 0,
    {
        proof {
            use_type_invariant(self);
        }
        match position(&self.entries, &user) {
            Some(i) => {
                proof {
                    lemma_entry_is_balance(self@, i as int);
                }
                self.entries[i].1
            },
            None => {
                proof {
                    lemma_stranger(self@, user);
                }
                0
            },
        }
    }

    /// Records that `payer` paid `amount` for `participants`, unless a
    /// balance would leave the range of 64 bits: then nothing is done and the
    /// answer is `None`.
    ///
    /// Only the payer may record its expense, and there must be someone to
    /// split it among; an expense turned away changes nothing. Otherwise each
    /// participant is debited one share for each time it is listed, and the
    /// payer is credited the amount.
    pub fn checked_record_expense(
        &mut self,
        payer: Principal,
        caller: Principal,
        amount: i64,
        participants: Vec<Principal>,
    ) -> (outcome: Option<Result<(), LedgerError>>)
        ensures
            outcome is None <==> expense_verdict(payer, caller, participants@) is Ok && !in_range(
                recorded(old(self)@, payer, amount as int, participants@),
            ),
            outcome is Some ==> outcome == Some(expense_verdict(payer, caller, participants@)),
            outcome == Some(Ok::<(), LedgerError>(())) ==> final(self)@ == recorded(
                old(self)@,
                payer,
                amount as int,
                participants@,
            ),
            outcome != Some(Ok::<(), LedgerError>(())) ==> final(self)@ == old(self)@,
            outcome == Some(Ok::<(), LedgerError>(())) ==> total(final(self)@) == total(old(self)@)
                + amount - share_of(amount as int, participants.len() as int)
                * participants.len(),
    {
        proof {
            use_type_invariant(&*self);
            lemma_recorded(self@, payer, amount as int, participants@);
        }
        if !same_party(&payer, &caller) {
            return Some(Err(LedgerError::Unauthorized));
        }
        if participants.len() == 0 {
            return Some(Err(LedgerError::InvalidInput));
        }
        match expense_outcome(&self.entries, payer, amount, &participants) {
            Some(after) => {
                self.entries = after;
                Some(Ok(()))
            },
            None => None,
        }
    }

    /// Records that `payer` paid `amount` for `participants`.
    ///
    /// Only the payer may record its expense, and there must be someone to
    /// split it among; an expense turned away changes nothing. Otherwise each
    /// participant is debited one share for each time it is listed, and the
    /// payer is credited the amount. A payer that is also a participant
    /// keeps its own share: it gains the amount less that share.
    pub fn record_expense(
        &mut self,
        payer: Principal,
        caller: Principal,
        amount: i64,
        participants: Vec<Principal>,
    ) -> (outcome: Result<(), LedgerError>)
        requires
            expense_verdict(payer, caller, participants@) is Ok ==> in_range(
                recorded(old(self)@, payer, amount as int, participants@),
            ),
        ensures
            outcome == expense_verdict(payer, caller, participants@),
            outcome is Ok ==> final(self)@ == recorded(
                old(self)@,
                payer,
                amount as int,
                participants@,
            ),
            outcome is Err ==> final(self)@ == old(self)@,
            outcome is Ok ==> total(final(self)@) == total(old(self)@) + amount - share_of(
                amount as int,
                participants.len() as int,
            ) * participants.len(),
    {
        self.checked_record_expense(payer, caller, amount, participants).unwrap()
    }

    /// Records an expense under its other name: the rules and the effect are
    /// those of [`Ledger::record_expense`].
    pub fn split_expense(
        &mut self,
        payer: Principal,
        caller: Principal,
        amount: i64,
        participants: Vec<Principal>,
    ) -> (outcome: Result<(), LedgerError>)
        requires
            expense_verdict(payer, caller, participants@) is Ok ==> in_range(
                recorded(old(self)@, payer, amount as int, participants@),
            ),
        ensures
            outcome == expense_verdict(payer, caller, participants@),
            outcome is Ok ==> final(self)@ == recorded(
                old(self)@,
                payer,
                amount as int,
                participants@,
            ),
            outcome is Err ==> final(self)@ == old(self)@,
            outcome is Ok ==> total(final(self)@) == total(old(self)@) + amount - share_of(
                amount as int,
                participants.len() as int,
            ) * participants.len(),
    {
        self.record_expense(payer, caller, amount, participants)
    }

    /// The caller's own net balance toward the group.
    pub fn get_total_net_balance(&self, caller: Principal) -> (balance: i64)
        ensures
            balance == balance_of(self@, caller),
            !parties(self@).contains(caller) ==> balance == 0,
    {
        self.get_net_balance_with_user(caller)
    }

    /// Every party that the ledger has seen with its net balance, in order
    /// of first touch.
    pub fn get_all_user_balances(&self) -> (all: Vec<(Principal, i64)>)
        ensures
            book_of(all@) == self@,
    {
        let mut all: Vec<(Principal, i64)> = Vec::new();
        let mut i: usize = 0;
        while i < self.entries.len()
            invariant
                i <= self.entries.len(),
                all.len() == i,
                forall|j: int| 0 <= j < i ==> #[trigger] all[j] == self.entries[j],
            decreases self.entries.len() - i,
        {
            all.push((self.entries[i].0, self.entries[i].1));
            i += 1;
        }
        all
    }

    /// Nets what `caller` owes against what `user` is owed. Where `caller`'s
    /// balance is negative and `user`'s is positive, both move toward zero by
    /// the smaller of the two magnitudes; otherwise nothing changes, and the
    /// opposite direction is not tried.
    pub fn settle_balance_with_user(&mut self, caller: Principal, user: Principal)
        ensures
            final(self)@ == settled(old(self)@, caller, user),
            total(final(self)@) == total(old(self)@),
    {
        proof {
            use_type_invariant(&*self);
            lemma_settled(self@, caller, user);
        }
        let at_caller = position(&self.entries, &caller);
        let at_user = position(&self.entries, &user);
        if at_caller.is_some() && at_user.is_some() {
            let i = at_caller.unwrap();
            let j = at_user.unwrap();
            let owing = self.entries[i].1;
            let owed = self.entries[j].1;
            proof {
                lemma_entry_is_balance(self@, i as int);
                lemma_entry_is_balance(self@, j as int);
            }
            if owing < 0 && owed > 0 {
                let amount = if owing > -owed {
                    -owing
                } else {
                    owed
                };
                let ghost before = self@;
                let mut entries: Vec<(Principal, i64)> = Vec::new();
                std::mem::swap(&mut entries, &mut self.entries);
                entries.set(i, (caller, owing + amount));
                entries.set(j, (user, owed - amount));
                proof {
                    assert forall|k: int| 0 <= k < before.len() implies book_of(entries@)[k]
                        == settled(before, caller, user)[k] by {
                        assert(parties(before)[k] == before[k].0);
                    }
                    assert(book_of(entries@) =~= settled(before, caller, user));
                }
                self.entries = entries;
                return ;
            }
        }
        proof {
            // nothing to settle: one of the two has no entry, or the caller
            // owes nothing, or the other party is owed nothing
            if at_caller.is_none() {
                lemma_stranger(self@, caller);
            }
            if at_user.is_none() {
                lemma_stranger(self@, user);
            }
            assert(settle_amount(self@, caller, user) == 0);
            assert(self@ =~= settled(self@, caller, user));
        }
    }
}

} // verus!
