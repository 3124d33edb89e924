//! What holds of the book: how one adjustment, a recorded expense and a
//! settlement change the parties, the balances and their total.

use vstd::prelude::*;

use candid::Principal;

use crate::model::{
    adjusted, balance_of, book_of, debited, in_range, occurrences, parties, recorded,
    settle_amount, settled, share_of, total, touched, well_formed, Book,
};

verus! {

/// In a well-formed book the entry at `i` is the one its party is found at.
pub proof fn lemma_entry_is_balance(book: Book, i: int)
    requires
        well_formed(book),
        0 <= i < book.len(),
    ensures
        parties(book).contains(book[i].0),
        parties(book).index_of(book[i].0) == i,
        balance_of(book, book[i].0) == book[i].1,
{
    assert(parties(book)[i] == book[i].0);
}

/// Adjusting one balance keeps the book well formed, leaves every other
/// balance alone and moves the total by the same amount.
pub proof fn lemma_adjusted(book: Book, party: Principal, delta: int)
    requires
        well_formed(book),
    ensures
        well_formed(adjusted(book, party, delta)),
        parties(adjusted(book, party, delta)) == if parties(book).contains(party) {
            parties(book)
        } else {
            parties(book).push(party)
        },
        forall|other: Principal|
            #[trigger] balance_of(adjusted(book, party, delta), other) == balance_of(book, other)
                + if other == party {
                delta
            } else {
                0
            },
        total(adjusted(book, party, delta)) == total(book) + delta,
{
    let after = adjusted(book, party, delta);
    let ps = parties(book);
    if ps.contains(party) {
        let i = ps.index_of(party);
        assert(parties(after) =~= ps);
        lemma_total_update(book, i, (party, book[i].1 + delta));
        assert forall|other: Principal| balance_of(after, other) == balance_of(book, other) + if other
            == party {
            delta
        } else {
            0
        } by {
            if ps.contains(other) {
                let j = ps.index_of(other);
                lemma_entry_is_balance(after, j);
                lemma_entry_is_balance(book, j);
            }
        }
    } else {
        assert(after.drop_last() =~= book);
        assert forall|i: int, j: int|
            0 <= i < parties(after).len() && 0 <= j < parties(after).len() && i != j implies parties(
            after,
        )[i] != parties(after)[j] by {
            if i < ps.len() {
                assert(ps[i] == parties(after)[i]);
            }
            if j < ps.len() {
                assert(ps[j] == parties(after)[j]);
            }
        }
        assert forall|other: Principal| balance_of(after, other) == balance_of(book, other) + if other
            == party {
            delta
        } else {
            0
        } by {
            if other == party {
                lemma_entry_is_balance(after, book.len() as int);
            } else if ps.contains(other) {
                let j = ps.index_of(other);
                lemma_entry_is_balance(after, j);
                lemma_entry_is_balance(book, j);
            } else {
                if parties(after).contains(other) {
                    let j = parties(after).index_of(other);
                    assert(ps[j] == other);
                }
            }
        }
    }
}

/// Replacing the entry at `i` moves the total by the change of its balance.
pub proof fn lemma_total_update(book: Book, i: int, entry: (Principal, int))
    requires
        0 <= i < book.len(),
    ensures
        total(book.update(i, entry)) == total(book) - book[i].1 + entry.1,
    decreases book.len(),
{
    let after = book.update(i, entry);
    if i == book.len() - 1 {
        assert(after.drop_last() =~= book.drop_last());
    } else {
        assert(after.drop_last() =~= book.drop_last().update(i, entry));
        lemma_total_update(book.drop_last(), i, entry);
    }
}

/// A party that the book has not seen has a balance of zero.
pub proof fn lemma_unknown_party_has_no_balance(book: Book, party: Principal)
    requires
        !parties(book).contains(party),
    ensures
        balance_of(book, party) == 0,
{
}

/// A balance that is not zero belongs to a party with an entry.
pub proof fn lemma_balance_has_entry(book: Book, party: Principal)
    requires
        balance_of(book, party) != 0,
    ensures
        parties(book).contains(party),
        0 <= parties(book).index_of(party) < book.len(),
        book[parties(book).index_of(party)].0 == party,
{
}

/// Settling keeps the book well formed and the parties in place, moves the
/// two balances toward zero by the settled amount, leaves the total as it
/// was, and keeps every balance within 64 bits if it was so before.
pub proof fn lemma_settled(book: Book, debtor: Principal, creditor: Principal)
    requires
        well_formed(book),
    ensures
        well_formed(settled(book, debtor, creditor)),
        parties(settled(book, debtor, creditor)) == parties(book),
        forall|party: Principal|
            #[trigger] balance_of(settled(book, debtor, creditor), party) == balance_of(book, party)
                + if party == debtor {
                settle_amount(book, debtor, creditor)
            } else if party == creditor {
                -settle_amount(book, debtor, creditor)
            } else {
                0
            },
        total(settled(book, debtor, creditor)) == total(book),
        in_range(book) ==> in_range(settled(book, debtor, creditor)),
{
    let after = settled(book, debtor, creditor);
    let amount = settle_amount(book, debtor, creditor);
    let ps = parties(book);
    assert(parties(after) =~= ps);
    if amount == 0 {
        assert(after =~= book);
    } else {
        lemma_balance_has_entry(book, debtor);
        lemma_balance_has_entry(book, creditor);
        let i = ps.index_of(debtor);
        let j = ps.index_of(creditor);
        lemma_entry_is_balance(book, i);
        lemma_entry_is_balance(book, j);
        let half = book.update(i, (debtor, book[i].1 + amount));
        assert forall|k: int| 0 <= k < book.len() implies after[k] == half.update(
            j,
            (creditor, book[j].1 - amount),
        )[k] by {
            assert(ps[k] == book[k].0);
        }
        assert(after =~= half.update(j, (creditor, book[j].1 - amount)));
        lemma_total_update(book, i, (debtor, book[i].1 + amount));
        lemma_total_update(half, j, (creditor, book[j].1 - amount));
        assert forall|party: Principal|
            balance_of(after, party) == balance_of(book, party) + if party == debtor {
                amount
            } else if party == creditor {
                -amount
            } else {
                0
            } by {
            if ps.contains(party) {
                let k = ps.index_of(party);
                lemma_entry_is_balance(book, k);
                lemma_entry_is_balance(after, k);
            }
        }
    }
}

/// The shares of all heads together lie between zero and the amount, and
/// make up the whole amount where it divides evenly.
pub proof fn lemma_share_of(amount: int, heads: int)
    requires
        heads > 0,
    ensures
        amount >= 0 ==> 0 <= share_of(amount, heads) * heads <= amount,
        amount <= 0 ==> amount <= share_of(amount, heads) * heads <= 0,
        amount >= 0 ==> 0 <= share_of(amount, heads) <= amount,
        amount <= 0 ==> amount <= share_of(amount, heads) <= 0,
        amount % heads == 0 ==> share_of(amount, heads) * heads == amount,
{
    let size = if amount >= 0 {
        amount
    } else {
        -amount
    };
    let quotient = size / heads;
    vstd::arithmetic::div_mod::lemma_fundamental_div_mod(size, heads);
    vstd::arithmetic::div_mod::lemma_mod_bound(size, heads);
    vstd::arithmetic::div_mod::lemma_div_pos_is_pos(size, heads);
    assert((-quotient) * heads == -(quotient * heads)) by (nonlinear_arith);
    if amount % heads == 0 {
        vstd::arithmetic::div_mod::lemma_fundamental_div_mod(amount, heads);
        let whole = amount / heads;
        assert(size == heads * (if amount >= 0 {
            whole
        } else {
            -whole
        })) by (nonlinear_arith)
            requires
                amount == heads * whole,
                size == if amount >= 0 {
                    amount
                } else {
                    -amount
                },
        ;
        vstd::arithmetic::div_mod::lemma_div_multiples_vanish(
            if amount >= 0 {
                whole
            } else {
                -whole
            },
            heads,
        );
    }
}

/// Debiting a list of parties keeps the book well formed, appends the new
/// parties in the order in which the list first names them, takes one share
/// from a party for each time it is listed, and lowers the total by one
/// share for every item of the list.
pub proof fn lemma_debited(book: Book, share: int, list: Seq<Principal>)
    requires
        well_formed(book),
    ensures
        well_formed(debited(book, share, list)),
        parties(debited(book, share, list)) == touched(parties(book), list),
        forall|party: Principal|
            #[trigger] balance_of(debited(book, share, list), party) == balance_of(book, party)
                - share * occurrences(list, party),
        total(debited(book, share, list)) == total(book) - share * list.len(),
    decreases list.len(),
{
    if list.len() == 0 {
    } else {
        let front = list.drop_last();
        let before = debited(book, share, front);
        lemma_debited(book, share, front);
        lemma_adjusted(before, list.last(), -share);
        assert(share * list.len() == share * front.len() + share) by (nonlinear_arith)
            requires
                list.len() == front.len() + 1,
        ;
        assert forall|party: Principal|
            #[trigger] balance_of(debited(book, share, list), party) == balance_of(book, party)
                - share * occurrences(list, party) by {
            let seen = occurrences(front, party);
            assert(share * (seen + 1) == share * seen + share) by (nonlinear_arith);
        }
    }
}

/// Recording an expense keeps the book well formed. The participants that
/// are new join in the order in which they are first listed, and the payer
/// after them. A party's balance falls by one share for each time it is
/// listed and, for the payer, rises by the amount. The total moves by what
/// the division left over: the amount less all the shares.
pub proof fn lemma_recorded(
    book: Book,
    payer: Principal,
    amount: int,
    participants: Seq<Principal>,
)
    requires
        well_formed(book),
    ensures
        well_formed(recorded(book, payer, amount, participants)),
        parties(recorded(book, payer, amount, participants)) == touched(
            parties(book),
            participants.push(payer),
        ),
        forall|party: Principal|
            #[trigger] balance_of(recorded(book, payer, amount, participants), party) == balance_of(
                book,
                party,
            ) - share_of(amount, participants.len() as int) * occurrences(participants, party)
                + if party == payer {
                amount
            } else {
                0
            },
        total(recorded(book, payer, amount, participants)) == total(book) + amount - share_of(
            amount,
            participants.len() as int,
        ) * participants.len(),
{
    let share = share_of(amount, participants.len() as int);
    let before = debited(book, share, participants);
    lemma_debited(book, share, participants);
    lemma_adjusted(before, payer, amount);
    assert(participants.push(payer).drop_last() =~= participants);
}

/// An amount that divides evenly among the participants leaves the total of
/// all balances as it was.
pub proof fn lemma_exact_expense_keeps_total(
    book: Book,
    payer: Principal,
    amount: int,
    participants: Seq<Principal>,
)
    requires
        well_formed(book),
        participants.len() > 0,
        amount % (participants.len() as int) == 0,
    ensures
        total(recorded(book, payer, amount, participants)) == total(book),
{
    lemma_recorded(book, payer, amount, participants);
    lemma_share_of(amount, participants.len() as int);
}

/// `after` is `before` with one expense recorded whose amount divides evenly
/// among its participants.
pub open spec fn exact_expense(before: Book, after: Book) -> bool {
    exists|payer: Principal, amount: int, participants: Seq<Principal>|
        participants.len() > 0 && amount % (participants.len() as int) == 0 && after
            == #[trigger] recorded(before, payer, amount, participants)
}

/// `after` is `before` with one settlement made.
pub open spec fn settlement(before: Book, after: Book) -> bool {
    exists|debtor: Principal, creditor: Principal|
        after == #[trigger] settled(before, debtor, creditor)
}

/// The books that a ledger goes through, from the empty one on, where every
/// step is an expense with an evenly divided amount or a settlement.
pub open spec fn exact_history(books: Seq<Book>) -> bool {
    &&& books.len() > 0
    &&& books[0].len() == 0
    &&& forall|i: int|
        0 < i < books.len() ==> exact_expense(books[i - 1], #[trigger] books[i]) || settlement(
            books[i - 1],
            books[i],
        )
}

/// Zero sum: after any number of expenses with evenly divided amounts and of
/// settlements, the balances of all parties add up to zero.
pub proof fn lemma_zero_sum(books: Seq<Book>, i: int)
    requires
        exact_history(books),
        0 <= i < books.len(),
    ensures
        well_formed(books[i]),
        total(books[i]) == 0,
    decreases i,
{
    if i > 0 {
        lemma_zero_sum(books, i - 1);
        let before = books[i - 1];
        let after = books[i];
        if exact_expense(before, after) {
            let (payer, amount, participants) = choose|
                payer: Principal,
                amount: int,
                participants: Seq<Principal>,
            |
                participants.len() > 0 && amount % (participants.len() as int) == 0 && after
                    == #[trigger] recorded(before, payer, amount, participants);
            lemma_recorded(before, payer, amount, participants);
            lemma_exact_expense_keeps_total(before, payer, amount, participants);
        } else {
            let (debtor, creditor) = choose|debtor: Principal, creditor: Principal|
                after == #[trigger] settled(before, debtor, creditor);
            lemma_settled(before, debtor, creditor);
        }
    }
}

/// Reads are repeatable: the book alone fixes what a read answers, so two
/// reads of one book, with no write between them, agree.
pub proof fn lemma_reads_repeat(
    book: Book,
    user: Principal,
    first: i64,
    second: i64,
    all_first: Seq<(Principal, i64)>,
    all_second: Seq<(Principal, i64)>,
)
    requires
        first == balance_of(book, user),
        second == balance_of(book, user),
        book_of(all_first) == book,
        book_of(all_second) == book,
    ensures
        first == second,
        all_first == all_second,
{
    assert forall|i: int| 0 <= i < all_first.len() implies all_first[i] == all_second[i] by {
        assert(book_of(all_first)[i] == book_of(all_second)[i]);
    }
    assert(all_first =~= all_second);
}

} // verus!
