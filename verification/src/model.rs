//! The ledger as mathematics: a book of parties and their net balances, and
//! what recording an expense or settling a debt does to it.

use vstd::prelude::*;

use candid::Principal;

verus! {

/// The parties in order of first touch, each with its net balance. A positive
/// balance is owed to the party by the group, a negative one is owed by it.
pub type Book = Seq<(Principal, int)>;

/// The book that a list of entries with 64-bit balances stands for.
pub open spec fn book_of(entries: Seq<(Principal, i64)>) -> Book {
    Seq::new(entries.len(), |i: int| (entries[i].0, entries[i].1 as int))
}

/// The parties of the book, in order of first touch.
pub open spec fn parties(book: Book) -> Seq<Principal> {
    Seq::new(book.len(), |i: int| book[i].0)
}

/// No party has two entries.
pub open spec fn well_formed(book: Book) -> bool {
    parties(book).no_duplicates()
}

/// Every balance fits in a signed 64-bit integer.
pub open spec fn in_range(book: Book) -> bool {
    forall|i: int| 0 <= i < book.len() ==> i64::MIN <= (#[trigger] book[i]).1 <= i64::MAX
}

/// The net balance of `party`: zero for a party the book has never seen.
pub open spec fn balance_of(book: Book, party: Principal) -> int {
    if parties(book).contains(party) {
        book[parties(book).index_of(party)].1
    } else {
        0
    }
}

/// The sum of all balances.
pub open spec fn total(book: Book) -> int
    decreases book.len(),
{
    if book.len() == 0 {
        0
    } else {
        total(book.drop_last()) + book.last().1
    }
}

/// How often `party` is listed.
pub open spec fn occurrences(list: Seq<Principal>, party: Principal) -> nat
    decreases list.len(),
{
    if list.len() == 0 {
        0
    } else {
        occurrences(list.drop_last(), party) + if list.last() == party {
            1nat
        } else {
            0nat
        }
    }
}

/// `known`, followed by the parties of `list` that it lacks, each once, in
/// the order in which `list` first names them.
pub open spec fn touched(known: Seq<Principal>, list: Seq<Principal>) -> Seq<Principal>
    decreases list.len(),
{
    if list.len() == 0 {
        known
    } else {
        let before = touched(known, list.drop_last());
        if before.contains(list.last()) {
            before
        } else {
            before.push(list.last())
        }
    }
}

/// One participant's portion of `amount` split among `heads`: the quotient
/// truncated toward zero.
pub open spec fn share_of(amount: int, heads: int) -> int
    recommends
        heads > 0,
{
    if amount >= 0 {
        amount / heads
    } else {
        -((-amount) / heads)
    }
}

/// The book after `delta` is added to the balance of `party`. A party that
/// the book has not seen joins at the end, starting from zero.
pub open spec fn adjusted(book: Book, party: Principal, delta: int) -> Book {
    if parties(book).contains(party) {
        let i = parties(book).index_of(party);
        book.update(i, (party, book[i].1 + delta))
    } else {
        book.push((party, delta))
    }
}

/// The book after every listed party has been debited `share`, once for each
/// time it is listed.
pub open spec fn debited(book: Book, share: int, list: Seq<Principal>) -> Book
    decreases list.len(),
{
    if list.len() == 0 {
        book
    } else {
        adjusted(debited(book, share, list.drop_last()), list.last(), -share)
    }
}

/// The book after `payer` has paid `amount` for `participants`: each
/// participant is debited its share, then the payer is credited the amount.
pub open spec fn recorded(
    book: Book,
    payer: Principal,
    amount: int,
    participants: Seq<Principal>,
) -> Book {
    adjusted(
        debited(book, share_of(amount, participants.len() as int), participants),
        payer,
        amount,
    )
}

/// What `debtor` and `creditor` settle: the smaller of what the debtor owes
/// and what the creditor is owed, and nothing unless the debtor's balance is
/// negative and the creditor's positive.
pub open spec fn settle_amount(book: Book, debtor: Principal, creditor: Principal) -> int {
    let owed = -balance_of(book, debtor);
    let due = balance_of(book, creditor);
    if owed > 0 && due > 0 {
        if owed <= due {
            owed
        } else {
            due
        }
    } else {
        0
    }
}

/// The book after `debtor` has settled with `creditor`: both balances move
/// toward zero by the settled amount, every other entry stays.
pub open spec fn settled(book: Book, debtor: Principal, creditor: Principal) -> Book {
    let amount = settle_amount(book, debtor, creditor);
    Seq::new(
        book.len(),
        |i: int|
            (
                book[i].0,
                if book[i].0 == debtor {
                    book[i].1 + amount
                } else if book[i].0 == creditor {
                    book[i].1 - amount
                } else {
                    book[i].1
                },
            ),
    )
}

} // verus!
