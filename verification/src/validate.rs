//! The account existence gate, and the checks that a new transaction passes
//! before it is recorded.

use crate::account::{lemma_name_of_bytes, same_text};
use crate::error::{Error, Fault};
use crate::opts::{
    bad_value, categorized, texts, typed_pairs, valued, NewTransactionOpts, RecurringPeriod,
};
use crate::text::{bytes_le, lemma_lex_total, lemma_lex_transitive, lex_le};
use vstd::prelude::*;
use vstd::utf8::encode_utf8;

verus! {

/// Tells whether `name` is among `names`.
pub fn contains_name(names: &[String], name: &String) -> (r: bool)
    ensures
        r == texts(names@).contains(name@),
{
    let mut i: usize = 0;
    while i < names.len()
        invariant
            i <= names.len(),
            forall|j: int| 0 <= j < i ==> texts(names@)[j] != name@,
        decreases names.len() - i,
    {
        if same_text(&names[i], name) {
            proof {
                assert(texts(names@)[i as int] == name@);
            }
            return true;
        }
        i += 1;
    }
    false
}

/// True when `name` is referenced, does not exist, and comes before every
/// other referenced name that does not exist, in the lexicographic order of
/// their bytes.
pub open spec fn first_unknown(
    existing: Seq<Seq<char>>,
    referenced: Seq<Seq<char>>,
    name: Seq<char>,
) -> bool {
    &&& referenced.contains(name)
    &&& !existing.contains(name)
    &&& forall|j: int|
        0 <= j < referenced.len() && !existing.contains(#[trigger] referenced[j]) ==> lex_le(
            encode_utf8(name),
            encode_utf8(referenced[j]),
        )
}

/// True when every referenced name exists.
pub open spec fn all_known(existing: Seq<Seq<char>>, referenced: Seq<Seq<char>>) -> bool {
    forall|j: int| 0 <= j < referenced.len() ==> existing.contains(#[trigger] referenced[j])
}

/// One name only comes first among the referenced names that do not exist.
pub proof fn lemma_first_unknown_unique(
    existing: Seq<Seq<char>>,
    referenced: Seq<Seq<char>>,
    a: Seq<char>,
    b: Seq<char>,
)
    requires
        first_unknown(existing, referenced, a),
        first_unknown(existing, referenced, b),
    ensures
        a == b,
{
    let i = choose|i: int| 0 <= i < referenced.len() && referenced[i] == a;
    let j = choose|j: int| 0 <= j < referenced.len() && referenced[j] == b;
    assert(lex_le(encode_utf8(a), encode_utf8(referenced[j])));
    assert(lex_le(encode_utf8(b), encode_utf8(referenced[i])));
    crate::text::lemma_lex_antisymmetric(encode_utf8(a), encode_utf8(b));
    lemma_name_of_bytes(a, b);
}

/// The account existence gate: passes where every referenced account
/// exists, and otherwise names the referenced account that does not exist
/// and comes first in the lexicographic order.
pub fn validate_accounts_exist(existing_accounts: &[String], accounts: &[String]) -> (r: Result<
    (),
    Error,
>)
    ensures
        match r {
            Ok(_) => all_known(texts(existing_accounts@), texts(accounts@)),
            Err(error) => exists|name: Seq<char>|
                #[trigger] first_unknown(texts(existing_accounts@), texts(accounts@), name)
                    && error@ == Fault::UnknownAccount(name),
        },
{
    let ghost existing = texts(existing_accounts@);
    let ghost referenced = texts(accounts@);
    let mut first: Option<usize> = None;
    let mut i: usize = 0;
    while i < accounts.len()
        invariant
            i <= accounts.len(),
            existing == texts(existing_accounts@),
            referenced == texts(accounts@),
            match first {
                None => forall|j: int| 0 <= j < i ==> existing.contains(#[trigger] referenced[j]),
                Some(at) => at < i && !existing.contains(referenced[at as int]) && forall|j: int|
                    0 <= j < i && !existing.contains(#[trigger] referenced[j]) ==> lex_le(
                        encode_utf8(referenced[at as int]),
                        encode_utf8(referenced[j]),
                    ),
            },
        decreases accounts.len() - i,
    {
        if !contains_name(existing_accounts, &accounts[i]) {
            proof {
                assert(referenced[i as int] == accounts@[i as int]@);
                crate::text::lemma_lex_reflexive(encode_utf8(referenced[i as int]));
            }
            match first {
                None => {
                    first = Some(i);
                },
                Some(at) => {
                    let earlier = bytes_le(
                        accounts[at].as_str().as_bytes(),
                        accounts[i].as_str().as_bytes(),
                    );
                    proof {
                        assert(referenced[at as int] == accounts@[at as int]@);
                        lemma_lex_total(
                            encode_utf8(referenced[at as int]),
                            encode_utf8(referenced[i as int]),
                        );
                    }
                    if !earlier {
                        proof {
                            assert forall|j: int|
                                0 <= j < i + 1 && !existing.contains(
                                    #[trigger] referenced[j],
                                ) implies lex_le(
                                encode_utf8(referenced[i as int]),
                                encode_utf8(referenced[j]),
                            ) by {
                                if j < i {
                                    lemma_lex_transitive(
                                        encode_utf8(referenced[i as int]),
                                        encode_utf8(referenced[at as int]),
                                        encode_utf8(referenced[j]),
                                    );
                                }
                            }
                        }
                        first = Some(i);
                    }
                },
            }
        } else {
            proof {
                assert(referenced[i as int] == accounts@[i as int]@);
            }
        }
        i += 1;
    }
    match first {
        None => Ok(()),
        Some(at) => {
            proof {
                assert(referenced[at as int] == accounts@[at as int]@);
                assert(first_unknown(existing, referenced, referenced[at as int]));
            }
            Err(Error::unknown_account(accounts[at].as_str()))
        },
    }
}

/// The names of a sequence of pairs of an account and its value.
pub open spec fn pair_names(pairs: Seq<(Seq<char>, int)>) -> Seq<Seq<char>> {
    Seq::new(pairs.len(), |i: int| pairs[i].0)
}

/// The names of `names`, each once, in the order in which they first occur.
pub open spec fn distinct(names: Seq<Seq<char>>) -> Seq<Seq<char>>
    decreases names.len(),
{
    if names.len() == 0 {
        Seq::empty()
    } else if distinct(names.drop_last()).contains(names.last()) {
        distinct(names.drop_last())
    } else {
        distinct(names.drop_last()).push(names.last())
    }
}

/// The distinct names hold exactly the names they were taken from, and none
/// of them twice.
pub proof fn lemma_distinct(names: Seq<Seq<char>>)
    ensures
        forall|name: Seq<char>| distinct(names).contains(name) <==> names.contains(name),
        distinct(names).no_duplicates(),
    decreases names.len(),
{
    if names.len() > 0 {
        let head = names.drop_last();
        let last = names.last();
        lemma_distinct(head);
        let d = distinct(head);
        let out = distinct(names);
        assert forall|name: Seq<char>| out.contains(name) <==> names.contains(name) by {
            if out.contains(name) {
                let k = choose|k: int| 0 <= k < out.len() && out[k] == name;
                if k < d.len() {
                    assert(d[k] == name);
                    assert(d.contains(name));
                    assert(head.contains(name));
                    let m = choose|m: int| 0 <= m < head.len() && head[m] == name;
                    assert(names[m] == head[m]);
                } else {
                    assert(names[names.len() - 1] == name);
                }
            }
            if names.contains(name) {
                let m = choose|m: int| 0 <= m < names.len() && names[m] == name;
                if m < head.len() {
                    assert(head[m] == names[m]);
                    assert(head.contains(name));
                    assert(d.contains(name));
                    let k = choose|k: int| 0 <= k < d.len() && d[k] == name;
                    assert(out[k] == name);
                } else if d.contains(last) {
                } else {
                    assert(out[out.len() - 1] == name);
                }
            }
        }
    }
}

/// The accounts that the debits and the credits name, each once, in the
/// order in which they first occur.
pub fn get_account_names(debits: &[(String, isize)], credits: &[(String, isize)]) -> (names: Vec<
    String,
>)
    ensures
        texts(names@) == distinct(pair_names(valued(debits@)) + pair_names(valued(credits@))),
{
    let ghost all = pair_names(valued(debits@)) + pair_names(valued(credits@));
    let mut names: Vec<String> = Vec::new();
    let mut i: usize = 0;
    proof {
        assert(all.subrange(0, 0) =~= Seq::<Seq<char>>::empty());
        assert(texts(names@) =~= Seq::<Seq<char>>::empty());
    }
    while i < debits.len()
        invariant
            i <= debits.len(),
            all == pair_names(valued(debits@)) + pair_names(valued(credits@)),
            texts(names@) == distinct(all.subrange(0, i as int)),
        decreases debits.len() - i,
    {
        proof {
            let next = all.subrange(0, i + 1);
            assert(next.drop_last() =~= all.subrange(0, i as int));
            assert(next.last() == debits@[i as int].0@);
        }
        if !contains_name(names.as_slice(), &debits[i].0) {
            let ghost before = texts(names@);
            names.push(debits[i].0.clone());
            proof {
                assert(texts(names@) =~= before.push(debits@[i as int].0@));
            }
        }
        i += 1;
    }
    let mut k: usize = 0;
    while k < credits.len()
        invariant
            k <= credits.len(),
            all == pair_names(valued(debits@)) + pair_names(valued(credits@)),
            texts(names@) == distinct(all.subrange(0, debits.len() + k)),
        decreases credits.len() - k,
    {
        proof {
            let next = all.subrange(0, debits.len() + k + 1);
            assert(next.drop_last() =~= all.subrange(0, debits.len() + k));
            assert(next.last() == credits@[k as int].0@);
        }
        if !contains_name(names.as_slice(), &credits[k].0) {
            let ghost before = texts(names@);
            names.push(credits[k].0.clone());
            proof {
                assert(texts(names@) =~= before.push(credits@[k as int].0@));
            }
        }
        k += 1;
    }
    proof {
        assert(all.subrange(0, debits.len() + k) =~= all);
    }
    names
}

/// The sum of the first `count` values of the pairs.
pub open spec fn leading_total(pairs: Seq<(Seq<char>, int)>, count: int) -> int
    decreases count,
{
    if count <= 0 {
        0
    } else {
        leading_total(pairs, count - 1) + pairs[count - 1].1
    }
}

/// The number of debits that have a credit beside them.
pub open spec fn paired(debits: Seq<(Seq<char>, int)>, credits: Seq<(Seq<char>, int)>) -> int {
    if debits.len() <= credits.len() {
        debits.len() as int
    } else {
        credits.len() as int
    }
}

/// The total of the debits and the total of the credits, each taken over as
/// many pairs as both have.
pub fn extract_total_debits_and_credits(
    debits: &[(String, isize)],
    credits: &[(String, isize)],
) -> (totals: (i128, i128))
    ensures
        totals.0 == leading_total(valued(debits@), paired(valued(debits@), valued(credits@))),
        totals.1 == leading_total(valued(credits@), paired(valued(debits@), valued(credits@))),
{
    let count: usize = if debits.len() <= credits.len() {
        debits.len()
    } else {
        credits.len()
    };
    let mut total_debits: i128 = 0;
    let mut total_credits: i128 = 0;
    let mut i: usize = 0;
    while i < count
        invariant
            i <= count,
            count <= debits.len(),
            count <= credits.len(),
            total_debits == leading_total(valued(debits@), i as int),
            total_credits == leading_total(valued(credits@), i as int),
            -(i * 0x8000_0000_0000_0000) <= total_debits <= i * 0x8000_0000_0000_0000,
            -(i * 0x8000_0000_0000_0000) <= total_credits <= i * 0x8000_0000_0000_0000,
        decreases count - i,
    {
        total_debits = total_debits + debits[i].1 as i128;
        total_credits = total_credits + credits[i].1 as i128;
        i += 1;
    }
    (total_debits, total_credits)
}

/// True when the totals balance: they cancel, or one of them is nothing
/// and so takes what the other asks for.
pub open spec fn totals_balance(total_debits: int, total_credits: int) -> bool {
    total_debits == 0 || total_credits == 0 || total_debits + total_credits == 0
}

/// Checks that the total of the debits and the total of the credits balance.
pub fn validate_values_balance(total_debits: i128, total_credits: i128) -> (r: Result<(), Error>)
    ensures
        match r {
            Ok(_) => totals_balance(total_debits as int, total_credits as int),
            Err(error) => !totals_balance(total_debits as int, total_credits as int) && error@
                == Fault::UnbalancedTransactionEntries,
        },
{
    if total_debits == 0 || total_credits == 0 {
        Ok(())
    } else if total_credits != i128::MIN && total_debits == -total_credits {
        Ok(())
    } else {
        Err(Error::unbalanced_transaction_entries())
    }
}

/// Checks the options of a new transaction against the saved accounts. The
/// values must be numbers and the debits and credits must be told apart; each
/// account they name must be among the saved ones; and the totals must
/// balance. The checks are made in this order, and the first that fails
/// decides the failure.
pub fn validate_new_transaction_opts(saved_accounts: &[String], opts: &NewTransactionOpts) -> (r:
    Result<(Vec<(String, isize)>, Vec<(String, isize)>, RecurringPeriod), Error>)
    ensures
        match r {
            Ok((debits, credits, period)) => {
                &&& typed_pairs(opts@) is Some
                &&& categorized(typed_pairs(opts@).unwrap()) == Ok::<
                    (Seq<(Seq<char>, int)>, Seq<(Seq<char>, int)>),
                    Fault,
                >((valued(debits@), valued(credits@)))
                &&& all_known(
                    texts(saved_accounts@),
                    distinct(pair_names(valued(debits@)) + pair_names(valued(credits@))),
                )
                &&& totals_balance(
                    leading_total(valued(debits@), paired(valued(debits@), valued(credits@))),
                    leading_total(valued(credits@), paired(valued(debits@), valued(credits@))),
                )
                &&& period == opts@.recurring_period
            },
            Err(error) => match typed_pairs(opts@) {
                None => exists|i: int|
                    bad_value(opts@, i) && error@ == Fault::InvalidEntryFormat(opts@.values[i]),
                Some(pairs) => match categorized(pairs) {
                    Err(fault) => error@ == fault,
                    Ok((debits, credits)) => {
                        let names = distinct(pair_names(debits) + pair_names(credits));
                        if all_known(texts(saved_accounts@), names) {
                            !totals_balance(
                                leading_total(debits, paired(debits, credits)),
                                leading_total(credits, paired(debits, credits)),
                            ) && error@ == Fault::UnbalancedTransactionEntries
                        } else {
                            exists|name: Seq<char>|
                                #[trigger] first_unknown(texts(saved_accounts@), names, name)
                                    && error@ == Fault::UnknownAccount(name)
                        }
                    },
                },
            },
        },
{
    let (debits, credits) = match opts.categorize_accounts_and_values() {
        Ok(parts) => parts,
        Err(error) => {
            return Err(error);
        },
    };
    let names = get_account_names(debits.as_slice(), credits.as_slice());
    match validate_accounts_exist(saved_accounts, names.as_slice()) {
        Ok(_) => {},
        Err(error) => {
            proof {
                let unknown = choose|name: Seq<char>|
                    #[trigger] first_unknown(texts(saved_accounts@), texts(names@), name)
                        && error@ == Fault::UnknownAccount(name);
                let j = choose|j: int| 0 <= j < texts(names@).len() && texts(names@)[j] == unknown;
                assert(!texts(saved_accounts@).contains(texts(names@)[j]));
            }
            return Err(error);
        },
    }
    let (total_debits, total_credits) = extract_total_debits_and_credits(
        debits.as_slice(),
        credits.as_slice(),
    );
    match validate_values_balance(total_debits, total_credits) {
        Ok(_) => {},
        Err(error) => {
            return Err(error);
        },
    }
    Ok((debits, credits, opts.recurring_period()))
}

} // verus!
