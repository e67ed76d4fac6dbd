//! The ledger: users, purchases and their shares, kept index-aligned.
use crate::names::{
    find_name, holds_name, insert_position, lemma_insert_sorted, lemma_same_sorted_names,
    lemma_sorted_unique, name_lt, name_views, sorted_names,
};
use crate::rational::{
    decimal_text, decimal_text_ok, decimal_value, rational_to_string, lemma_equiv_trans, lemma_equiv_zero, lemma_nonzero_product,
    lemma_plus_equiv, lemma_times_equiv, rational_from_str, trimmed, Frac, ParseRationalError,
    Rational, abs, bound_of, fits_frac, within, lemma_plus_within, lemma_times_within,
    lemma_over_within,
};
use crate::decimal::{decimal, push_decimal};
use vstd::prelude::*;

verus! {

/// Why a ledger operation was refused. The ledger is left unchanged.
#[derive(Debug, Clone, PartialEq)]
pub enum ParseError {
    EmptyUser,
    EmptyDescr,
    UnknownUser(String),
    RationalParsingFailed(ParseRationalError),
    UserAlreadyPresent(String),
    UserHasData(String),
    InvalidPurchase(usize),
}

impl ParseError {
    /// A description of the error, for display.
    pub fn message(&self) -> (r: String)
        ensures
            self is EmptyUser ==> r@ == "Cannot add the empty string as a new user"@,
            self is EmptyDescr ==> r@ == "Cannot add the empty string as a description"@,
            self matches ParseError::UnknownUser(u) ==> r@ == "Unknown user: "@ + u@,
            self is RationalParsingFailed ==> exists|t: Seq<char>|
                r@ == "Could not parse rational: "@ + t + "."@,
            self matches ParseError::UserAlreadyPresent(u) ==> r@ == "Cannot insert user "@ + u@
                + " twice."@,
            self matches ParseError::UserHasData(u) ==> r@ == "Cannot remove user "@ + u@
                + ", who has paid a transaction or holds shares."@,
            self matches ParseError::InvalidPurchase(i) ==> r@ == "Transaction "@ + decimal(
                i as nat,
            ) + " does not exist."@,
    {
        match self {
            ParseError::EmptyUser => String::from_str("Cannot add the empty string as a new user"),
            ParseError::EmptyDescr => String::from_str(
                "Cannot add the empty string as a description",
            ),
            ParseError::UnknownUser(u) => {
                let mut r = String::from_str("Unknown user: ");
                r.append(u.as_str());
                r
            },
            ParseError::RationalParsingFailed(e) => {
                let mut r = String::from_str("Could not parse rational: ");
                let t = e.message();
                r.append(t.as_str());
                r.append(".");
                proof {
                    assert(r@ == "Could not parse rational: "@ + t@ + "."@);
                }
                r
            },
            ParseError::UserAlreadyPresent(u) => {
                let mut r = String::from_str("Cannot insert user ");
                r.append(u.as_str());
                r.append(" twice.");
                r
            },
            ParseError::UserHasData(u) => {
                let mut r = String::from_str("Cannot remove user ");
                r.append(u.as_str());
                r.append(", who has paid a transaction or holds shares.");
                r
            },
            ParseError::InvalidPurchase(i) => {
                let mut r = String::from_str("Transaction ");
                push_decimal(&mut r, *i as u64);
                r.append(" does not exist.");
                r
            },
        }
    }
}

impl ParsedAccounts {
    /// What a well-formed ledger guarantees of its value: users sorted and
    /// unique, payers among them, one share per user in each purchase, and
    /// positive denominators.
    pub proof fn lemma_wf_view(&self)
        requires
            self.wf(),
        ensures
            self@.wf(),
            self@.positive_dens(),
    {
        self.lemma_view_dens();
    }
}

/// One zero share per user.
pub open spec fn zero_shares(n: nat) -> Seq<Frac> {
    Seq::new(n, |u: int| Frac::of_int(0))
}

/// A purchase as a mathematical value.
pub struct PurchaseView {
    pub descr: Seq<char>,
    pub who_paid: int,
    pub amount: Frac,
    pub shares: Seq<Frac>,
}

/// A ledger as a mathematical value.
pub struct AccountsView {
    pub users: Seq<Seq<char>>,
    pub purchases: Seq<PurchaseView>,
}

pub open spec fn frac_views(v: Seq<Rational>) -> Seq<Frac> {
    v.map_values(|r: Rational| r@)
}

impl PurchaseView {
    /// A user was inserted at index `i`: a zero share there, and the payer
    /// index shifted past it.
    pub open spec fn with_user_inserted(self, i: int) -> PurchaseView {
        PurchaseView {
            who_paid: if self.who_paid >= i {
                self.who_paid + 1
            } else {
                self.who_paid
            },
            shares: self.shares.insert(i, Frac::of_int(0)),
            ..self
        }
    }

    /// The user at index `i` was removed: its share goes, and payer indices
    /// past it shift down.
    pub open spec fn with_user_removed(self, i: int) -> PurchaseView {
        PurchaseView {
            who_paid: if self.who_paid >= i {
                self.who_paid - 1
            } else {
                self.who_paid
            },
            shares: self.shares.remove(i),
            ..self
        }
    }

    /// The user at index `u` paid it or holds a positive share of it.
    pub open spec fn involves(self, u: int) -> bool {
        self.who_paid == u || self.shares[u].num > 0
    }
}

impl AccountsView {
    pub open spec fn user_inserted(self, name: Seq<char>, i: int) -> AccountsView {
        AccountsView {
            users: self.users.insert(i, name),
            purchases: self.purchases.map_values(|p: PurchaseView| p.with_user_inserted(i)),
        }
    }

    pub open spec fn user_removed(self, i: int) -> AccountsView {
        AccountsView {
            users: self.users.remove(i),
            purchases: self.purchases.map_values(|p: PurchaseView| p.with_user_removed(i)),
        }
    }

    /// Users sorted and unique, each purchase's payer a user, and one share
    /// per user in each purchase.
    pub open spec fn wf(self) -> bool {
        &&& sorted_names(self.users)
        &&& forall|k: int|
            0 <= k < self.purchases.len() ==> {
                &&& 0 <= #[trigger] self.purchases[k].who_paid < self.users.len()
                &&& self.purchases[k].shares.len() == self.users.len()
            }
    }

    /// The user at index `u` paid some purchase or holds a positive share.
    pub open spec fn has_data(self, u: int) -> bool {
        exists|k: int| 0 <= k < self.purchases.len() && #[trigger] self.purchases[k].involves(u)
    }

    /// The user called `name` paid some purchase or holds a positive share.
    pub open spec fn user_has_data(self, name: Seq<char>) -> bool {
        exists|u: int| 0 <= u < self.users.len() && self.users[u] == name && #[trigger] self.has_data(u)
    }

    /// `b` is `self` with the new user `name` inserted at its sorted position.
    pub open spec fn adds_user(self, name: Seq<char>, b: AccountsView) -> bool {
        exists|i: int| insert_position(self.users, name, i) && b == self.user_inserted(name, i)
    }

    /// `b` is `self` without the user `name`.
    pub open spec fn removes_user(self, name: Seq<char>, b: AccountsView) -> bool {
        exists|i: int|
            0 <= i < self.users.len() && self.users[i] == name && b == self.user_removed(i)
    }
}

/// The sum of a sequence of fractions, from the left.
pub open spec fn frac_sum(s: Seq<Frac>) -> Frac
    decreases s.len(),
{
    if s.len() == 0 {
        Frac::of_int(0)
    } else {
        frac_sum(s.drop_last()).plus(s.last())
    }
}

pub open spec fn positive_dens(s: Seq<Frac>) -> bool {
    forall|u: int| 0 <= u < s.len() ==> (#[trigger] s[u]).den > 0
}

pub proof fn lemma_frac_sum_den(s: Seq<Frac>)
    requires
        positive_dens(s),
    ensures
        frac_sum(s).den > 0,
    decreases s.len(),
{
    if s.len() > 0 {
        assert(positive_dens(s.drop_last()));
        lemma_frac_sum_den(s.drop_last());
        assert(s.last().den > 0);
        assert(frac_sum(s.drop_last()).den * s.last().den > 0) by (nonlinear_arith)
            requires
                frac_sum(s.drop_last()).den > 0,
                s.last().den > 0,
        {}
    }
}

impl PurchaseView {
    pub open spec fn total_shares(self) -> Frac {
        frac_sum(self.shares)
    }

    /// A purchase whose shares sum to zero cannot be divided and is left out
    /// of the balances.
    pub open spec fn counted(self) -> bool {
        !self.total_shares().is_zero()
    }

    /// What user `u` owes of it: its part of the amount, by share weight.
    pub open spec fn debit(self, u: int) -> Frac {
        self.amount.times(self.shares[u]).over(self.total_shares())
    }

    /// What user `u` is owed for it: the whole amount for its payer.
    pub open spec fn credit(self, u: int) -> Frac {
        if self.who_paid == u {
            self.amount
        } else {
            Frac::of_int(0)
        }
    }

    pub open spec fn positive_dens(self) -> bool {
        self.amount.den > 0 && positive_dens(self.shares)
    }
}

impl AccountsView {
    /// The balance of user `u` over the first `k` purchases: credits minus
    /// debits of each counted purchase.
    pub open spec fn balance_upto(self, k: int, u: int) -> Frac
        decreases k,
    {
        if k <= 0 {
            Frac::of_int(0)
        } else {
            let prev = self.balance_upto(k - 1, u);
            let p = self.purchases[k - 1];
            if p.counted() {
                prev.minus(p.debit(u)).plus(p.credit(u))
            } else {
                prev
            }
        }
    }

    /// The balance of user `u`: positive where the group owes them.
    pub open spec fn balance(self, u: int) -> Frac {
        self.balance_upto(self.purchases.len() as int, u)
    }

    pub open spec fn positive_dens(self) -> bool {
        forall|k: int| 0 <= k < self.purchases.len() ==> (#[trigger] self.purchases[k]).positive_dens()
    }
}

impl PurchaseView {
    /// A bound on the parts of the running sum of the first `j` shares.
    pub open spec fn total_bound(self, j: int) -> Frac
        decreases j,
    {
        if j <= 0 {
            Frac::of_int(0)
        } else {
            self.total_bound(j - 1).plus(bound_of(self.shares[j - 1]))
        }
    }

    /// Every running sum of the shares stays within 64 bits.
    pub open spec fn totals_fit(self) -> bool {
        forall|j: int| 1 <= j <= self.shares.len() ==> fits_frac(#[trigger] self.total_bound(j))
    }

    /// A bound on the parts of the amount times the share of user `u`.
    pub open spec fn part_bound(self, u: int) -> Frac {
        bound_of(self.amount).times(bound_of(self.shares[u]))
    }

    /// A bound on the parts of what user `u` owes of it.
    pub open spec fn debit_bound(self, u: int) -> Frac {
        self.part_bound(u).over(self.total_bound(self.shares.len() as int))
    }
}

impl AccountsView {
    /// A bound on the parts of the balance of user `u` after `k` purchases.
    pub open spec fn balance_bound(self, k: int, u: int) -> Frac
        decreases k,
    {
        if k <= 0 {
            Frac::of_int(0)
        } else {
            let prev = self.balance_bound(k - 1, u);
            let p = self.purchases[k - 1];
            if p.counted() {
                let after = prev.plus(p.debit_bound(u));
                if p.who_paid == u {
                    after.plus(bound_of(p.amount))
                } else {
                    after
                }
            } else {
                prev
            }
        }
    }

    /// The step of purchase `k` for user `u` stays within 64 bits.
    pub open spec fn step_fits(self, k: int, u: int) -> bool {
        let p = self.purchases[k];
        let after = self.balance_bound(k, u).plus(p.debit_bound(u));
        &&& fits_frac(p.part_bound(u))
        &&& fits_frac(p.debit_bound(u))
        &&& fits_frac(after)
        &&& u == p.who_paid ==> fits_frac(after.plus(bound_of(p.amount)))
    }

    pub open spec fn purchase_fits(self, k: int) -> bool {
        &&& self.purchases[k].totals_fit()
        &&& self.purchases[k].counted() ==> forall|u: int|
            0 <= u < self.users.len() ==> #[trigger] self.step_fits(k, u)
    }

    /// Every value that the balance computation goes through, bounded by the
    /// magnitudes of the amounts and shares, fits in 64 bits.
    pub open spec fn balances_fit(self) -> bool {
        forall|k: int| 0 <= k < self.purchases.len() ==> #[trigger] self.purchase_fits(k)
    }
}

/// One purchase: who paid how much, and each user's share weight.
#[derive(Debug, PartialEq, Clone)]
pub struct ParsedPurchase {
    descr: String,
    who_paid: usize,
    amount: Rational,
    benef_to_shares: Vec<Rational>,
}

impl View for ParsedPurchase {
    type V = PurchaseView;

    closed spec fn view(&self) -> PurchaseView {
        PurchaseView {
            descr: self.descr@,
            who_paid: self.who_paid as int,
            amount: self.amount@,
            shares: frac_views(self.benef_to_shares@),
        }
    }
}

impl ParsedPurchase {
    /// Amount and shares with positive denominators.
    pub closed spec fn wf(self) -> bool {
        &&& self.amount.wf()
        &&& forall|u: int|
            0 <= u < self.benef_to_shares@.len() ==> (#[trigger] self.benef_to_shares@[u]).wf()
    }
}

impl ParsedPurchase {
    pub fn descr(&self) -> (r: &str)
        ensures
            r@ == self@.descr,
    {
        self.descr.as_str()
    }

    /// The name of the user who paid.
    pub fn who_paid<'a>(&self, accounts: &'a ParsedAccounts) -> (r: &'a str)
        requires
            self@.who_paid < accounts@.users.len(),
        ensures
            r@ == accounts@.users[self@.who_paid],
    {
        accounts.users[self.who_paid].as_str()
    }

    pub fn amount(&self) -> (r: Rational)
        ensures
            r@ == self@.amount,
    {
        self.amount
    }

    /// Each user's name with its share, in the order of the users.
    pub fn benef_to_shares<'a>(&'a self, accounts: &'a ParsedAccounts) -> (r: Vec<(&'a str, Rational)>)
        requires
            self@.shares.len() == accounts@.users.len(),
        ensures
            r@.len() == accounts@.users.len(),
            forall|u: int|
                0 <= u < r@.len() ==> (#[trigger] r@[u]).0@ == accounts@.users[u] && r@[u].1@
                    == self@.shares[u],
    {
        let mut r: Vec<(&'a str, Rational)> = Vec::new();
        let n = self.benef_to_shares.len();
        let mut u: usize = 0;
        while u < n
            invariant
                n == self.benef_to_shares@.len(),
                n == accounts@.users.len(),
                u <= n,
                r@.len() == u,
                forall|v: int|
                    0 <= v < u ==> (#[trigger] r@[v]).0@ == accounts@.users[v] && r@[v].1@
                        == self@.shares[v],
            decreases n - u,
        {
            r.push((accounts.users[u].as_str(), self.benef_to_shares[u]));
            u = u + 1;
        }
        r
    }

    pub fn shares(&self) -> (r: &[Rational])
        ensures
            frac_views(r@) == self@.shares,
    {
        self.benef_to_shares.as_slice()
    }
}

/// The ledger: sorted unique users, and purchases whose share vectors are
/// aligned with the users.
#[derive(Debug, PartialEq, Clone)]
pub struct ParsedAccounts {
    users: Vec<String>,
    purchases: Vec<ParsedPurchase>,
}

impl View for ParsedAccounts {
    type V = AccountsView;

    closed spec fn view(&self) -> AccountsView {
        AccountsView {
            users: name_views(self.users@),
            purchases: self.purchases@.map_values(|p: ParsedPurchase| p@),
        }
    }
}

impl ParsedAccounts {
    pub closed spec fn wf(self) -> bool {
        &&& self@.wf()
        &&& forall|k: int| 0 <= k < self.purchases@.len() ==> (#[trigger] self.purchases@[k]).wf()
    }

    /// The users, sorted.
    pub fn users(&self) -> (r: &[String])
        ensures
            name_views(r@) == self@.users,
    {
        self.users.as_slice()
    }

    pub fn purchases(&self) -> (r: &[ParsedPurchase])
        ensures
            r@.map_values(|p: ParsedPurchase| p@) == self@.purchases,
    {
        self.purchases.as_slice()
    }

    /// A ledger with no user and no purchase.
    pub fn new() -> (r: ParsedAccounts)
        ensures
            r.wf(),
            r@.users.len() == 0,
            r@.purchases.len() == 0,
    {
        ParsedAccounts { users: Vec::new(), purchases: Vec::new() }
    }

    /// Add a new user to the accounts. Its shares in all existing purchases
    /// are zero.
    pub fn add_user(&mut self, user: String) -> (r: Result<(), ParseError>)
        requires
            old(self).wf(),
        ensures
            final(self).wf(),
            user@.len() == 0 ==> r == Err::<(), ParseError>(ParseError::EmptyUser),
            user@.len() > 0 && holds_name(old(self)@.users, user@) ==> r == Err::<(), ParseError>(
                ParseError::UserAlreadyPresent(user),
            ),
            user@.len() > 0 && !holds_name(old(self)@.users, user@) ==> r is Ok,
            r is Ok ==> old(self)@.adds_user(user@, final(self)@),
            r is Err ==> *final(self) == *old(self),
    {
        if user.as_str().is_empty() {
            return Err(ParseError::EmptyUser);
        }
        let index = match find_name(&self.users, user.as_str()) {
            Ok(i) => {
                proof {
                    assert(self@.users[i as int] == user@);
                }
                return Err(ParseError::UserAlreadyPresent(user));
            },
            Err(index) => index,
        };
        let ghost old_view = self@;
        let ghost name = user@;
        self.users.insert(index, user);
        proof {
            lemma_insert_sorted(old_view.users, name, index as int);
            assert(name_views(self.users@) =~= old_view.users.insert(index as int, name));
        }
        let n = self.purchases.len();
        let ulen = self.users.len();
        let mut k: usize = 0;
        while k < n
            invariant
                ulen == self.users@.len(),
                n == self.purchases@.len(),
                n == old_view.purchases.len(),
                0 <= k <= n,
                old_view == old(self)@,
                old_view.wf(),
                index <= old_view.users.len(),
                name_views(self.users@) == old_view.users.insert(index as int, name),
                forall|j: int| 0 <= j < n ==> (#[trigger] self.purchases@[j]).wf(),
                forall|j: int|
                    0 <= j < k ==> #[trigger] self.purchases@[j]@
                        == old_view.purchases[j].with_user_inserted(index as int),
                forall|j: int|
                    k <= j < n ==> #[trigger] self.purchases@[j]@ == old_view.purchases[j],
            decreases n - k,
        {
            let ghost before = self.purchases@[k as int];
            assert(before@ == old_view.purchases[k as int]);
            assert(old_view.purchases[k as int].who_paid < old_view.users.len());
            assert(frac_views(before.benef_to_shares@).len() == before.benef_to_shares@.len());
            assert(self.users@.len() == name_views(self.users@).len());
            assert(before.who_paid < ulen - 1);
            let p = &mut self.purchases[k];
            p.benef_to_shares.insert(index, Rational::zero());
            if p.who_paid >= index {
                p.who_paid = p.who_paid + 1;
            }
            proof {
                assert(frac_views(p.benef_to_shares@) =~= frac_views(
                    before.benef_to_shares@,
                ).insert(index as int, Frac::of_int(0)));
            }
            k = k + 1;
        }
        proof {
            let new_view = self@;
            let expect = old_view.user_inserted(name, index as int);
            assert(new_view.purchases =~= expect.purchases);
            assert(new_view == expect);
            assert(old_view.adds_user(name, new_view));
        }
        Ok(())
    }
    /// Remove a user who paid no purchase and holds no positive share.
    pub fn remove_user(&mut self, user: String) -> (r: Result<(), ParseError>)
        requires
            old(self).wf(),
        ensures
            final(self).wf(),
            !holds_name(old(self)@.users, user@) ==> r == Err::<(), ParseError>(
                ParseError::UnknownUser(user),
            ),
            holds_name(old(self)@.users, user@) && old(self)@.user_has_data(user@) ==> r == Err::<
                (),
                ParseError,
            >(ParseError::UserHasData(user)),
            holds_name(old(self)@.users, user@) && !old(self)@.user_has_data(user@) ==> r is Ok,
            r is Ok ==> old(self)@.removes_user(user@, final(self)@),
            r is Err ==> *final(self) == *old(self),
    {
        let index = match find_name(&self.users, user.as_str()) {
            Err(_) => return Err(ParseError::UnknownUser(user)),
            Ok(index) => index,
        };
        let ghost old_view = self@;
        let ghost name = user@;
        proof {
            assert(old_view.users[index as int] == name);
        }
        let n = self.purchases.len();
        let mut k: usize = 0;
        while k < n
            invariant
                n == self.purchases@.len(),
                n == old_view.purchases.len(),
                0 <= k <= n,
                *self == *old(self),
                self.wf(),
                name == user@,
                old_view.users[index as int] == name,
                old_view == old(self)@,
                old_view.wf(),
                index < old_view.users.len(),
                forall|j: int| 0 <= j < k ==> !(#[trigger] old_view.purchases[j]).involves(index as int),
            decreases n - k,
        {
            let p = &self.purchases[k];
            proof {
                assert(p@ == old_view.purchases[k as int]);
                assert(old_view.purchases[k as int].who_paid < old_view.users.len());
                assert(p@.shares[index as int] == p.benef_to_shares@[index as int]@);
                assert(self.purchases@[k as int].wf());
                assert(p.benef_to_shares@[index as int].wf());
            }
            if p.who_paid == index || p.benef_to_shares[index].is_positive() {
                proof {
                    assert(old_view.purchases[k as int].involves(index as int));
                    assert(old_view.has_data(index as int));
                    assert(old_view.user_has_data(name));
                    assert(holds_name(old_view.users, name));
                }
                return Err(ParseError::UserHasData(user));
            }
            k = k + 1;
        }
        proof {
            assert(!old_view.has_data(index as int));
            assert forall|i: int| 0 <= i < old_view.users.len() && old_view.users[i] == name implies i
                == index by {
                lemma_sorted_unique(old_view.users, i, index as int);
            }
        }
        self.users.remove(index);
        proof {
            assert(name_views(self.users@) =~= old_view.users.remove(index as int));
            assert forall|a: int, b: int| 0 <= a < b < old_view.users.len() - 1 implies name_lt(
                #[trigger] old_view.users.remove(index as int)[a],
                #[trigger] old_view.users.remove(index as int)[b],
            ) by {
                let t = old_view.users.remove(index as int);
                if b < index {
                } else if a < index {
                    assert(t[b] == old_view.users[b + 1]);
                } else {
                    assert(t[a] == old_view.users[a + 1]);
                    assert(t[b] == old_view.users[b + 1]);
                }
            }
        }
        let mut k: usize = 0;
        while k < n
            invariant
                n == self.purchases@.len(),
                n == old_view.purchases.len(),
                0 <= k <= n,
                old_view == old(self)@,
                old_view.wf(),
                !old_view.has_data(index as int),
                index < old_view.users.len(),
                name_views(self.users@) == old_view.users.remove(index as int),
                forall|j: int| 0 <= j < n ==> (#[trigger] self.purchases@[j]).wf(),
                forall|j: int|
                    0 <= j < k ==> #[trigger] self.purchases@[j]@
                        == old_view.purchases[j].with_user_removed(index as int),
                forall|j: int|
                    k <= j < n ==> #[trigger] self.purchases@[j]@ == old_view.purchases[j],
            decreases n - k,
        {
            let ghost before = self.purchases@[k as int];
            assert(before@ == old_view.purchases[k as int]);
            assert(old_view.purchases[k as int].who_paid < old_view.users.len());
            assert(!old_view.purchases[k as int].involves(index as int));
            assert(frac_views(before.benef_to_shares@).len() == before.benef_to_shares@.len());
            let p = &mut self.purchases[k];
            p.benef_to_shares.remove(index);
            if p.who_paid >= index {
                p.who_paid = p.who_paid - 1;
            }
            proof {
                assert(frac_views(p.benef_to_shares@) =~= frac_views(
                    before.benef_to_shares@,
                ).remove(index as int));
            }
            k = k + 1;
        }
        proof {
            let new_view = self@;
            let expect = old_view.user_removed(index as int);
            assert(new_view.purchases =~= expect.purchases);
            assert(new_view == expect);
            assert(old_view.removes_user(name, new_view));
        }
        Ok(())
    }
    /// Add a purchase with all shares zero, to be filled in later. Returns
    /// its index.
    pub fn add_purchase(&mut self, descr: String, who_paid: String, amount: Rational) -> (r:
        Result<usize, ParseError>)
        requires
            old(self).wf(),
            amount.wf(),
        ensures
            final(self).wf(),
            who_paid@.len() == 0 ==> r == Err::<usize, ParseError>(ParseError::EmptyUser),
            who_paid@.len() > 0 && descr@.len() == 0 ==> r == Err::<usize, ParseError>(
                ParseError::EmptyDescr,
            ),
            who_paid@.len() > 0 && descr@.len() > 0 && !holds_name(old(self)@.users, who_paid@)
                ==> r == Err::<usize, ParseError>(ParseError::UnknownUser(who_paid)),
            who_paid@.len() > 0 && descr@.len() > 0 && holds_name(old(self)@.users, who_paid@)
                ==> r == Ok::<usize, ParseError>(old(self)@.purchases.len() as usize),
            r is Ok ==> exists|u: int|
                0 <= u < old(self)@.users.len() && old(self)@.users[u] == who_paid@
                    && final(self)@ == (AccountsView {
                    users: old(self)@.users,
                    purchases: old(self)@.purchases.push(
                        PurchaseView {
                            descr: descr@,
                            who_paid: u,
                            amount: amount@,
                            shares: zero_shares(old(self)@.users.len()),
                        },
                    ),
                }),
            r is Err ==> *final(self) == *old(self),
    {
        if who_paid.as_str().is_empty() {
            return Err(ParseError::EmptyUser);
        }
        if descr.as_str().is_empty() {
            return Err(ParseError::EmptyDescr);
        }
        let who = match find_name(&self.users, who_paid.as_str()) {
            Err(_) => return Err(ParseError::UnknownUser(who_paid)),
            Ok(index) => index,
        };
        let n = self.users.len();
        let mut shares: Vec<Rational> = Vec::new();
        while shares.len() < n
            invariant
                shares@.len() <= n,
                forall|u: int| 0 <= u < shares@.len() ==> (#[trigger] shares@[u]).wf(),
                frac_views(shares@) == zero_shares(shares@.len()),
            decreases n - shares@.len(),
        {
            let ghost before = shares@;
            let z = Rational::zero();
            shares.push(z);
            proof {
                assert(shares@ == before.push(z));
                assert forall|u: int| 0 <= u < shares@.len() implies #[trigger] frac_views(
                    shares@,
                )[u] == zero_shares(shares@.len())[u] by {
                    if u < before.len() {
                        assert(frac_views(before)[u] == zero_shares(before.len())[u]);
                    }
                }
                assert(frac_views(shares@) =~= zero_shares(shares@.len()));
            }
        }
        let ghost old_view = self@;
        let purchase = ParsedPurchase { descr, who_paid: who, amount, benef_to_shares: shares };
        self.purchases.push(purchase);
        proof {
            assert(self@.users == old_view.users);
            assert(old_view.users[who as int] == who_paid@);
            assert(self@.purchases =~= old_view.purchases.push(purchase@));
            assert(self.purchases@[old_view.purchases.len() as int] == purchase);
            assert forall|k: int| 0 <= k < self.purchases@.len() implies (
            #[trigger] self.purchases@[k]).wf() by {
                if k < old_view.purchases.len() {
                    assert(old(self).purchases@[k].wf());
                }
            }
        }
        Ok(self.purchases.len() - 1)
    }

    /// Set the share of `user` in the purchase at `purchase_idx`.
    pub fn set_purchase_user_share(&mut self, purchase_idx: usize, user: String, share: Rational) -> (r:
        Result<(), ParseError>)
        requires
            old(self).wf(),
            share.wf(),
        ensures
            final(self).wf(),
            !holds_name(old(self)@.users, user@) ==> r == Err::<(), ParseError>(
                ParseError::UnknownUser(user),
            ),
            holds_name(old(self)@.users, user@) && purchase_idx >= old(self)@.purchases.len() ==> r
                == Err::<(), ParseError>(ParseError::InvalidPurchase(purchase_idx)),
            holds_name(old(self)@.users, user@) && purchase_idx < old(self)@.purchases.len() ==> r
                is Ok,
            r is Ok ==> exists|u: int|
                0 <= u < old(self)@.users.len() && old(self)@.users[u] == user@ && final(self)@ == (
                AccountsView {
                    users: old(self)@.users,
                    purchases: old(self)@.purchases.update(
                        purchase_idx as int,
                        PurchaseView {
                            shares: old(self)@.purchases[purchase_idx as int].shares.update(
                                u,
                                share@,
                            ),
                            ..old(self)@.purchases[purchase_idx as int]
                        },
                    ),
                }),
            r is Err ==> *final(self) == *old(self),
    {
        let u = match find_name(&self.users, user.as_str()) {
            Err(_) => return Err(ParseError::UnknownUser(user)),
            Ok(index) => index,
        };
        if purchase_idx >= self.purchases.len() {
            proof {
                assert(old(self)@.users[u as int] == user@);
            }
            return Err(ParseError::InvalidPurchase(purchase_idx));
        }
        let ghost old_view = self@;
        let ghost before = self.purchases@[purchase_idx as int];
        proof {
            assert(old_view.users[u as int] == user@);
            assert(old_view.purchases[purchase_idx as int].who_paid < old_view.users.len());
            assert(frac_views(before.benef_to_shares@).len() == before.benef_to_shares@.len());
            assert(self.purchases@[purchase_idx as int].wf());
        }
        self.purchases[purchase_idx].benef_to_shares.set(u, share);
        proof {
            let p = self.purchases@[purchase_idx as int];
            assert(frac_views(p.benef_to_shares@) =~= frac_views(before.benef_to_shares@).update(
                u as int,
                share@,
            ));
            assert(self@.purchases =~= old_view.purchases.update(purchase_idx as int, p@));
            assert forall|k: int| 0 <= k < self.purchases@.len() implies (
            #[trigger] self.purchases@[k]).wf() by {
                if k != purchase_idx {
                    assert(old(self).purchases@[k].wf());
                }
            }
        }
        Ok(())
    }

    /// Change the user who paid for a purchase.
    pub fn change_purchase_creditor(&mut self, purchase_idx: usize, who_paid: String) -> (r: Result<
        (),
        ParseError,
    >)
        requires
            old(self).wf(),
        ensures
            final(self).wf(),
            !holds_name(old(self)@.users, who_paid@) ==> r == Err::<(), ParseError>(
                ParseError::UnknownUser(who_paid),
            ),
            holds_name(old(self)@.users, who_paid@) && purchase_idx >= old(self)@.purchases.len()
                ==> r == Err::<(), ParseError>(ParseError::InvalidPurchase(purchase_idx)),
            holds_name(old(self)@.users, who_paid@) && purchase_idx < old(self)@.purchases.len()
                ==> r is Ok,
            r is Ok ==> exists|u: int|
                0 <= u < old(self)@.users.len() && old(self)@.users[u] == who_paid@
                    && final(self)@ == (AccountsView {
                    users: old(self)@.users,
                    purchases: old(self)@.purchases.update(
                        purchase_idx as int,
                        PurchaseView { who_paid: u, ..old(self)@.purchases[purchase_idx as int] },
                    ),
                }),
            r is Err ==> *final(self) == *old(self),
    {
        let u = match find_name(&self.users, who_paid.as_str()) {
            Err(_) => return Err(ParseError::UnknownUser(who_paid)),
            Ok(index) => index,
        };
        if purchase_idx >= self.purchases.len() {
            proof {
                assert(old(self)@.users[u as int] == who_paid@);
            }
            return Err(ParseError::InvalidPurchase(purchase_idx));
        }
        let ghost old_view = self@;
        proof {
            assert(old_view.users[u as int] == who_paid@);
            assert(old_view.purchases[purchase_idx as int].who_paid < old_view.users.len());
            assert(self.purchases@[purchase_idx as int].wf());
        }
        self.purchases[purchase_idx].who_paid = u;
        proof {
            let p = self.purchases@[purchase_idx as int];
            assert(self@.purchases =~= old_view.purchases.update(purchase_idx as int, p@));
            assert forall|k: int| 0 <= k < self.purchases@.len() implies (
            #[trigger] self.purchases@[k]).wf() by {
                if k != purchase_idx {
                    assert(old(self).purchases@[k].wf());
                }
            }
        }
        Ok(())
    }

    /// Change the amount of a purchase.
    pub fn change_purchase_amount(&mut self, purchase_idx: usize, amount: Rational) -> (r: Result<
        (),
        ParseError,
    >)
        requires
            old(self).wf(),
            amount.wf(),
        ensures
            final(self).wf(),
            purchase_idx >= old(self)@.purchases.len() ==> r == Err::<(), ParseError>(
                ParseError::InvalidPurchase(purchase_idx),
            ),
            purchase_idx < old(self)@.purchases.len() ==> r is Ok && final(self)@ == (AccountsView {
                users: old(self)@.users,
                purchases: old(self)@.purchases.update(
                    purchase_idx as int,
                    PurchaseView { amount: amount@, ..old(self)@.purchases[purchase_idx as int] },
                ),
            }),
            r is Err ==> *final(self) == *old(self),
    {
        if purchase_idx >= self.purchases.len() {
            return Err(ParseError::InvalidPurchase(purchase_idx));
        }
        let ghost old_view = self@;
        proof {
            assert(old_view.purchases[purchase_idx as int].who_paid < old_view.users.len());
            assert(self.purchases@[purchase_idx as int].wf());
        }
        self.purchases[purchase_idx].amount = amount;
        proof {
            let p = self.purchases@[purchase_idx as int];
            assert(self@.purchases =~= old_view.purchases.update(purchase_idx as int, p@));
            assert forall|k: int| 0 <= k < self.purchases@.len() implies (
            #[trigger] self.purchases@[k]).wf() by {
                if k != purchase_idx {
                    assert(old(self).purchases@[k].wf());
                }
            }
        }
        Ok(())
    }

    /// Remove a purchase; later purchases move down by one index.
    pub fn remove_purchase(&mut self, purchase_idx: usize) -> (r: Result<(), ParseError>)
        requires
            old(self).wf(),
        ensures
            final(self).wf(),
            purchase_idx >= old(self)@.purchases.len() ==> r == Err::<(), ParseError>(
                ParseError::InvalidPurchase(purchase_idx),
            ),
            purchase_idx < old(self)@.purchases.len() ==> r is Ok && final(self)@ == (AccountsView {
                users: old(self)@.users,
                purchases: old(self)@.purchases.remove(purchase_idx as int),
            }),
            r is Err ==> *final(self) == *old(self),
    {
        if purchase_idx >= self.purchases.len() {
            return Err(ParseError::InvalidPurchase(purchase_idx));
        }
        let ghost old_view = self@;
        self.purchases.remove(purchase_idx);
        proof {
            assert(self@.purchases =~= old_view.purchases.remove(purchase_idx as int));
            assert forall|k: int| 0 <= k < self.purchases@.len() implies (
            #[trigger] self.purchases@[k]).wf() by {
                if k < purchase_idx {
                    assert(old(self).purchases@[k].wf());
                } else {
                    assert(old(self).purchases@[k + 1].wf());
                }
            }
            assert forall|k: int| 0 <= k < self@.purchases.len() implies 0 <= #[trigger] self@.purchases[k].who_paid < self@.users.len() && self@.purchases[k].shares.len() == self@.users.len() by {
                if k < purchase_idx {
                    assert(old_view.purchases[k].who_paid < old_view.users.len());
                } else {
                    assert(old_view.purchases[k + 1].who_paid < old_view.users.len());
                }
            }
        }
        Ok(())
    }

    proof fn lemma_view_dens(&self)
        requires
            self.wf(),
        ensures
            self@.positive_dens(),
    {
        assert forall|k: int| 0 <= k < self@.purchases.len() implies (
        #[trigger] self@.purchases[k]).positive_dens() by {
            let p = self.purchases@[k];
            assert(p.wf());
            assert forall|u: int| 0 <= u < p@.shares.len() implies (#[trigger] p@.shares[u]).den
                > 0 by {
                assert(p.benef_to_shares@[u].wf());
            }
        }
    }

    /// The sum of the shares of purchase `k`, or `None` on overflow.
    fn purchase_total(&self, k: usize) -> (r: Option<Rational>)
        requires
            self.wf(),
            k < self@.purchases.len(),
        ensures
            self@.purchases[k as int].totals_fit() ==> r is Some,
            r matches Some(t) ==> t.wf() && t@.equiv(self@.purchases[k as int].total_shares())
                && within(t@, self@.purchases[k as int].total_bound(
                self@.purchases[k as int].shares.len() as int,
            )),
    {
        let p = &self.purchases[k];
        let ghost shares = p@.shares;
        let n = p.benef_to_shares.len();
        proof {
            assert(p.wf());
            assert(shares.len() == n);
            assert(p@ == self@.purchases[k as int]);
        }
        let mut total = Rational::zero();
        let mut j: usize = 0;
        while j < n
            invariant
                p.wf(),
                shares == p@.shares,
                n == shares.len(),
                n == p.benef_to_shares@.len(),
                j <= n,
                total.wf(),
                total@.equiv(frac_sum(shares.subrange(0, j as int))),
                frac_sum(shares.subrange(0, j as int)).den > 0,
                within(total@, p@.total_bound(j as int)),
                p@ == self@.purchases[k as int],
            decreases n - j,
        {
            let share = p.benef_to_shares[j];
            proof {
                assert(p.benef_to_shares@[j as int].wf());
                assert(shares[j as int] == share@);
                lemma_plus_within(total@, share@, p@.total_bound(j as int), bound_of(share@));
                assert(p@.total_bound(j + 1) == p@.total_bound(j as int).plus(bound_of(share@)));
                if p@.totals_fit() {
                    assert(fits_frac(p@.total_bound(j + 1)));
                    assert(abs(total@.num * share@.den + share@.num * total@.den) <= i64::MAX);
                }
            }
            let next = match total.checked_add(&share) {
                Some(t) => t,
                None => return None,
            };
            proof {
                let prev = frac_sum(shares.subrange(0, j as int));
                assert(within(next@, p@.total_bound(j + 1)));
                assert(shares.subrange(0, j + 1).drop_last() =~= shares.subrange(0, j as int));
                assert(frac_sum(shares.subrange(0, j + 1)) == prev.plus(share@));
                lemma_plus_equiv(total@, prev, share@, share@);
                lemma_nonzero_product(total@.den, share@.den);
                lemma_equiv_trans(next@, total@.plus(share@), prev.plus(share@));
                assert(prev.den * share@.den > 0) by (nonlinear_arith)
                    requires
                        prev.den > 0,
                        share@.den > 0,
                {}
            }
            total = next;
            j = j + 1;
        }
        proof {
            assert(shares.subrange(0, n as int) =~= shares);
        }
        Some(total)
    }

    /// The balance of each user, in the order of `users`: positive where the
    /// group owes them. `None` where a value overflows 64-bit parts.
    pub fn user_balances(&self) -> (r: Option<Vec<Rational>>)
        requires
            self.wf(),
        ensures
            self@.balances_fit() ==> r is Some,
            r matches Some(b) ==> b@.len() == self@.users.len() && forall|u: int|
                0 <= u < b@.len() ==> (#[trigger] b@[u]).wf() && b@[u]@.equiv(self@.balance(u)),
    {
        let ghost a = self@;
        proof {
            self.lemma_view_dens();
        }
        let n_users = self.users.len();
        let mut balances: Vec<Rational> = Vec::new();
        while balances.len() < n_users
            invariant
                balances@.len() <= n_users,
                forall|u: int|
                    0 <= u < balances@.len() ==> (#[trigger] balances@[u]).wf() && balances@[u]@
                        == Frac::of_int(0),
            decreases n_users - balances@.len(),
        {
            balances.push(Rational::zero());
        }
        let n = self.purchases.len();
        let mut k: usize = 0;
        while k < n
            invariant
                self.wf(),
                a == self@,
                a.wf(),
                a.positive_dens(),
                n == a.purchases.len(),
                n_users == a.users.len(),
                k <= n,
                balances@.len() == n_users,
                forall|u: int|
                    0 <= u < n_users ==> (#[trigger] balances@[u]).wf() && balances@[u]@.equiv(
                        a.balance_upto(k as int, u),
                    ) && within(balances@[u]@, a.balance_bound(k as int, u)),
            decreases n - k,
        {
            proof {
                assert(a.balances_fit() ==> a.purchase_fits(k as int));
            }
            let total = match self.purchase_total(k) {
                Some(t) => t,
                None => return None,
            };
            let p = &self.purchases[k];
            let ghost pv = a.purchases[k as int];
            proof {
                assert(p.wf());
                assert(p@ == pv);
                assert(0 <= pv.who_paid < n_users);
                assert(pv.positive_dens());
                assert(pv.shares.len() == n_users);
                lemma_frac_sum_den(pv.shares);
                lemma_equiv_zero(total@, pv.total_shares());
            }
            if !total.is_zero() {
                let mut u: usize = 0;
                while u < n_users
                    invariant
                        self.wf(),
                        a == self@,
                        a.wf(),
                        a.positive_dens(),
                        p.wf(),
                        p@ == pv,
                        pv == a.purchases[k as int],
                        pv.positive_dens(),
                        pv.counted(),
                        pv.total_shares().den > 0,
                        total.wf(),
                        total@.equiv(pv.total_shares()),
                        !total@.is_zero(),
                        n == a.purchases.len(),
                        n_users == a.users.len(),
                        n_users == p.benef_to_shares@.len(),
                        k < n,
                        u <= n_users,
                        balances@.len() == n_users,
                        pv.shares.len() == n_users,
                        within(total@, pv.total_bound(n_users as int)),
                        a.balances_fit() ==> a.purchase_fits(k as int),
                        forall|v: int|
                            0 <= v < u ==> (#[trigger] balances@[v]).wf() && balances@[v]@.equiv(
                                a.balance_upto(k as int, v).minus(pv.debit(v)),
                            ) && within(
                                balances@[v]@,
                                a.balance_bound(k as int, v).plus(pv.debit_bound(v)),
                            ),
                        forall|v: int|
                            u <= v < n_users ==> (#[trigger] balances@[v]).wf()
                                && balances@[v]@.equiv(a.balance_upto(k as int, v)) && within(
                                balances@[v]@,
                                a.balance_bound(k as int, v),
                            ),
                    decreases n_users - u,
                {
                    let share = p.benef_to_shares[u];
                    proof {
                        assert(p.benef_to_shares@[u as int].wf());
                        assert(pv.shares[u as int] == share@);
                        assert(a.balances_fit() ==> a.step_fits(k as int, u as int));
                        lemma_times_within(
                            p.amount@,
                            share@,
                            bound_of(pv.amount),
                            bound_of(share@),
                        );
                    }
                    let part = match p.amount.checked_mul(&share) {
                        Some(x) => x,
                        None => return None,
                    };
                    proof {
                        assert(within(part@, pv.part_bound(u as int)));
                        lemma_over_within(
                            part@,
                            total@,
                            pv.part_bound(u as int),
                            pv.total_bound(n_users as int),
                        );
                    }
                    let debit = match part.checked_div(&total) {
                        Some(x) => x,
                        None => return None,
                    };
                    let old_b = balances[u];
                    proof {
                        assert(within(debit@, pv.debit_bound(u as int)));
                        lemma_plus_within(
                            old_b@,
                            debit@,
                            a.balance_bound(k as int, u as int),
                            pv.debit_bound(u as int),
                        );
                    }
                    let new_b = match old_b.checked_sub(&debit) {
                        Some(x) => x,
                        None => return None,
                    };
                    proof {
                        let prod = pv.amount.times(share@);
                        let d = pv.debit(u as int);
                        let prev = a.balance_upto(k as int, u as int);
                        lemma_times_equiv(part@, prod, total@, pv.total_shares());
                        lemma_nonzero_product(part@.den, total@.num);
                        lemma_equiv_trans(debit@, part@.over(total@), d);
                        lemma_plus_equiv(old_b@, prev, debit@, d);
                        lemma_nonzero_product(old_b@.den, debit@.den);
                        lemma_equiv_trans(new_b@, old_b@.minus(debit@), prev.minus(d));
                    }
                    balances.set(u, new_b);
                    u = u + 1;
                }
                let payer = p.who_paid;
                let old_b = balances[payer];
                proof {
                    let v = payer as int;
                    assert(a.balances_fit() ==> a.step_fits(k as int, v));
                    lemma_plus_within(
                        old_b@,
                        p.amount@,
                        a.balance_bound(k as int, v).plus(pv.debit_bound(v)),
                        bound_of(pv.amount),
                    );
                }
                let new_b = match old_b.checked_add(&p.amount) {
                    Some(x) => x,
                    None => return None,
                };
                proof {
                    let v = payer as int;
                    let prev = a.balance_upto(k as int, v).minus(pv.debit(v));
                    lemma_plus_equiv(old_b@, prev, p.amount@, pv.amount);
                    lemma_nonzero_product(old_b@.den, p.amount@.den);
                    lemma_equiv_trans(new_b@, old_b@.plus(p.amount@), prev.plus(pv.amount));
                }
                balances.set(payer, new_b);
                proof {
                    assert forall|v: int| 0 <= v < n_users implies (#[trigger] balances@[v]).wf()
                        && balances@[v]@.equiv(a.balance_upto(k + 1, v)) && within(
                        balances@[v]@,
                        a.balance_bound(k + 1, v),
                    ) by {
                        let prev = a.balance_upto(k as int, v).minus(pv.debit(v));
                        assert(a.balance_upto(k + 1, v) == prev.plus(pv.credit(v)));
                        if v != payer {
                            assert(prev.plus(Frac::of_int(0)) == prev);
                        }
                    }
                }
            }
            k = k + 1;
        }
        Some(balances)
    }

}


/// A purchase in the sparse, editable form: payer by name, amounts as
/// decimal text, and shares only for the users named. Names among the share
/// pairs are meant to be unique; where one repeats, its last pair counts.
#[derive(Debug, Clone, PartialEq)]
pub struct Purchase {
    pub descr: String,
    pub who: String,
    pub amount: String,
    pub benef_to_shares: Vec<(String, String)>,
}

/// Ledger in the sparse, editable form; users may repeat.
#[derive(Debug, Clone, PartialEq)]
pub struct SerializedAccounts {
    pub users: Vec<String>,
    pub purchases: Vec<Purchase>,
}

/// The share text given for `name`: the last pair that names it.
pub open spec fn share_text(pairs: Seq<(String, String)>, name: Seq<char>) -> Option<Seq<char>>
    decreases pairs.len(),
{
    if pairs.len() == 0 {
        None
    } else if pairs.last().0@ == name {
        Some(pairs.last().1@)
    } else {
        share_text(pairs.drop_last(), name)
    }
}

/// The value that a share text gives, zero where none is given.
pub open spec fn share_value(text: Option<Seq<char>>) -> Frac {
    match text {
        Some(t) => decimal_value(trimmed(t)),
        None => Frac::of_int(0),
    }
}

/// The purchase can be read against the users `users`.
pub open spec fn purchase_readable(users: Seq<Seq<char>>, p: Purchase) -> bool {
    &&& holds_name(users, p.who@)
    &&& decimal_text_ok(p.amount@)
    &&& forall|j: int|
        0 <= j < p.benef_to_shares@.len() ==> holds_name(users, #[trigger] p.benef_to_shares@[j].0@)
            && decimal_text_ok(p.benef_to_shares@[j].1@)
}

/// `q` is what `p` reads as against `users`.
pub open spec fn purchase_read(users: Seq<Seq<char>>, p: Purchase, q: PurchaseView) -> bool {
    &&& q.descr == p.descr@
    &&& 0 <= q.who_paid < users.len()
    &&& users[q.who_paid] == p.who@
    &&& q.amount.equiv(decimal_value(trimmed(p.amount@)))
    &&& q.shares.len() == users.len()
    &&& forall|u: int|
        0 <= u < users.len() ==> (#[trigger] q.shares[u]).equiv(
            share_value(share_text(p.benef_to_shares@, users[u])),
        )
}

/// `e` is the error for the first of `pairs` that cannot be read: an unknown
/// name, then a text that is not a rational.
pub open spec fn pairs_error(users: Seq<Seq<char>>, pairs: Seq<(String, String)>, e: ParseError) -> bool
    decreases pairs.len(),
{
    if pairs.len() == 0 {
        false
    } else if !holds_name(users, pairs[0].0@) {
        e == ParseError::UnknownUser(pairs[0].0)
    } else if !decimal_text_ok(pairs[0].1@) {
        e is RationalParsingFailed
    } else {
        pairs_error(users, pairs.drop_first(), e)
    }
}

/// `e` is the error for purchase `p`, checked in order: its payer, its
/// amount, then its share pairs.
pub open spec fn purchase_error(users: Seq<Seq<char>>, p: Purchase, e: ParseError) -> bool {
    if !holds_name(users, p.who@) {
        e == ParseError::UnknownUser(p.who)
    } else if !decimal_text_ok(p.amount@) {
        e is RationalParsingFailed
    } else {
        pairs_error(users, p.benef_to_shares@, e)
    }
}

proof fn lemma_pairs_error_at(users: Seq<Seq<char>>, pairs: Seq<(String, String)>, j: int, e: ParseError)
    requires
        0 <= j < pairs.len(),
        forall|l: int| 0 <= l < j ==> holds_name(users, #[trigger] pairs[l].0@) && decimal_text_ok(pairs[l].1@),
        !holds_name(users, pairs[j].0@) ==> e == ParseError::UnknownUser(pairs[j].0),
        holds_name(users, pairs[j].0@) ==> !decimal_text_ok(pairs[j].1@) && e is RationalParsingFailed,
    ensures
        pairs_error(users, pairs, e),
    decreases j,
{
    if j > 0 {
        let rest = pairs.drop_first();
        assert(holds_name(users, pairs[0].0@) && decimal_text_ok(pairs[0].1@));
        assert forall|l: int| 0 <= l < j - 1 implies holds_name(users, #[trigger] rest[l].0@)
            && decimal_text_ok(rest[l].1@) by {
            assert(rest[l] == pairs[l + 1]);
        }
        lemma_pairs_error_at(users, rest, j - 1, e);
    }
}

/// `users` reads the purchases of `self` up to purchase `k`, which is the
/// first that fails, with error `e`.
pub open spec fn first_purchase_error(
    users: Seq<Seq<char>>,
    purchases: Seq<Purchase>,
    e: ParseError,
) -> bool {
    exists|k: int|
        0 <= k < purchases.len() && (forall|j: int|
            0 <= j < k ==> purchase_readable(users, #[trigger] purchases[j])) && !purchase_readable(
            users,
            purchases[k],
        ) && purchase_error(users, purchases[k], e)
}

/// The users of `v`, sorted and without duplicates.
fn sorted_unique(v: &Vec<String>) -> (r: Vec<String>)
    ensures
        sorted_names(name_views(r@)),
        forall|n: Seq<char>| holds_name(name_views(r@), n) <==> holds_name(name_views(v@), n),
{
    let mut r: Vec<String> = Vec::new();
    let mut k: usize = 0;
    while k < v.len()
        invariant
            k <= v@.len(),
            sorted_names(name_views(r@)),
            forall|n: Seq<char>|
                holds_name(name_views(r@), n) <==> holds_name(name_views(v@).subrange(0, k as int), n),
        decreases v@.len() - k,
    {
        let ghost before = name_views(r@);
        let ghost seen = name_views(v@).subrange(0, k as int);
        let ghost next = name_views(v@).subrange(0, k + 1);
        assert(next =~= seen.push(v@[k as int]@));
        match find_name(&r, v[k].as_str()) {
            Ok(idx) => {
                proof {
                    assert(before[idx as int] == v@[k as int]@);
                    assert forall|n: Seq<char>| holds_name(before, n) <==> holds_name(next, n) by {
                        assert(holds_name(before, n) <==> holds_name(seen, n));
                        if holds_name(next, n) {
                            let i = choose|i: int| 0 <= i < next.len() && next[i] == n;
                            if i < k {
                                assert(seen[i] == n);
                            } else {
                                assert(before[idx as int] == n);
                            }
                        }
                        if holds_name(seen, n) {
                            let i = choose|i: int| 0 <= i < seen.len() && seen[i] == n;
                            assert(next[i] == n);
                        }
                    }
                }
            },
            Err(i) => {
                let name = v[k].clone();
                r.insert(i, name);
                proof {
                    lemma_insert_sorted(before, name@, i as int);
                    assert(name_views(r@) =~= before.insert(i as int, name@));
                    let after = name_views(r@);
                    assert forall|n: Seq<char>| holds_name(after, n) <==> holds_name(next, n) by {
                        assert(holds_name(before, n) <==> holds_name(seen, n));
                        if holds_name(next, n) {
                            let j = choose|j: int| 0 <= j < next.len() && next[j] == n;
                            if j < k {
                                assert(seen[j] == n);
                                assert(holds_name(before, n));
                                let l = choose|l: int| 0 <= l < before.len() && before[l] == n;
                                if l < i {
                                    assert(after[l] == n);
                                } else {
                                    assert(after[l + 1] == n);
                                }
                            } else {
                                assert(after[i as int] == n);
                            }
                        }
                        if holds_name(after, n) {
                            let j = choose|j: int| 0 <= j < after.len() && after[j] == n;
                            if j == i {
                                assert(next[k as int] == n);
                            } else {
                                let l = if j < i { j } else { j - 1 };
                                assert(before[l] == n);
                                assert(holds_name(seen, n));
                                let m = choose|m: int| 0 <= m < seen.len() && seen[m] == n;
                                assert(next[m] == n);
                            }
                        }
                    }
                }
            },
        }
        k = k + 1;
    }
    proof {
        assert(name_views(v@).subrange(0, v@.len() as int) =~= name_views(v@));
    }
    r
}

impl SerializedAccounts {
    /// The users, sorted and without duplicates.
    pub open spec fn user_set(self, users: Seq<Seq<char>>) -> bool {
        &&& sorted_names(users)
        &&& forall|n: Seq<char>| holds_name(users, n) <==> holds_name(name_views(self.users@), n)
    }

    /// Read the sparse form into a ledger: users sorted and deduplicated,
    /// payers and share names resolved to user indices, texts read as
    /// rationals.
    pub fn parse(self) -> (r: Result<ParsedAccounts, ParseError>)
        ensures
            r is Ok <==> exists|users: Seq<Seq<char>>|
                self.user_set(users) && forall|k: int|
                    0 <= k < self.purchases@.len() ==> purchase_readable(
                        users,
                        #[trigger] self.purchases@[k],
                    ),
            r matches Err(e) ==> forall|users: Seq<Seq<char>>|
                #[trigger] self.user_set(users) ==> first_purchase_error(
                    users,
                    self.purchases@,
                    e,
                ),
            r matches Ok(a) ==> {
                &&& a.wf()
                &&& self.user_set(a@.users)
                &&& a@.purchases.len() == self.purchases@.len()
                &&& forall|k: int|
                    0 <= k < self.purchases@.len() ==> purchase_read(
                        a@.users,
                        #[trigger] self.purchases@[k],
                        a@.purchases[k],
                    )
            },
    {
        let users = sorted_unique(&self.users);
        let ghost uv = name_views(users@);
        proof {
            assert forall|us: Seq<Seq<char>>| #[trigger] self.user_set(us) implies us == uv by {
                lemma_same_sorted_names(us, uv);
            }
        }
        let n_users = users.len();
        let mut purchases: Vec<ParsedPurchase> = Vec::new();
        let mut k: usize = 0;
        while k < self.purchases.len()
            invariant
                uv == name_views(users@),
                self.user_set(uv),
                forall|us: Seq<Seq<char>>| #[trigger] self.user_set(us) ==> us == uv,
                n_users == users@.len(),
                k <= self.purchases@.len(),
                purchases@.len() == k,
                forall|j: int| 0 <= j < k ==> purchase_readable(uv, #[trigger] self.purchases@[j]),
                forall|j: int|
                    0 <= j < k ==> #[trigger] purchases@[j].wf() && purchase_read(
                        uv,
                        self.purchases@[j],
                        purchases@[j]@,
                    ),
            decreases self.purchases@.len() - k,
        {
            let p = &self.purchases[k];
            let ghost sp = self.purchases@[k as int];
            let who = match find_name(&users, p.who.as_str()) {
                Ok(i) => {
                    proof {
                        assert(uv[i as int] == sp.who@);
                    }
                    i
                },
                Err(_) => {
                    let who = p.who.clone();
                    proof {
                        assert(!purchase_readable(uv, self.purchases@[k as int]));
                        assert(purchase_error(uv, sp, ParseError::UnknownUser(who)));
                        assert(first_purchase_error(uv, self.purchases@, ParseError::UnknownUser(who)));
                    }
                    return Err(ParseError::UnknownUser(who));
                },
            };
            let amount = match rational_from_str(p.amount.as_str()) {
                Ok(a) => a,
                Err(e) => {
                    proof {
                        assert(!purchase_readable(uv, self.purchases@[k as int]));
                        assert(holds_name(uv, sp.who@));
                        assert(purchase_error(uv, sp, ParseError::RationalParsingFailed(e)));
                        assert(first_purchase_error(uv, self.purchases@, ParseError::RationalParsingFailed(e)));
                    }
                    return Err(ParseError::RationalParsingFailed(e));
                },
            };
            let mut shares: Vec<Rational> = Vec::new();
            while shares.len() < n_users
                invariant
                    shares@.len() <= n_users,
                    forall|u: int|
                        0 <= u < shares@.len() ==> (#[trigger] shares@[u]).wf() && shares@[u]@
                            == Frac::of_int(0),
                decreases n_users - shares@.len(),
            {
                shares.push(Rational::zero());
            }
            let pairs = &p.benef_to_shares;
            let mut j: usize = 0;
            while j < pairs.len()
                invariant
                    uv == name_views(users@),
                    sorted_names(uv),
                    forall|us: Seq<Seq<char>>| #[trigger] self.user_set(us) ==> us == uv,
                    k < self.purchases@.len(),
                    sp == self.purchases@[k as int],
                    pairs@ == sp.benef_to_shares@,
                    holds_name(uv, sp.who@),
                    decimal_text_ok(sp.amount@),
                    forall|jj: int| 0 <= jj < k ==> purchase_readable(uv, #[trigger] self.purchases@[jj]),
                    n_users == users@.len(),
                    shares@.len() == n_users,
                    j <= pairs@.len(),
                    forall|l: int|
                        0 <= l < j ==> holds_name(uv, #[trigger] pairs@[l].0@) && decimal_text_ok(
                            pairs@[l].1@,
                        ),
                    forall|u: int|
                        0 <= u < n_users ==> (#[trigger] shares@[u]).wf() && shares@[u]@.equiv(
                            share_value(share_text(pairs@.subrange(0, j as int), uv[u])),
                        ),
                decreases pairs@.len() - j,
            {
                let pair = &pairs[j];
                let u = match find_name(&users, pair.0.as_str()) {
                    Ok(i) => {
                        proof {
                            assert(uv[i as int] == pair.0@);
                        }
                        i
                    },
                    Err(_) => {
                        let name = pair.0.clone();
                        proof {
                            assert(!holds_name(uv, sp.benef_to_shares@[j as int].0@));
                            assert(!purchase_readable(uv, self.purchases@[k as int]));
                            lemma_pairs_error_at(uv, pairs@, j as int, ParseError::UnknownUser(name));
                            assert(purchase_error(uv, sp, ParseError::UnknownUser(name)));
                            assert(first_purchase_error(uv, self.purchases@, ParseError::UnknownUser(name)));
                        }
                        return Err(ParseError::UnknownUser(name));
                    },
                };
                let v = match rational_from_str(pair.1.as_str()) {
                    Ok(v) => v,
                    Err(e) => {
                        proof {
                            assert(!decimal_text_ok(sp.benef_to_shares@[j as int].1@));
                            assert(!purchase_readable(uv, self.purchases@[k as int]));
                            lemma_pairs_error_at(uv, pairs@, j as int, ParseError::RationalParsingFailed(e));
                            assert(purchase_error(uv, sp, ParseError::RationalParsingFailed(e)));
                            assert(first_purchase_error(uv, self.purchases@, ParseError::RationalParsingFailed(e)));
                        }
                        return Err(ParseError::RationalParsingFailed(e));
                    },
                };
                proof {
                    assert(uv[u as int] == pairs@[j as int].0@);
                    assert(holds_name(uv, pairs@[j as int].0@));
                    assert(decimal_text_ok(pairs@[j as int].1@));
                }
                let ghost before = shares@;
                shares.set(u, v);
                proof {
                    let prev = pairs@.subrange(0, j as int);
                    let next = pairs@.subrange(0, j + 1);
                    assert(next.drop_last() =~= prev);
                    assert forall|w: int| 0 <= w < n_users implies (#[trigger] shares@[w]).wf()
                        && shares@[w]@.equiv(share_value(share_text(next, uv[w]))) by {
                        if w == u {
                            assert(share_text(next, uv[w]) == Some(pair.1@));
                        } else {
                            assert(uv[w] != uv[u as int]) by {
                                if uv[w] == uv[u as int] {
                                    lemma_sorted_unique(uv, w, u as int);
                                }
                            }
                            assert(share_text(next, uv[w]) == share_text(prev, uv[w]));
                            assert(before[w] == shares@[w]);
                        }
                    }
                }
                assert forall|l: int| 0 <= l < j + 1 implies holds_name(
                    uv,
                    #[trigger] pairs@[l].0@,
                ) && decimal_text_ok(pairs@[l].1@) by {
                    if l < j {
                    }
                }
                j = j + 1;
            }
            proof {
                assert(pairs@.subrange(0, pairs@.len() as int) =~= pairs@);
                assert(holds_name(uv, sp.who@));
                assert(decimal_text_ok(sp.amount@));
            }
            let purchase = ParsedPurchase {
                descr: p.descr.clone(),
                who_paid: who,
                amount,
                benef_to_shares: shares,
            };
            proof {
                assert(purchase_readable(uv, self.purchases@[k as int]));
                assert forall|u: int| 0 <= u < purchase.benef_to_shares@.len() implies (
                #[trigger] purchase.benef_to_shares@[u]).wf() by {}
                assert(purchase@.shares.len() == n_users);
                assert forall|u: int| 0 <= u < uv.len() implies (#[trigger] purchase@.shares[u]).equiv(
                    share_value(share_text(p.benef_to_shares@, uv[u])),
                ) by {
                    assert(purchase@.shares[u] == shares@[u]@);
                }
                assert(purchase_read(uv, self.purchases@[k as int], purchase@));
            }
            purchases.push(purchase);
            k = k + 1;
        }
        proof {
            assert forall|k: int| 0 <= k < purchases@.len() implies 0
                <= #[trigger] purchases@[k]@.who_paid < uv.len()
                && purchases@[k]@.shares.len() == uv.len() && purchases@[k].wf() by {
                assert(purchases@[k].wf() && purchase_read(uv, self.purchases@[k], purchases@[k]@));
            }
        }
        let accounts = ParsedAccounts { users, purchases };
        proof {
            assert(accounts@.users == uv);
            assert(accounts.purchases@ == purchases@);
            assert forall|k: int| 0 <= k < accounts@.purchases.len() implies 0
                <= #[trigger] accounts@.purchases[k].who_paid < accounts@.users.len()
                && accounts@.purchases[k].shares.len() == accounts@.users.len() by {
                assert(accounts@.purchases[k] == purchases@[k]@);
            }
            assert forall|k: int| 0 <= k < accounts.purchases@.len() implies (
            #[trigger] accounts.purchases@[k]).wf() by {
                assert(purchases@[k]@.who_paid < uv.len());
            }
            assert forall|k: int| 0 <= k < self.purchases@.len() implies purchase_read(
                accounts@.users,
                #[trigger] self.purchases@[k],
                accounts@.purchases[k],
            ) by {
                assert(accounts@.purchases[k] == purchases@[k]@);
                assert(purchases@[k].wf() && purchase_read(uv, self.purchases@[k], purchases@[k]@));
            }
        }
        Ok(accounts)
    }
}

impl Default for ParsedAccounts {
    fn default() -> (r: ParsedAccounts)
        ensures
            r.wf(),
            r@.users.len() == 0,
            r@.purchases.len() == 0,
    {
        ParsedAccounts::new()
    }
}

impl ParsedAccounts {
    /// The sparse form of the ledger: names for payers, decimal texts with
    /// at most `nb_max_decimals` decimals, and only the nonzero shares.
    pub fn as_serializable(&self, nb_max_decimals: u8) -> (r: SerializedAccounts)
        requires
            self.wf(),
        ensures
            name_views(r.users@) == self@.users,
            r.purchases@.len() == self@.purchases.len(),
            forall|k: int|
                0 <= k < r.purchases@.len() ==> #[trigger] r.purchases@[k].descr@
                    == self@.purchases[k].descr && r.purchases@[k].who@ == self@.users[self@.purchases[k].who_paid]
                    && r.purchases@[k].amount@ == decimal_text(
                    self@.purchases[k].amount,
                    nb_max_decimals as nat,
                ) && sparse_shares(
                    r.purchases@[k].benef_to_shares@,
                    self@.users,
                    self@.purchases[k].shares,
                    nb_max_decimals as nat,
                ),
    {
        let mut users: Vec<String> = Vec::new();
        let mut u: usize = 0;
        while u < self.users.len()
            invariant
                u <= self.users@.len(),
                users@.len() == u,
                forall|l: int| 0 <= l < u ==> #[trigger] users@[l] == self.users@[l],
            decreases self.users@.len() - u,
        {
            let name = self.users[u].clone();
            users.push(name);
            u = u + 1;
        }
        proof {
            assert(users@ =~= self.users@);
        }
        let mut purchases: Vec<Purchase> = Vec::new();
        let mut k: usize = 0;
        while k < self.purchases.len()
            invariant
                self.wf(),
                k <= self.purchases@.len(),
                purchases@.len() == k,
                forall|j: int|
                    0 <= j < k ==> #[trigger] purchases@[j].descr@ == self@.purchases[j].descr
                        && purchases@[j].who@ == self@.users[self@.purchases[j].who_paid]
                        && purchases@[j].amount@ == decimal_text(
                        self@.purchases[j].amount,
                        nb_max_decimals as nat,
                    ) && sparse_shares(
                        purchases@[j].benef_to_shares@,
                        self@.users,
                        self@.purchases[j].shares,
                        nb_max_decimals as nat,
                    ),
            decreases self.purchases@.len() - k,
        {
            let p = &self.purchases[k];
            proof {
                assert(p@ == self@.purchases[k as int]);
                assert(self@.purchases[k as int].who_paid < self@.users.len());
                assert(p.wf());
            }
            let mut pairs: Vec<(String, String)> = Vec::new();
            let n = p.benef_to_shares.len();
            let mut u: usize = 0;
            while u < n
                invariant
                    p.wf(),
                    n == p.benef_to_shares@.len(),
                    n == self@.users.len(),
                    u <= n,
                    sparse_shares(
                        pairs@,
                        self@.users.subrange(0, u as int),
                        p@.shares.subrange(0, u as int),
                        nb_max_decimals as nat,
                    ),
                decreases n - u,
            {
                let share = p.benef_to_shares[u];
                proof {
                    assert(p.benef_to_shares@[u as int].wf());
                }
                let ghost before = pairs@;
                if !share.is_zero() {
                    let name = self.users[u].clone();
                    let text = rational_to_string(share, nb_max_decimals);
                    pairs.push((name, text));
                }
                proof {
                    let us = self@.users.subrange(0, u + 1);
                    let ss = p@.shares.subrange(0, u + 1);
                    assert(us.drop_last() =~= self@.users.subrange(0, u as int));
                    assert(ss.drop_last() =~= p@.shares.subrange(0, u as int));
                    assert(us.last() == self.users@[u as int]@);
                    assert(ss.last() == share@);
                    if !share@.is_zero() {
                        assert(pairs@.drop_last() =~= before);
                    }
                }
                u = u + 1;
            }
            proof {
                assert(self@.users.subrange(0, n as int) =~= self@.users);
                assert(p@.shares.subrange(0, n as int) =~= p@.shares);
            }
            let purchase = Purchase {
                descr: p.descr.clone(),
                who: self.users[p.who_paid].clone(),
                amount: rational_to_string(p.amount, nb_max_decimals),
                benef_to_shares: pairs,
            };
            purchases.push(purchase);
            k = k + 1;
        }
        SerializedAccounts { users, purchases }
    }
}

/// `pairs` holds, in the order of `users`, each user with a nonzero share
/// and the decimal text of that share.
pub open spec fn sparse_shares(
    pairs: Seq<(String, String)>,
    users: Seq<Seq<char>>,
    shares: Seq<Frac>,
    n: nat,
) -> bool
    decreases users.len(),
{
    if users.len() == 0 || shares.len() != users.len() {
        pairs.len() == 0 && shares.len() == users.len()
    } else if shares.last().is_zero() {
        sparse_shares(pairs, users.drop_last(), shares.drop_last(), n)
    } else {
        pairs.len() > 0 && pairs.last().0@ == users.last() && pairs.last().1@ == decimal_text(
            shares.last(),
            n,
        ) && sparse_shares(pairs.drop_last(), users.drop_last(), shares.drop_last(), n)
    }
}

proof fn lemma_purchase_insert_remove(p: PurchaseView, i: int)
    requires
        0 <= i <= p.shares.len(),
    ensures
        p.with_user_inserted(i).with_user_removed(i) == p,
{
    assert(p.with_user_inserted(i).with_user_removed(i).shares =~= p.shares);
}

proof fn lemma_insert_remove_view(a: AccountsView, name: Seq<char>, i: int)
    requires
        0 <= i <= a.users.len(),
        forall|k: int| 0 <= k < a.purchases.len() ==> #[trigger] a.purchases[k].shares.len() == a.users.len(),
    ensures
        a.user_inserted(name, i).user_removed(i) == a,
{
    let c = a.user_inserted(name, i).user_removed(i);
    assert(c.users =~= a.users);
    assert forall|k: int| 0 <= k < a.purchases.len() implies #[trigger] c.purchases[k]
        == a.purchases[k] by {
        lemma_purchase_insert_remove(a.purchases[k], i);
    }
    assert(c.purchases =~= a.purchases);
}

/// Adding a new user and then removing that same user gives back the ledger
/// exactly: the same users in the same order, the same payer indices and the
/// same share vectors.
pub proof fn lemma_add_then_remove_user(
    a: AccountsView,
    name: Seq<char>,
    b: AccountsView,
    c: AccountsView,
)
    requires
        a.wf(),
        a.adds_user(name, b),
        b.removes_user(name, c),
    ensures
        c == a,
{
    let i = choose|i: int| insert_position(a.users, name, i) && b == a.user_inserted(name, i);
    let j = choose|j: int|
        0 <= j < b.users.len() && b.users[j] == name && c == b.user_removed(j);
    lemma_insert_sorted(a.users, name, i);
    assert(b.users[i] == name);
    lemma_sorted_unique(b.users, i, j);
    assert forall|k: int| 0 <= k < a.purchases.len() implies #[trigger] a.purchases[k].shares.len()
        == a.users.len() by {
        assert(0 <= a.purchases[k].who_paid < a.users.len());
    }
    lemma_insert_remove_view(a, name, i);
}
} // verus!
