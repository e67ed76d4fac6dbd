//! What holds of the balances of a whole ledger.
use crate::accounts::{frac_sum, zero_shares, AccountsView, PurchaseView};
use crate::rational::{lemma_nonzero_product, lemma_plus_equiv, lemma_times_equiv, lemma_equiv_trans, Frac};
use vstd::prelude::*;

verus! {

/// `f(0) + f(1) + ... + f(n - 1)`, from the left.
pub open spec fn sum_to(f: spec_fn(int) -> Frac, n: int) -> Frac
    decreases n,
{
    if n <= 0 {
        Frac::of_int(0)
    } else {
        sum_to(f, n - 1).plus(f(n - 1))
    }
}

pub open spec fn negated(x: Frac) -> Frac {
    Frac { num: -x.num, den: x.den }
}

proof fn lemma_plus_assoc(x: Frac, y: Frac, z: Frac)
    ensures
        x.plus(y).plus(z) == x.plus(y.plus(z)),
{
    assert((x.num * y.den + y.num * x.den) * z.den == x.num * y.den * z.den + y.num * x.den * z.den)
        by (nonlinear_arith);
    assert((y.num * z.den + z.num * y.den) * x.den == y.num * z.den * x.den + z.num * y.den * x.den)
        by (nonlinear_arith);
    assert(x.num * y.den * z.den == x.num * (y.den * z.den)) by (nonlinear_arith);
    assert(y.num * x.den * z.den == y.num * z.den * x.den) by (nonlinear_arith);
    assert(z.num * (x.den * y.den) == z.num * y.den * x.den) by (nonlinear_arith);
    assert((x.den * y.den) * z.den == x.den * (y.den * z.den)) by (nonlinear_arith);
}

proof fn lemma_plus_comm(x: Frac, y: Frac)
    ensures
        x.plus(y) == y.plus(x),
{
    assert(x.num * y.den + y.num * x.den == y.num * x.den + x.num * y.den);
    assert(x.den * y.den == y.den * x.den) by (nonlinear_arith);
}

proof fn lemma_plus_zero(x: Frac)
    ensures
        x.plus(Frac::of_int(0)) == x,
        Frac::of_int(0).plus(x) == x,
{
}

/// `(a + b) + (c + d) == (a + c) + (b + d)`.
proof fn lemma_plus_swap(a: Frac, b: Frac, c: Frac, d: Frac)
    ensures
        a.plus(b).plus(c.plus(d)) == a.plus(c).plus(b.plus(d)),
{
    lemma_plus_assoc(a.plus(b), c, d);
    lemma_plus_assoc(a, b, c);
    lemma_plus_comm(b, c);
    lemma_plus_assoc(a, c, b);
    lemma_plus_assoc(a.plus(c), b, d);
}

proof fn lemma_sum_ext(f: spec_fn(int) -> Frac, g: spec_fn(int) -> Frac, n: int)
    requires
        forall|u: int| 0 <= u < n ==> #[trigger] f(u) == g(u),
    ensures
        sum_to(f, n) == sum_to(g, n),
    decreases n,
{
    if n > 0 {
        lemma_sum_ext(f, g, n - 1);
    }
}

proof fn lemma_sum_plus(f: spec_fn(int) -> Frac, g: spec_fn(int) -> Frac, n: int)
    ensures
        sum_to(|u: int| f(u).plus(g(u)), n) == sum_to(f, n).plus(sum_to(g, n)),
    decreases n,
{
    if n > 0 {
        lemma_sum_plus(f, g, n - 1);
        lemma_plus_swap(sum_to(f, n - 1), sum_to(g, n - 1), f(n - 1), g(n - 1));
    }
}

proof fn lemma_sum_negated(g: spec_fn(int) -> Frac, n: int)
    ensures
        sum_to(|u: int| negated(g(u)), n) == negated(sum_to(g, n)),
    decreases n,
{
    if n > 0 {
        lemma_sum_negated(g, n - 1);
        let a = sum_to(g, n - 1);
        let b = g(n - 1);
        assert(-a.num * b.den + -b.num * a.den == -(a.num * b.den + b.num * a.den))
            by (nonlinear_arith);
    }
}

/// Only the payer's term is not zero.
proof fn lemma_sum_credit(p: PurchaseView, n: int)
    requires
        0 <= p.who_paid,
    ensures
        sum_to(|u: int| p.credit(u), n) == if p.who_paid < n {
            p.amount
        } else {
            Frac::of_int(0)
        },
    decreases n,
{
    if n > 0 {
        lemma_sum_credit(p, n - 1);
        lemma_plus_zero(p.amount);
    }
}

proof fn lemma_times_distrib(k: Frac, a: Frac, b: Frac)
    ensures
        k.times(a).plus(k.times(b)).equiv(k.times(a.plus(b))),
{
    let x = a.num * b.den + b.num * a.den;
    let kk = k.num * k.den;
    assert((k.num * a.num) * (k.den * b.den) == kk * (a.num * b.den)) by (nonlinear_arith)
        requires
            kk == k.num * k.den,
    ;
    assert((k.num * b.num) * (k.den * a.den) == kk * (b.num * a.den)) by (nonlinear_arith)
        requires
            kk == k.num * k.den,
    ;
    assert(kk * (a.num * b.den) + kk * (b.num * a.den) == kk * x) by (nonlinear_arith)
        requires
            x == a.num * b.den + b.num * a.den,
    ;
    assert((k.num * k.den * x) * (k.den * (a.den * b.den)) == (k.num * x) * ((k.den * a.den) * (
    k.den * b.den))) by (nonlinear_arith);
}

proof fn lemma_sum_scaled(k: Frac, s: spec_fn(int) -> Frac, n: int)
    requires
        k.den != 0,
        forall|u: int| 0 <= u < n ==> #[trigger] s(u).den != 0,
    ensures
        sum_to(|u: int| k.times(s(u)), n).equiv(k.times(sum_to(s, n))),
        sum_to(|u: int| k.times(s(u)), n).den != 0,
        sum_to(s, n).den != 0,
    decreases n,
{
    if n > 0 {
        lemma_sum_scaled(k, s, n - 1);
        let a = sum_to(s, n - 1);
        let b = s(n - 1);
        let l = sum_to(|u: int| k.times(s(u)), n - 1);
        assert(sum_to(|u: int| k.times(s(u)), n) == l.plus(k.times(b)));
        lemma_plus_equiv(l, k.times(a), k.times(b), k.times(b));
        lemma_times_distrib(k, a, b);
        lemma_nonzero_product(k.den, a.den);
        lemma_nonzero_product(k.den, b.den);
        lemma_nonzero_product(k.den * a.den, k.den * b.den);
        lemma_equiv_trans(l.plus(k.times(b)), k.times(a).plus(k.times(b)), k.times(a.plus(b)));
        lemma_nonzero_product(l.den, k.den * b.den);
        lemma_nonzero_product(a.den, b.den);
        assert(sum_to(s, n) == a.plus(b));
        assert(l.plus(k.times(b)).equiv(k.times(a.plus(b))));
        assert(sum_to(|u: int| k.times(s(u)), n).equiv(k.times(sum_to(s, n))));
    } else {
        assert(k.times(Frac::of_int(0)).num == 0);
        assert(sum_to(|u: int| k.times(s(u)), n) == Frac::of_int(0));
        assert(sum_to(s, n) == Frac::of_int(0));
        assert(sum_to(|u: int| k.times(s(u)), n).equiv(k.times(sum_to(s, n))));
    }
}

proof fn lemma_frac_sum_is_sum(s: Seq<Frac>, n: int)
    requires
        0 <= n <= s.len(),
    ensures
        frac_sum(s.subrange(0, n)) == sum_to(|u: int| s[u], n),
    decreases n,
{
    if n > 0 {
        lemma_frac_sum_is_sum(s, n - 1);
        assert(s.subrange(0, n).drop_last() =~= s.subrange(0, n - 1));
    }
}

/// The debits of a counted purchase add up to its amount.
proof fn lemma_debits_sum(p: PurchaseView)
    requires
        p.positive_dens(),
        p.counted(),
    ensures
        sum_to(|u: int| p.debit(u), p.shares.len() as int).equiv(p.amount),
        sum_to(|u: int| p.debit(u), p.shares.len() as int).den != 0,
{
    let n = p.shares.len() as int;
    let t = p.total_shares();
    let k = p.amount.over(t);
    let s = |u: int| p.shares[u];
    crate::accounts::lemma_frac_sum_den(p.shares);
    lemma_frac_sum_is_sum(p.shares, n);
    assert(p.shares.subrange(0, n) =~= p.shares);
    assert(sum_to(s, n) == t);
    lemma_nonzero_product(p.amount.den, t.num);
    assert forall|u: int| 0 <= u < n implies #[trigger] s(u).den != 0 by {
        assert(p.shares[u].den > 0);
    }
    lemma_sum_scaled(k, s, n);
    assert forall|u: int| 0 <= u < n implies p.debit(u) == (|v: int| k.times(s(v)))(u) by {
        let a = p.amount;
        let w = p.shares[u];
        assert((a.num * w.num) * t.den == (a.num * t.den) * w.num) by (nonlinear_arith);
        assert((a.den * w.den) * t.num == (a.den * t.num) * w.den) by (nonlinear_arith);
    }
    lemma_sum_ext(|u: int| p.debit(u), |v: int| k.times(s(v)), n);
    let a = p.amount;
    assert(((a.num * t.den) * t.num) * a.den == a.num * ((a.den * t.num) * t.den))
        by (nonlinear_arith);
    lemma_nonzero_product(a.den * t.num, t.den);
    lemma_equiv_trans(sum_to(|u: int| p.debit(u), n), k.times(t), a);
}

/// The balances of all users sum to zero: each counted purchase credits its
/// payer with its amount and debits the users, by share, the same amount in
/// all; a purchase whose shares sum to zero moves nothing.
pub proof fn lemma_balances_sum_to_zero(a: AccountsView)
    requires
        a.wf(),
        a.positive_dens(),
    ensures
        sum_to(|u: int| a.balance(u), a.users.len() as int).is_zero(),
{
    let m = a.purchases.len() as int;
    lemma_partial_sums_zero(a, m);
    lemma_sum_ext(|u: int| a.balance(u), |u: int| a.balance_upto(m, u), a.users.len() as int);
}

proof fn lemma_partial_sums_zero(a: AccountsView, k: int)
    requires
        a.wf(),
        a.positive_dens(),
        0 <= k <= a.purchases.len(),
    ensures
        sum_to(|u: int| a.balance_upto(k, u), a.users.len() as int).is_zero(),
    decreases k,
{
    let n = a.users.len() as int;
    if k == 0 {
        lemma_sum_ext(|u: int| a.balance_upto(k, u), |u: int| Frac::of_int(0), n);
        lemma_sum_zeros(n);
        assert(sum_to(|u: int| a.balance_upto(k, u), n) == Frac::of_int(0));
    } else {
        lemma_partial_sums_zero(a, k - 1);
        let p = a.purchases[k - 1];
        assert(0 <= p.who_paid < n);
        assert(p.positive_dens());
        let b = |u: int| a.balance_upto(k - 1, u);
        if p.counted() {
            let d = |u: int| p.debit(u);
            let nd = |u: int| negated(d(u));
            let c = |u: int| p.credit(u);
            let bn = |u: int| b(u).plus(nd(u));
            let all = |u: int| bn(u).plus(c(u));
            assert forall|u: int| 0 <= u < n implies #[trigger] a.balance_upto(k, u) == all(u) by {
                let x = b(u);
                let y = p.debit(u);
                assert(x.num * y.den - y.num * x.den == x.num * y.den + -y.num * x.den)
                    by (nonlinear_arith);
                assert(x.minus(y) == x.plus(negated(y)));
            }
            lemma_sum_ext(|u: int| a.balance_upto(k, u), all, n);
            lemma_sum_plus(bn, c, n);
            lemma_sum_ext(all, |u: int| bn(u).plus(c(u)), n);
            lemma_sum_plus(b, nd, n);
            lemma_sum_ext(bn, |u: int| b(u).plus(nd(u)), n);
            lemma_sum_negated(d, n);
            lemma_sum_ext(nd, |u: int| negated(d(u)), n);
            lemma_sum_credit(p, n);
            lemma_sum_ext(c, |u: int| p.credit(u), n);
            lemma_debits_sum(p);
            lemma_sum_ext(d, |u: int| p.debit(u), n);
            assert(p.shares.len() == n);
            let s = sum_to(b, n);
            let sd = sum_to(d, n);
            let am = p.amount;
            assert(sum_to(|u: int| a.balance_upto(k, u), n) == sum_to(all, n));
            assert(sum_to(all, n) == sum_to(bn, n).plus(sum_to(c, n)));
            assert(sum_to(bn, n) == s.plus(sum_to(nd, n)));
            assert(sum_to(nd, n) == negated(sd));
            assert(sum_to(c, n) == am);
            assert(sd.equiv(am));
            assert(s.num == 0);
            let sum = s.plus(negated(sd)).plus(am);
            assert(sum.num == (s.num * sd.den + -sd.num * s.den) * am.den + am.num * (s.den * sd.den));
            assert(sum.num == s.den * (am.num * sd.den - sd.num * am.den)) by (nonlinear_arith)
                requires
                    sum.num == (s.num * sd.den + -sd.num * s.den) * am.den + am.num * (s.den * sd.den),
                    s.num == 0,
            ;
            assert(sum.num == 0);
        } else {
            lemma_sum_ext(|u: int| a.balance_upto(k, u), b, n);
        }
    }
}

proof fn lemma_sum_zeros(n: int)
    ensures
        sum_to(|u: int| Frac::of_int(0), n) == Frac::of_int(0),
    decreases n,
{
    if n > 0 {
        lemma_sum_zeros(n - 1);
    }
}

proof fn lemma_balance_den(a: AccountsView, k: int, u: int)
    requires
        a.wf(),
        a.positive_dens(),
        0 <= k <= a.purchases.len(),
        0 <= u < a.users.len(),
    ensures
        a.balance_upto(k, u).den != 0,
    decreases k,
{
    if k > 0 {
        lemma_balance_den(a, k - 1, u);
        let p = a.purchases[k - 1];
        assert(p.positive_dens());
        if p.counted() {
            crate::accounts::lemma_frac_sum_den(p.shares);
            let prev = a.balance_upto(k - 1, u);
            let d = p.debit(u);
            assert(0 <= p.who_paid < a.users.len());
            assert(p.shares[u].den > 0);
            lemma_nonzero_product(p.amount.den, p.shares[u].den);
            lemma_nonzero_product(p.amount.den * p.shares[u].den, p.total_shares().num);
            lemma_nonzero_product(prev.den, d.den);
            lemma_nonzero_product(prev.den * d.den, p.credit(u).den);
        }
    }
}

proof fn lemma_sum_equiv(f: spec_fn(int) -> Frac, g: spec_fn(int) -> Frac, n: int)
    requires
        forall|u: int| 0 <= u < n ==> (#[trigger] f(u)).equiv(g(u)),
        forall|u: int| 0 <= u < n ==> #[trigger] g(u).den != 0,
    ensures
        sum_to(f, n).equiv(sum_to(g, n)),
        sum_to(g, n).den != 0,
    decreases n,
{
    if n > 0 {
        lemma_sum_equiv(f, g, n - 1);
        lemma_plus_equiv(sum_to(f, n - 1), sum_to(g, n - 1), f(n - 1), g(n - 1));
        assert(g(n - 1).den != 0);
        lemma_nonzero_product(sum_to(g, n - 1).den, g(n - 1).den);
    }
}

/// Balances equal, user by user, to those of the ledger (as `user_balances`
/// returns them) sum to zero.
pub proof fn lemma_returned_balances_sum_to_zero(a: AccountsView, bs: Seq<Frac>)
    requires
        a.wf(),
        a.positive_dens(),
        bs.len() == a.users.len(),
        forall|u: int| 0 <= u < bs.len() ==> (#[trigger] bs[u]).equiv(a.balance(u)),
    ensures
        sum_to(|u: int| bs[u], bs.len() as int).is_zero(),
{
    let n = bs.len() as int;
    lemma_balances_sum_to_zero(a);
    let g = |v: int| a.balance(v);
    assert forall|u: int| 0 <= u < n implies #[trigger] g(u).den != 0 by {
        lemma_balance_den(a, a.purchases.len() as int, u);
    }
    let f = |w: int| bs[w];
    assert forall|u: int| 0 <= u < n implies (#[trigger] f(u)).equiv(g(u)) by {
        assert(bs[u].equiv(a.balance(u)));
    }
    lemma_sum_equiv(f, g, n);
    let sb = sum_to(f, n);
    let sa = sum_to(g, n);
    lemma_sum_ext(|u: int| a.balance(u), g, n);
    lemma_sum_ext(|u: int| bs[u], f, n);
    assert(sa.num == 0);
    assert(sb.num * sa.den == 0);
    assert(sb.num == 0) by (nonlinear_arith)
        requires
            sb.num * sa.den == 0,
            sa.den != 0,
    ;
}

proof fn lemma_frac_sum_zeros(n: nat)
    ensures
        frac_sum(zero_shares(n)).num == 0,
    decreases n,
{
    if n > 0 {
        assert(zero_shares(n).drop_last() =~= zero_shares((n - 1) as nat));
        lemma_frac_sum_zeros((n - 1) as nat);
        let prev = frac_sum(zero_shares((n - 1) as nat));
        assert(prev.num * 1 + 0 * prev.den == 0);
    }
}

proof fn lemma_balance_prefix(a: AccountsView, b: AccountsView, k: int, u: int)
    requires
        0 <= k <= a.purchases.len(),
        k <= b.purchases.len(),
        forall|j: int| 0 <= j < k ==> b.purchases[j] == a.purchases[j],
    ensures
        b.balance_upto(k, u) == a.balance_upto(k, u),
    decreases k,
{
    if k > 0 {
        lemma_balance_prefix(a, b, k - 1, u);
    }
}

/// A purchase added with all shares zero, as `add_purchase` adds it, leaves
/// every balance as it was.
pub proof fn lemma_new_purchase_keeps_balances(a: AccountsView, b: AccountsView, p: PurchaseView, u: int)
    requires
        p.shares == zero_shares(a.users.len()),
        b.users == a.users,
        b.purchases == a.purchases.push(p),
    ensures
        b.balance(u) == a.balance(u),
{
    let n = a.purchases.len() as int;
    lemma_frac_sum_zeros(a.users.len());
    assert(!b.purchases[n].counted());
    lemma_balance_prefix(a, b, n, u);
}

/// The index of user `u` after a user is inserted at `i`.
pub open spec fn shifted(u: int, i: int) -> int {
    if u < i {
        u
    } else {
        u + 1
    }
}

proof fn lemma_frac_sum_insert_zero(s: Seq<Frac>, i: int)
    requires
        0 <= i <= s.len(),
    ensures
        frac_sum(s.insert(i, Frac::of_int(0))).equiv(frac_sum(s)),
    decreases s.len(),
{
    let t = s.insert(i, Frac::of_int(0));
    if i == s.len() {
        assert(t.drop_last() =~= s);
        lemma_plus_zero(frac_sum(s));
    } else {
        assert(t.drop_last() =~= s.drop_last().insert(i, Frac::of_int(0)));
        assert(t.last() == s.last());
        lemma_frac_sum_insert_zero(s.drop_last(), i);
        lemma_plus_equiv(
            frac_sum(s.drop_last().insert(i, Frac::of_int(0))),
            frac_sum(s.drop_last()),
            s.last(),
            s.last(),
        );
    }
}

/// After a user is inserted at `i`, each purchase is counted as before,
/// the other users owe and are owed what they were, and the new user owes
/// and is owed nothing.
proof fn lemma_purchase_with_user(p: PurchaseView, i: int)
    requires
        0 <= i <= p.shares.len(),
        p.positive_dens(),
        0 <= p.who_paid < p.shares.len(),
    ensures
        p.with_user_inserted(i).counted() == p.counted(),
        p.with_user_inserted(i).debit(i).num == 0,
        p.with_user_inserted(i).credit(i) == Frac::of_int(0),
        forall|u: int|
            0 <= u < p.shares.len() ==> #[trigger] p.with_user_inserted(i).debit(
                shifted(u, i),
            ).equiv(p.debit(u)) && p.with_user_inserted(i).credit(shifted(u, i))
                == p.credit(u),
{
    let q = p.with_user_inserted(i);
    lemma_frac_sum_insert_zero(p.shares, i);
    crate::accounts::lemma_frac_sum_den(p.shares);
    assert(crate::accounts::positive_dens(q.shares)) by {
        assert forall|u: int| 0 <= u < q.shares.len() implies (#[trigger] q.shares[u]).den > 0 by {
            if u < i {
                assert(q.shares[u] == p.shares[u]);
            } else if u > i {
                assert(q.shares[u] == p.shares[u - 1]);
            }
        }
    }
    crate::accounts::lemma_frac_sum_den(q.shares);
    crate::rational::lemma_equiv_zero(q.total_shares(), p.total_shares());
    assert(q.debit(i).num == p.amount.num * 0 * q.total_shares().den) by {
        assert(q.shares[i] == Frac::of_int(0));
    }
    assert(p.amount.num * 0 * q.total_shares().den == 0) by (nonlinear_arith);
    assert forall|u: int| 0 <= u < p.shares.len() implies #[trigger] q.debit(
        shifted(u, i),
    ).equiv(p.debit(u)) && q.credit(shifted(u, i)) == p.credit(u) by {
        let v = shifted(u, i);
        assert(q.shares[v] == p.shares[u]);
        let m = p.amount.times(p.shares[u]);
        lemma_times_equiv(m, m, q.total_shares(), p.total_shares());
    }
}

proof fn lemma_balances_with_user(a: AccountsView, name: Seq<char>, i: int, k: int)
    requires
        a.wf(),
        a.positive_dens(),
        0 <= i <= a.users.len(),
        0 <= k <= a.purchases.len(),
    ensures
        a.user_inserted(name, i).balance_upto(k, i).num == 0,
        forall|u: int|
            0 <= u < a.users.len() ==> #[trigger] a.user_inserted(name, i).balance_upto(
                k,
                shifted(u, i),
            ).equiv(a.balance_upto(k, u)),
    decreases k,
{
    let b = a.user_inserted(name, i);
    if k > 0 {
        lemma_balances_with_user(a, name, i, k - 1);
        let p = a.purchases[k - 1];
        assert(p.positive_dens());
        assert(0 <= p.who_paid < a.users.len());
        assert(b.purchases[k - 1] == p.with_user_inserted(i));
        lemma_purchase_with_user(p, i);
        let q = p.with_user_inserted(i);
        if p.counted() {
            let prev = b.balance_upto(k - 1, i);
            let d = q.debit(i);
            assert(prev.minus(d).num == prev.num * d.den - d.num * prev.den);
            assert(prev.num * d.den - d.num * prev.den == 0) by (nonlinear_arith)
                requires
                    prev.num == 0,
                    d.num == 0,
            ;
            lemma_plus_zero(prev.minus(d));
            assert forall|u: int| 0 <= u < a.users.len() implies #[trigger] b.balance_upto(
                k,
                shifted(u, i),
            ).equiv(a.balance_upto(k, u)) by {
                let v = shifted(u, i);
                assert(b.balance_upto(k - 1, v).equiv(a.balance_upto(k - 1, u)));
                assert(q.debit(v).equiv(p.debit(u)));
                lemma_plus_equiv(b.balance_upto(k - 1, v), a.balance_upto(k - 1, u), q.debit(v), p.debit(u));
                lemma_plus_equiv(
                    b.balance_upto(k - 1, v).minus(q.debit(v)),
                    a.balance_upto(k - 1, u).minus(p.debit(u)),
                    q.credit(v),
                    p.credit(u),
                );
            }
        } else {
            assert forall|u: int| 0 <= u < a.users.len() implies #[trigger] b.balance_upto(
                k,
                shifted(u, i),
            ).equiv(a.balance_upto(k, u)) by {
                let v = shifted(u, i);
                assert(b.balance_upto(k - 1, v).equiv(a.balance_upto(k - 1, u)));
            }
        }
    }
}

/// Adding a user changes no balance: the new user's is zero, and each other
/// user's, at its shifted index, is what it was.
pub proof fn lemma_new_user_keeps_balances(a: AccountsView, name: Seq<char>, b: AccountsView)
    requires
        a.wf(),
        a.positive_dens(),
        a.adds_user(name, b),
    ensures
        exists|i: int|
            crate::names::insert_position(a.users, name, i) && b == a.user_inserted(name, i)
                && b.balance(i).is_zero() && forall|u: int|
                0 <= u < a.users.len() ==> #[trigger] b.balance(shifted(u, i)).equiv(
                    a.balance(u),
                ),
{
    let i = choose|i: int|
        crate::names::insert_position(a.users, name, i) && b == a.user_inserted(name, i);
    lemma_balances_with_user(a, name, i, a.purchases.len() as int);
    assert(b.purchases.len() == a.purchases.len());
    assert forall|u: int| 0 <= u < a.users.len() implies #[trigger] b.balance(
        shifted(u, i),
    ).equiv(a.balance(u)) by {
        let v = shifted(u, i);
        assert(b.balance_upto(a.purchases.len() as int, v).equiv(
            a.balance_upto(a.purchases.len() as int, u),
        ));
    }
}

proof fn lemma_minus_is_plus_negated(x: Frac, y: Frac)
    ensures
        x.minus(y) == x.plus(negated(y)),
{
    assert(x.num * y.den - y.num * x.den == x.num * y.den + -y.num * x.den) by (nonlinear_arith);
}

/// The step of purchase `p` for user `u`, as the balance takes it.
pub open spec fn step(x: Frac, p: PurchaseView, u: int) -> Frac {
    if p.counted() {
        x.minus(p.debit(u)).plus(p.credit(u))
    } else {
        x
    }
}

proof fn lemma_steps_commute(x: Frac, p: PurchaseView, q: PurchaseView, u: int)
    ensures
        step(step(x, p, u), q, u) == step(step(x, q, u), p, u),
{
    let dp = negated(p.debit(u));
    let dq = negated(q.debit(u));
    let cp = p.credit(u);
    let cq = q.credit(u);
    lemma_minus_is_plus_negated(x, p.debit(u));
    lemma_minus_is_plus_negated(x, q.debit(u));
    lemma_minus_is_plus_negated(x.plus(dp).plus(cp), q.debit(u));
    lemma_minus_is_plus_negated(x.plus(dq).plus(cq), p.debit(u));
    lemma_minus_is_plus_negated(x.minus(p.debit(u)).plus(cp), q.debit(u));
    lemma_minus_is_plus_negated(x.minus(q.debit(u)).plus(cq), p.debit(u));
    // x + dp + cp + dq + cq, regrouped
    lemma_plus_assoc(x, dp, cp);
    lemma_plus_assoc(x.plus(dp.plus(cp)), dq, cq);
    lemma_plus_assoc(x, dp.plus(cp), dq.plus(cq));
    lemma_plus_assoc(x, dq, cq);
    lemma_plus_assoc(x.plus(dq.plus(cq)), dp, cp);
    lemma_plus_assoc(x, dq.plus(cq), dp.plus(cp));
    lemma_plus_comm(dp.plus(cp), dq.plus(cq));
    lemma_plus_assoc(x.plus(dp).plus(cp), dq, cq);
    lemma_plus_assoc(x.plus(dq).plus(cq), dp, cp);
}

proof fn lemma_balance_step(a: AccountsView, k: int, u: int)
    requires
        0 < k,
    ensures
        a.balance_upto(k, u) == step(a.balance_upto(k - 1, u), a.purchases[k - 1], u),
{
}

proof fn lemma_same_after(a: AccountsView, b: AccountsView, k0: int, k: int, u: int)
    requires
        0 <= k0 <= k <= a.purchases.len(),
        b.purchases.len() == a.purchases.len(),
        forall|j: int| k0 <= j < a.purchases.len() ==> b.purchases[j] == a.purchases[j],
        b.balance_upto(k0, u) == a.balance_upto(k0, u),
    ensures
        b.balance_upto(k, u) == a.balance_upto(k, u),
    decreases k,
{
    if k > k0 {
        lemma_same_after(a, b, k0, k - 1, u);
        lemma_balance_step(a, k, u);
        lemma_balance_step(b, k, u);
    }
}

/// Swapping two neighbouring purchases changes no balance; as any
/// reordering is a sequence of such swaps, the order of the purchases does
/// not matter.
pub proof fn lemma_swap_keeps_balances(a: AccountsView, b: AccountsView, j: int, u: int)
    requires
        0 <= j,
        j + 1 < a.purchases.len(),
        b.users == a.users,
        b.purchases == a.purchases.update(j, a.purchases[j + 1]).update(j + 1, a.purchases[j]),
    ensures
        b.balance(u) == a.balance(u),
{
    lemma_balance_prefix(a, b, j, u);
    lemma_balance_step(a, j + 1, u);
    lemma_balance_step(a, j + 2, u);
    lemma_balance_step(b, j + 1, u);
    lemma_balance_step(b, j + 2, u);
    lemma_steps_commute(a.balance_upto(j, u), a.purchases[j], a.purchases[j + 1], u);
    lemma_same_after(a, b, j + 2, a.purchases.len() as int, u);
}

} // verus!
