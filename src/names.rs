//! User names: their order, and lookup in a sorted list of names.
use std::cmp::Ordering;
use vstd::prelude::*;

verus! {

/// Lexicographic order on names, character by character by code point: the
/// order of `str`, whose byte order in UTF-8 is the code point order.
pub open spec fn name_lt(a: Seq<char>, b: Seq<char>) -> bool
    decreases a.len(),
{
    if b.len() == 0 {
        false
    } else if a.len() == 0 {
        true
    } else if a[0] != b[0] {
        (a[0] as int) < (b[0] as int)
    } else {
        name_lt(a.drop_first(), b.drop_first())
    }
}

/// The names held by a list of strings.
pub open spec fn name_views(v: Seq<String>) -> Seq<Seq<char>> {
    v.map_values(|s: String| s@)
}

/// Names strictly increasing, hence without duplicates.
pub open spec fn sorted_names(s: Seq<Seq<char>>) -> bool {
    forall|i: int, j: int| 0 <= i < j < s.len() ==> name_lt(#[trigger] s[i], #[trigger] s[j])
}

/// The name `n` stands in `s`.
pub open spec fn holds_name(s: Seq<Seq<char>>, n: Seq<char>) -> bool {
    exists|i: int| 0 <= i < s.len() && #[trigger] s[i] == n
}

/// `i` is where `n` goes in sorted `s`: all names before it are smaller, all
/// names from it on are larger.
pub open spec fn insert_position(s: Seq<Seq<char>>, n: Seq<char>, i: int) -> bool {
    &&& 0 <= i <= s.len()
    &&& forall|k: int| 0 <= k < i ==> name_lt(#[trigger] s[k], n)
    &&& forall|k: int| i <= k < s.len() ==> name_lt(n, #[trigger] s[k])
}

/// Inserting a name at its position keeps the names sorted.
pub proof fn lemma_insert_sorted(s: Seq<Seq<char>>, n: Seq<char>, i: int)
    requires
        sorted_names(s),
        insert_position(s, n, i),
    ensures
        sorted_names(s.insert(i, n)),
{
    let t = s.insert(i, n);
    assert forall|a: int, b: int| 0 <= a < b < t.len() implies name_lt(#[trigger] t[a], #[trigger] t[b]) by {
        if b < i {
        } else if b == i {
        } else if a < i {
        } else if a == i {
        } else {
        }
    }
}

/// In sorted names, a name stands at one index only.
pub proof fn lemma_sorted_unique(s: Seq<Seq<char>>, i: int, j: int)
    requires
        sorted_names(s),
        0 <= i < s.len(),
        0 <= j < s.len(),
        s[i] == s[j],
    ensures
        i == j,
{
    if i < j || j < i {
        lemma_name_lt_irreflexive(s[i]);
    }
}

pub proof fn lemma_name_lt_irreflexive(a: Seq<char>)
    ensures
        !name_lt(a, a),
    decreases a.len(),
{
    if a.len() > 0 {
        lemma_name_lt_irreflexive(a.drop_first());
    }
}

pub proof fn lemma_name_lt_transitive(a: Seq<char>, b: Seq<char>, c: Seq<char>)
    requires
        name_lt(a, b),
        name_lt(b, c),
    ensures
        name_lt(a, c),
    decreases a.len(),
{
    if a.len() > 0 && b.len() > 0 && c.len() > 0 && a[0] == b[0] && b[0] == c[0] {
        lemma_name_lt_transitive(a.drop_first(), b.drop_first(), c.drop_first());
    }
}

pub proof fn lemma_name_lt_total(a: Seq<char>, b: Seq<char>)
    ensures
        name_lt(a, b) || name_lt(b, a) || a == b,
    decreases a.len(),
{
    if a.len() > 0 && b.len() > 0 && a[0] == b[0] {
        lemma_name_lt_total(a.drop_first(), b.drop_first());
        if a.drop_first() == b.drop_first() {
            assert(a =~= seq![a[0]] + a.drop_first());
            assert(b =~= seq![b[0]] + b.drop_first());
        }
    } else if a.len() == 0 && b.len() == 0 {
        assert(a =~= b);
    } else if a.len() > 0 && b.len() > 0 {
        assert((a[0] as int) != (b[0] as int));
    }
}

/// Two sorted lists of names that hold the same names are equal.
pub proof fn lemma_same_sorted_names(s: Seq<Seq<char>>, t: Seq<Seq<char>>)
    requires
        sorted_names(s),
        sorted_names(t),
        forall|n: Seq<char>| holds_name(s, n) <==> holds_name(t, n),
    ensures
        s == t,
    decreases s.len() + t.len(),
{
    if s.len() > 0 && t.len() > 0 {
        // the largest names agree
        let a = s.last();
        let b = t.last();
        assert(holds_name(s, a));
        assert(holds_name(t, b));
        let i = choose|i: int| 0 <= i < t.len() && t[i] == a;
        let j = choose|j: int| 0 <= j < s.len() && s[j] == b;
        if a != b {
            lemma_name_lt_total(a, b);
            if name_lt(a, b) {
                // b stands in s at j <= last, so b <= a
                if j < s.len() - 1 {
                    lemma_name_lt_transitive(a, b, a);
                    lemma_name_lt_irreflexive(a);
                }
            } else {
                if i < t.len() - 1 {
                    lemma_name_lt_transitive(b, a, b);
                    lemma_name_lt_irreflexive(b);
                }
            }
        }
        let s2 = s.drop_last();
        let t2 = t.drop_last();
        assert forall|n: Seq<char>| holds_name(s2, n) <==> holds_name(t2, n) by {
            if holds_name(s2, n) {
                let k = choose|k: int| 0 <= k < s2.len() && s2[k] == n;
                assert(name_lt(n, a));
                assert(holds_name(t, n)) by {
                    assert(s[k] == n);
                }
                let l = choose|l: int| 0 <= l < t.len() && t[l] == n;
                if l == t.len() - 1 {
                    lemma_name_lt_irreflexive(a);
                }
                assert(t2[l] == n);
            }
            if holds_name(t2, n) {
                let k = choose|k: int| 0 <= k < t2.len() && t2[k] == n;
                assert(name_lt(n, b));
                assert(holds_name(s, n)) by {
                    assert(t[k] == n);
                }
                let l = choose|l: int| 0 <= l < s.len() && s[l] == n;
                if l == s.len() - 1 {
                    lemma_name_lt_irreflexive(b);
                }
                assert(s2[l] == n);
            }
        }
        lemma_same_sorted_names(s2, t2);
        assert(s =~= s2.push(a));
        assert(t =~= t2.push(b));
    } else if s.len() > 0 {
        assert(holds_name(s, s[0]));
    } else if t.len() > 0 {
        assert(holds_name(t, t[0]));
    } else {
        assert(s =~= t);
    }
}

proof fn lemma_name_lt_common_prefix(a: Seq<char>, b: Seq<char>, i: int)
    requires
        0 <= i <= a.len(),
        i <= b.len(),
        a.subrange(0, i) == b.subrange(0, i),
    ensures
        name_lt(a, b) == name_lt(a.subrange(i, a.len() as int), b.subrange(i, b.len() as int)),
        name_lt(b, a) == name_lt(b.subrange(i, b.len() as int), a.subrange(i, a.len() as int)),
    decreases i,
{
    if i > 0 {
        assert(a[0] == a.subrange(0, i)[0]);
        assert(b[0] == b.subrange(0, i)[0]);
        assert(a.drop_first().subrange(0, i - 1) =~= a.subrange(0, i).drop_first());
        assert(b.drop_first().subrange(0, i - 1) =~= b.subrange(0, i).drop_first());
        lemma_name_lt_common_prefix(a.drop_first(), b.drop_first(), i - 1);
        assert(a.drop_first().subrange(i - 1, a.len() - 1) =~= a.subrange(i, a.len() as int));
        assert(b.drop_first().subrange(i - 1, b.len() - 1) =~= b.subrange(i, b.len() as int));
    } else {
        assert(a.subrange(0, a.len() as int) =~= a);
        assert(b.subrange(0, b.len() as int) =~= b);
    }
}

/// Compare two names in the order `name_lt`, character by character.
fn compare_names(a: &str, b: &str) -> (r: Ordering)
    ensures
        r == Ordering::Less <==> name_lt(a@, b@),
        r == Ordering::Greater <==> name_lt(b@, a@),
        r == Ordering::Equal <==> a@ == b@,
{
    let la = a.unicode_len();
    let lb = b.unicode_len();
    let mut i: usize = 0;
    while i < la && i < lb
        invariant
            la == a@.len(),
            lb == b@.len(),
            i <= la,
            i <= lb,
            a@.subrange(0, i as int) == b@.subrange(0, i as int),
        decreases la - i,
    {
        let ca = a.get_char(i);
        let cb = b.get_char(i);
        if ca != cb {
            proof {
                lemma_name_lt_common_prefix(a@, b@, i as int);
                let ra = a@.subrange(i as int, la as int);
                let rb = b@.subrange(i as int, lb as int);
                assert(ra[0] == ca && rb[0] == cb);
                assert((ca as int) != (cb as int));
            }
            if (ca as u32) < (cb as u32) {
                return Ordering::Less;
            } else {
                return Ordering::Greater;
            }
        }
        proof {
            assert(a@.subrange(0, i + 1) =~= a@.subrange(0, i as int).push(ca));
            assert(b@.subrange(0, i + 1) =~= b@.subrange(0, i as int).push(cb));
        }
        i = i + 1;
    }
    proof {
        lemma_name_lt_common_prefix(a@, b@, i as int);
        if la == lb {
            assert(a@ =~= a@.subrange(0, i as int));
            assert(b@ =~= b@.subrange(0, i as int));
        }
        if a@ == b@ {
            assert(la == lb);
        }
    }
    if la < lb {
        Ordering::Less
    } else if la > lb {
        Ordering::Greater
    } else {
        Ordering::Equal
    }
}

/// Binary search of `name` in sorted `names`: `Ok(i)` where it stands at `i`,
/// else `Err(i)` with `i` the position where inserting it keeps the order.
pub fn find_name(names: &Vec<String>, name: &str) -> (r: Result<usize, usize>)
    requires
        sorted_names(name_views(names@)),
    ensures
        match r {
            Ok(i) => i < names@.len() && names@[i as int]@ == name@,
            Err(i) => !holds_name(name_views(names@), name@) && insert_position(
                name_views(names@),
                name@,
                i as int,
            ),
        },
{
    let mut lo: usize = 0;
    let mut hi: usize = names.len();
    while lo < hi
        invariant
            sorted_names(name_views(names@)),
            lo <= hi <= names@.len(),
            forall|k: int| 0 <= k < lo ==> name_lt(#[trigger] name_views(names@)[k], name@),
            forall|k: int| hi <= k < names@.len() ==> name_lt(name@, #[trigger] name_views(names@)[k]),
        decreases hi - lo,
    {
        let mid = lo + (hi - lo) / 2;
        assert(name_views(names@)[mid as int] == names@[mid as int]@);
        match compare_names(names[mid].as_str(), name) {
            Ordering::Less => {
                assert forall|k: int| 0 <= k < mid + 1 implies name_lt(
                    #[trigger] name_views(names@)[k],
                    name@,
                ) by {
                    if k < mid {
                        lemma_name_lt_transitive(name_views(names@)[k], name_views(names@)[mid as int], name@);
                    }
                }
                lo = mid + 1;
            },
            Ordering::Greater => {
                assert forall|k: int| mid <= k < names@.len() implies name_lt(
                    name@,
                    #[trigger] name_views(names@)[k],
                ) by {
                    if k > mid {
                        lemma_name_lt_transitive(name@, name_views(names@)[mid as int], name_views(names@)[k]);
                    }
                }
                hi = mid;
            },
            Ordering::Equal => {
                return Ok(mid);
            },
        }
    }
    assert forall|k: int| 0 <= k < names@.len() implies #[trigger] name_views(names@)[k]
        != name@ by {
        assert(name_views(names@)[k] == names@[k]@);
        lemma_name_lt_irreflexive(name@);
    }
    Err(lo)
}

} // verus!
