//! Decisions on what the browser's local storage answered. The storage
//! itself is reached by the application; what it gives back is handed here.
use vstd::prelude::*;

verus! {

/// The prefix of the storage keys that hold saved accounts.
pub open spec fn accounts_prefix() -> Seq<char> {
    seq!['a', 'a', 'a', 'c', 's', ':']
}

/// The part of `s` after its last `:`, or all of `s` where it holds none.
pub open spec fn last_segment(s: Seq<char>) -> Seq<char>
    decreases s.len(),
{
    if s.len() == 0 {
        s
    } else if s.last() == ':' {
        Seq::empty()
    } else {
        last_segment(s.drop_last()).push(s.last())
    }
}

/// The name of the accounts that a storage key holds, if it is such a key.
pub open spec fn saved_name(key: Seq<char>) -> Option<Seq<char>> {
    if key.len() >= 6 && key.subrange(0, 6) == accounts_prefix() {
        Some(last_segment(key))
    } else {
        None
    }
}

/// The names of the saved accounts among `keys`, in their order.
pub open spec fn saved_names(keys: Seq<Seq<char>>) -> Seq<Seq<char>>
    decreases keys.len(),
{
    if keys.len() == 0 {
        Seq::empty()
    } else {
        let rest = saved_names(keys.drop_last());
        match saved_name(keys.last()) {
            Some(n) => rest.push(n),
            None => rest,
        }
    }
}

/// The answer of a lookup: `None` where no storage is available, else the
/// storage's own answer, `None` for an absent key. The key is there only in
/// the second case with a value.
pub fn has_key(answer: &Option<Option<String>>) -> (r: bool)
    ensures
        r <==> answer matches Some(Some(_)),
{
    match answer {
        Some(Some(_)) => true,
        _ => false,
    }
}

/// The value found by a lookup, if storage was available and held the key.
pub fn get_item(answer: Option<Option<String>>) -> (r: Option<String>)
    ensures
        r == match answer {
            Some(v) => v,
            None => None,
        },
{
    match answer {
        Some(v) => v,
        None => None,
    }
}

fn key_is_saved_accounts(key: &str) -> (r: bool)
    ensures
        r <==> key@.len() >= 6 && key@.subrange(0, 6) == accounts_prefix(),
{
    let n = key.unicode_len();
    if n < 6 {
        return false;
    }
    let r = key.get_char(0) == 'a' && key.get_char(1) == 'a' && key.get_char(2) == 'a'
        && key.get_char(3) == 'c' && key.get_char(4) == 's' && key.get_char(5) == ':';
    proof {
        if r {
            assert(key@.subrange(0, 6) =~= accounts_prefix());
        }
        if key@.subrange(0, 6) == accounts_prefix() {
            assert(key@[0] == key@.subrange(0, 6)[0]);
            assert(key@[1] == key@.subrange(0, 6)[1]);
            assert(key@[2] == key@.subrange(0, 6)[2]);
            assert(key@[3] == key@.subrange(0, 6)[3]);
            assert(key@[4] == key@.subrange(0, 6)[4]);
            assert(key@[5] == key@.subrange(0, 6)[5]);
        }
    }
    r
}

proof fn lemma_last_segment(s: Seq<char>, c: int)
    requires
        0 <= c <= s.len(),
        forall|i: int| c <= i < s.len() ==> s[i] != ':',
        c == 0 || s[c - 1] == ':',
    ensures
        last_segment(s) == s.subrange(c, s.len() as int),
    decreases s.len(),
{
    if s.len() > c {
        lemma_last_segment(s.drop_last(), c);
        assert(s.subrange(c, s.len() as int) =~= s.drop_last().subrange(
            c,
            s.len() - 1,
        ).push(s.last()));
    } else if c > 0 {
        assert(s.subrange(c, s.len() as int) =~= Seq::<char>::empty());
    } else {
        assert(s.subrange(0, 0) =~= Seq::<char>::empty());
    }
}

fn last_segment_of(key: &str) -> (r: String)
    ensures
        r@ == last_segment(key@),
{
    let n = key.unicode_len();
    let mut c: usize = n;
    while c > 0 && key.get_char(c - 1) != ':'
        invariant
            c <= n,
            n == key@.len(),
            forall|i: int| c <= i < n ==> key@[i] != ':',
        decreases c,
    {
        c = c - 1;
    }
    proof {
        lemma_last_segment(key@, c as int);
    }
    String::from_str(key.substring_char(c, n))
}

/// The names of the saved accounts among the storage keys: the keys that
/// start with `aaacs:`, each by the part after its last `:`.
pub fn saved_accounts(keys: Vec<String>) -> (r: Vec<String>)
    ensures
        r@.map_values(|s: String| s@) == saved_names(keys@.map_values(|s: String| s@)),
{
    let ghost kv = keys@.map_values(|s: String| s@);
    let mut r: Vec<String> = Vec::new();
    let mut k: usize = 0;
    while k < keys.len()
        invariant
            k <= keys@.len(),
            kv == keys@.map_values(|s: String| s@),
            r@.map_values(|s: String| s@) == saved_names(kv.subrange(0, k as int)),
        decreases keys@.len() - k,
    {
        let key = keys[k].as_str();
        proof {
            assert(kv.subrange(0, k + 1).drop_last() =~= kv.subrange(0, k as int));
            assert(kv.subrange(0, k + 1).last() == key@);
        }
        if key_is_saved_accounts(key) {
            let name = last_segment_of(key);
            let ghost before = r@;
            r.push(name);
            proof {
                assert(r@.map_values(|s: String| s@) =~= before.map_values(|s: String| s@).push(
                    name@,
                ));
            }
        }
        k = k + 1;
    }
    proof {
        assert(kv.subrange(0, keys@.len() as int) =~= kv);
    }
    r
}

} // verus!
