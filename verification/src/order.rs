//! Strict lexicographic order on key text, the total order that fixes the
//! column enumeration, together with executable comparisons on `&str`.

use vstd::prelude::*;
use vstd::string::{StrSliceExecFns, StringExecFns};

verus! {

/// Strict lexicographic order on character sequences, by code point.
/// This is the order in which columns are enumerated.
pub open spec fn lex_lt(a: Seq<char>, b: Seq<char>) -> bool
    decreases a.len(),
{
    if b.len() == 0 {
        false
    } else if a.len() == 0 {
        true
    } else if a[0] != b[0] {
        a[0] < b[0]
    } else {
        lex_lt(a.skip(1), b.skip(1))
    }
}

/// A sequence of keys in strictly increasing lexicographic order;
/// such a sequence has no duplicate keys.
pub open spec fn strictly_sorted(s: Seq<Seq<char>>) -> bool {
    forall|i: int, j: int| 0 <= i < j < s.len() ==> lex_lt(s[i], s[j])
}

pub proof fn lemma_lex_lt_irreflexive(a: Seq<char>)
    ensures
        !lex_lt(a, a),
    decreases a.len(),
{
    if a.len() > 0 {
        lemma_lex_lt_irreflexive(a.skip(1));
    }
}

pub proof fn lemma_lex_lt_connected(a: Seq<char>, b: Seq<char>)
    requires
        a != b,
    ensures
        lex_lt(a, b) || lex_lt(b, a),
    decreases a.len(),
{
    if a.len() == 0 || b.len() == 0 {
        if a.len() == 0 && b.len() == 0 {
            assert(a =~= b);
        }
    } else if a[0] != b[0] {
    } else {
        assert(a.skip(1) != b.skip(1)) by {
            if a.skip(1) == b.skip(1) {
                assert(a.skip(1).len() == a.len() - 1);
                assert(b.skip(1).len() == b.len() - 1);
                assert(a.len() == b.len());
                assert forall|i: int| 0 <= i < a.len() implies a[i] == b[i] by {
                    if i > 0 {
                        assert(a.skip(1)[i - 1] == b.skip(1)[i - 1]);
                    }
                }
                assert(a =~= b);
            }
        }
        lemma_lex_lt_connected(a.skip(1), b.skip(1));
    }
}

pub proof fn lemma_lex_lt_transitive(a: Seq<char>, b: Seq<char>, c: Seq<char>)
    requires
        lex_lt(a, b),
        lex_lt(b, c),
    ensures
        lex_lt(a, c),
    decreases a.len(),
{
    if a.len() == 0 {
    } else if a[0] == b[0] {
        if b[0] == c[0] {
            lemma_lex_lt_transitive(a.skip(1), b.skip(1), c.skip(1));
        }
    } else {
    }
}

/// A strictly sorted key sequence holds no key twice.
pub proof fn lemma_strictly_sorted_no_duplicates(s: Seq<Seq<char>>)
    requires
        strictly_sorted(s),
    ensures
        s.no_duplicates(),
{
    assert forall|i: int, j: int| 0 <= i < s.len() && 0 <= j < s.len() && i != j implies s[i]
        != s[j] by {
        if i < j {
            lemma_lex_lt_irreflexive(s[i]);
        } else {
            lemma_lex_lt_irreflexive(s[j]);
        }
    }
}


/// Removing the least key of a strictly sorted sequence leaves exactly the
/// set of the remaining keys.
pub proof fn lemma_sorted_head_tail_set(s: Seq<Seq<char>>)
    requires
        strictly_sorted(s),
        s.len() > 0,
    ensures
        s.skip(1).to_set() == s.to_set().remove(s[0]),
{
    assert forall|e: Seq<char>| s.skip(1).to_set().contains(e) implies s.to_set().remove(
        s[0],
    ).contains(e) by {
        let m = choose|m: int| 0 <= m < s.skip(1).len() && s.skip(1)[m] == e;
        assert(s[m + 1] == e);
        assert(s.contains(e));
        assert(lex_lt(s[0], s[m + 1]));
        lemma_lex_lt_irreflexive(s[0]);
    }
    assert forall|e: Seq<char>| s.to_set().remove(s[0]).contains(e) implies s.skip(
        1,
    ).to_set().contains(e) by {
        let m = choose|m: int| 0 <= m < s.len() && s[m] == e;
        assert(m > 0);
        assert(s.skip(1)[m - 1] == e);
        assert(s.skip(1).contains(e));
    }
    assert(s.skip(1).to_set() =~= s.to_set().remove(s[0]));
}

/// A set of keys has exactly one strictly sorted enumeration: two strictly
/// sorted sequences carrying the same keys are identical. This is what makes
/// the column order deterministic and reproducible across calls.
pub proof fn lemma_strictly_sorted_unique(x: Seq<Seq<char>>, y: Seq<Seq<char>>)
    requires
        strictly_sorted(x),
        strictly_sorted(y),
        x.to_set() == y.to_set(),
    ensures
        x == y,
    decreases x.len(),
{
    if x.len() == 0 {
        if y.len() > 0 {
            assert(y.contains(y[0]));
            assert(y.to_set().contains(y[0]));
            assert(x.contains(y[0]));
        }
        assert(x =~= y);
    } else if y.len() == 0 {
        assert(x.contains(x[0]));
        assert(x.to_set().contains(x[0]));
        assert(y.contains(x[0]));
    } else {
        assert(x[0] == y[0]) by {
            if x[0] != y[0] {
                assert(x.contains(x[0]));
                assert(y.to_set().contains(x[0]));
                let j = choose|j: int| 0 <= j < y.len() && y[j] == x[0];
                assert(j > 0);
                assert(lex_lt(y[0], y[j]));
                assert(y.contains(y[0]));
                assert(x.to_set().contains(y[0]));
                let m = choose|m: int| 0 <= m < x.len() && x[m] == y[0];
                assert(m > 0);
                assert(lex_lt(x[0], x[m]));
                lemma_lex_lt_transitive(x[0], y[0], x[0]);
                lemma_lex_lt_irreflexive(x[0]);
            }
        }
        lemma_sorted_skip1(x);
        lemma_sorted_skip1(y);
        lemma_sorted_head_tail_set(x);
        lemma_sorted_head_tail_set(y);
        lemma_strictly_sorted_unique(x.skip(1), y.skip(1));
        assert(x.skip(1).len() == x.len() - 1);
        assert(y.skip(1).len() == y.len() - 1);
        assert forall|i: int| 0 <= i < x.len() implies x[i] == y[i] by {
            if i > 0 {
                assert(x.skip(1)[i - 1] == y.skip(1)[i - 1]);
            }
        }
        assert(x =~= y);
    }
}

/// Executable strict lexicographic comparison of two strings.
pub fn str_lt(a: &str, b: &str) -> (r: bool)
    ensures
        r == lex_lt(a@, b@),
{
    let alen = a.unicode_len();
    let blen = b.unicode_len();
    let mut i: usize = 0;
    proof {
        assert(a@.skip(0) =~= a@);
        assert(b@.skip(0) =~= b@);
    }
    loop
        invariant
            i <= alen,
            i <= blen,
            alen == a@.len(),
            blen == b@.len(),
            lex_lt(a@, b@) == lex_lt(a@.skip(i as int), b@.skip(i as int)),
        decreases alen - i,
    {
        if i >= blen {
            return false;
        }
        if i >= alen {
            return true;
        }
        let ca = a.get_char(i);
        let cb = b.get_char(i);
        if ca != cb {
            return ca < cb;
        }
        proof {
            assert(a@.skip(i as int).skip(1) =~= a@.skip(i + 1));
            assert(b@.skip(i as int).skip(1) =~= b@.skip(i + 1));
        }
        i = i + 1;
    }
}

/// Executable equality of two strings, as equality of their character views.
pub fn str_eq(a: &str, b: &str) -> (r: bool)
    ensures
        r == (a@ == b@),
{
    let alen = a.unicode_len();
    let blen = b.unicode_len();
    if alen != blen {
        return false;
    }
    let mut i: usize = 0;
    while i < alen
        invariant
            i <= alen,
            alen == a@.len(),
            alen == b@.len(),
            forall|m: int| 0 <= m < i ==> a@[m] == b@[m],
        decreases alen - i,
    {
        if a.get_char(i) != b.get_char(i) {
            return false;
        }
        i = i + 1;
    }
    proof {
        assert(a@ =~= b@);
    }
    true
}


/// Insertion of a key into a strictly sorted key sequence: already-present
/// keys are kept once, and the result is strictly sorted again.
pub open spec fn sorted_insert(s: Seq<Seq<char>>, k: Seq<char>) -> Seq<Seq<char>>
    decreases s.len(),
{
    if s.len() == 0 {
        seq![k]
    } else if lex_lt(s[0], k) {
        seq![s[0]] + sorted_insert(s.skip(1), k)
    } else if s[0] == k {
        s
    } else {
        seq![k] + s
    }
}

pub proof fn lemma_sorted_skip1(s: Seq<Seq<char>>)
    requires
        strictly_sorted(s),
        s.len() > 0,
    ensures
        strictly_sorted(s.skip(1)),
{
    assert forall|i: int, j: int| 0 <= i < j < s.skip(1).len() implies lex_lt(
        s.skip(1)[i],
        s.skip(1)[j],
    ) by {
        assert(s.skip(1)[i] == s[i + 1]);
        assert(s.skip(1)[j] == s[j + 1]);
    }
}

pub proof fn lemma_singleton_concat_to_set(x: Seq<char>, s: Seq<Seq<char>>)
    ensures
        (seq![x] + s).to_set() == s.to_set().insert(x),
{
    broadcast use vstd::seq_lib::lemma_seq_concat_contains_all_elements;

    assert(seq![x][0] == x);
    assert(seq![x].contains(x));
    assert forall|e: Seq<char>| seq![x].contains(e) implies e == x by {
        let m = choose|m: int| 0 <= m < seq![x].len() && seq![x][m] == e;
        assert(m == 0);
    }
    assert((seq![x] + s).to_set() =~= s.to_set().insert(x));
}

/// Inserting a key into a strictly sorted sequence keeps it strictly sorted
/// and adds exactly that key to the set of keys present.
pub proof fn lemma_sorted_insert_props(s: Seq<Seq<char>>, k: Seq<char>)
    requires
        strictly_sorted(s),
    ensures
        strictly_sorted(sorted_insert(s, k)),
        sorted_insert(s, k).to_set() == s.to_set().insert(k),
    decreases s.len(),
{
    broadcast use vstd::seq_lib::lemma_seq_concat_contains_all_elements;

    let r = sorted_insert(s, k);
    if s.len() == 0 {
        assert(seq![k][0] == k);
        assert(r.to_set() =~= s.to_set().insert(k));
    } else if lex_lt(s[0], k) {
        lemma_sorted_skip1(s);
        lemma_sorted_insert_props(s.skip(1), k);
        let r1 = sorted_insert(s.skip(1), k);
        assert(r == seq![s[0]] + r1);
        assert(r.to_set() =~= s.to_set().insert(k)) by {
            assert(seq![s[0]] + s.skip(1) =~= s);
            lemma_singleton_concat_to_set(s[0], s.skip(1));
            lemma_singleton_concat_to_set(s[0], r1);
        }
        assert forall|i: int, j: int| 0 <= i < j < r.len() implies lex_lt(r[i], r[j]) by {
            if i == 0 {
                let e = r[j];
                assert(r1[j - 1] == e);
                assert(r1.contains(e));
                assert(r1.to_set().contains(e));
                if e == k {
                } else {
                    assert(s.skip(1).to_set().contains(e));
                    let m = choose|m: int| 0 <= m < s.skip(1).len() && s.skip(1)[m] == e;
                    assert(s[m + 1] == e);
                    assert(lex_lt(s[0], s[m + 1]));
                }
            } else {
                assert(r[i] == r1[i - 1]);
                assert(r[j] == r1[j - 1]);
            }
        }
    } else if s[0] == k {
        assert(s.contains(k));
        assert(r.to_set() =~= s.to_set().insert(k));
    } else {
        lemma_lex_lt_connected(s[0], k);
        assert(lex_lt(k, s[0]));
        assert(r == seq![k] + s);
        assert forall|i: int, j: int| 0 <= i < j < r.len() implies lex_lt(r[i], r[j]) by {
            if i == 0 {
                assert(r[j] == s[j - 1]);
                if j > 1 {
                    lemma_lex_lt_transitive(k, s[0], s[j - 1]);
                }
            } else {
                assert(r[i] == s[i - 1]);
                assert(r[j] == s[j - 1]);
            }
        }
        lemma_singleton_concat_to_set(k, s);
        assert(r.to_set() =~= s.to_set().insert(k));
    }
}

/// Scanning past a prefix of keys that are all below `k` does not change
/// where `k` is inserted.
pub proof fn lemma_sorted_insert_decompose(s: Seq<Seq<char>>, k: Seq<char>, i: int)
    requires
        0 <= i <= s.len(),
        forall|m: int| 0 <= m < i ==> lex_lt(s[m], k),
    ensures
        sorted_insert(s, k) == s.take(i) + sorted_insert(s.skip(i), k),
    decreases i,
{
    if i == 0 {
        assert(s.skip(0) =~= s);
        assert(s.take(0) + sorted_insert(s, k) =~= sorted_insert(s, k));
    } else {
        assert(lex_lt(s[0], k));
        assert forall|m: int| 0 <= m < i - 1 implies lex_lt(s.skip(1)[m], k) by {
            assert(s.skip(1)[m] == s[m + 1]);
        }
        lemma_sorted_insert_decompose(s.skip(1), k, i - 1);
        assert(s.skip(1).skip(i - 1) =~= s.skip(i));
        assert(sorted_insert(s, k) == seq![s[0]] + (s.skip(1).take(i - 1) + sorted_insert(
            s.skip(i),
            k,
        )));
        assert(seq![s[0]] + (s.skip(1).take(i - 1) + sorted_insert(s.skip(i), k)) =~= s.take(i)
            + sorted_insert(s.skip(i), k));
    }
}

/// The character views of a vector of key strings.
pub open spec fn key_views(s: Seq<String>) -> Seq<Seq<char>> {
    s.map_values(|x: String| x@)
}

/// Inserts `k` into a sorted vector of distinct keys, keeping it sorted and
/// leaving it unchanged when `k` is already present.
pub fn insert_key(keys: &mut Vec<String>, k: &str)
    requires
        strictly_sorted(key_views(old(keys)@)),
    ensures
        key_views(final(keys)@) == sorted_insert(key_views(old(keys)@), k@),
        strictly_sorted(key_views(final(keys)@)),
{
    let ghost kv = key_views(keys@);
    proof {
        lemma_sorted_insert_props(kv, k@);
    }
    let mut i: usize = 0;
    loop
        invariant
            i <= keys.len(),
            keys@ == old(keys)@,
            kv == key_views(keys@),
            strictly_sorted(kv),
            forall|m: int| 0 <= m < i ==> lex_lt(kv[m], k@),
        ensures
            i <= keys.len(),
            keys@ == old(keys)@,
            forall|m: int| 0 <= m < i ==> lex_lt(kv[m], k@),
            i == keys.len() || !lex_lt(kv[i as int], k@),
        decreases keys.len() - i,
    {
        if i >= keys.len() {
            break;
        }
        proof {
            assert(kv[i as int] == keys@[i as int]@);
        }
        if !str_lt(keys[i].as_str(), k) {
            break;
        }
        i = i + 1;
    }
    proof {
        lemma_sorted_insert_decompose(kv, k@, i as int);
    }
    if i == keys.len() {
        keys.push(String::from_str(k));
        proof {
            assert(kv.skip(i as int).len() == 0);
            assert(key_views(keys@) =~= kv.take(i as int) + sorted_insert(kv.skip(i as int), k@));
        }
    } else {
        proof {
            assert(kv[i as int] == keys@[i as int]@);
            assert(kv.skip(i as int)[0] == kv[i as int]);
        }
        if str_eq(keys[i].as_str(), k) {
            proof {
                assert(sorted_insert(kv.skip(i as int), k@) == kv.skip(i as int));
                assert(kv.take(i as int) + kv.skip(i as int) =~= kv);
            }
        } else {
            keys.insert(i, String::from_str(k));
            proof {
                assert(sorted_insert(kv.skip(i as int), k@) == seq![k@] + kv.skip(i as int));
                assert(key_views(keys@) =~= kv.take(i as int) + (seq![k@] + kv.skip(i as int)));
            }
        }
    }
}

} // verus!
