//! Records: ordered mappings from text keys to integer values, kept as
//! association lists whose keys are strictly sorted, so that every record
//! enumerates its entries in the same deterministic order.

use crate::order::{
    lemma_lex_lt_irreflexive, lemma_sorted_skip1, lex_lt, sorted_insert, strictly_sorted,
};
use vstd::prelude::*;
use vstd::string::{StrSliceExecFns, StringExecFns};

verus! {

/// One sparse data point: a mapping from column name to integer value,
/// with keys unique and held in strictly increasing lexicographic order.
pub struct Record {
    pub entries: Vec<(String, u64)>,
}

/// The keys of a sequence of entries, in entry order.
pub open spec fn entry_keys(s: Seq<(Seq<char>, u64)>) -> Seq<Seq<char>> {
    s.map_values(|e: (Seq<char>, u64)| e.0)
}

/// Entries are well formed when their keys are strictly sorted
/// (and hence unique).
pub open spec fn wf_entries(s: Seq<(Seq<char>, u64)>) -> bool {
    strictly_sorted(entry_keys(s))
}

/// Whether some entry carries the key `k`.
pub open spec fn has_key(s: Seq<(Seq<char>, u64)>, k: Seq<char>) -> bool {
    entry_keys(s).contains(k)
}

/// The value stored under `k`, or the default value 0 when `k` is absent.
pub open spec fn lookup(s: Seq<(Seq<char>, u64)>, k: Seq<char>) -> u64
    decreases s.len(),
{
    if s.len() == 0 {
        0
    } else if s[0].0 == k {
        s[0].1
    } else {
        lookup(s.skip(1), k)
    }
}

/// Insertion of a key-value pair into well-formed entries: an existing
/// entry for the key is overwritten, a new key enters at its sorted place.
pub open spec fn entry_insert(s: Seq<(Seq<char>, u64)>, k: Seq<char>, v: u64) -> Seq<
    (Seq<char>, u64),
>
    decreases s.len(),
{
    if s.len() == 0 {
        seq![(k, v)]
    } else if lex_lt(s[0].0, k) {
        seq![s[0]] + entry_insert(s.skip(1), k, v)
    } else if s[0].0 == k {
        seq![(k, v)] + s.skip(1)
    } else {
        seq![(k, v)] + s
    }
}

impl View for Record {
    type V = Seq<(Seq<char>, u64)>;

    open spec fn view(&self) -> Seq<(Seq<char>, u64)> {
        self.entries@.map_values(|e: (String, u64)| (e.0@, e.1))
    }
}

impl Record {
    pub open spec fn wf(&self) -> bool {
        wf_entries(self@)
    }

    /// The empty record.
    pub fn new() -> (r: Record)
        ensures
            r@ == Seq::<(Seq<char>, u64)>::empty(),
            r.wf(),
    {
        let r = Record { entries: Vec::new() };
        proof {
            assert(r@ =~= Seq::<(Seq<char>, u64)>::empty());
        }
        r
    }

    /// Stores `value` under `key`, overwriting an existing entry for the
    /// same key, as insertion into an ordered mapping does.
    pub fn insert(&mut self, key: &str, value: u64)
        requires
            old(self).wf(),
        ensures
            final(self)@ == entry_insert(old(self)@, key@, value),
            final(self).wf(),
    {
        let ghost s0 = self@;
        proof {
            lemma_entry_insert_keys(s0, key@, value);
            crate::order::lemma_sorted_insert_props(entry_keys(s0), key@);
        }
        let mut i: usize = 0;
        loop
            invariant
                i <= self.entries.len(),
                self@ == s0,
                wf_entries(s0),
                forall|m: int| 0 <= m < i ==> lex_lt(s0[m].0, key@),
            ensures
                i <= self.entries.len(),
                self@ == s0,
                forall|m: int| 0 <= m < i ==> lex_lt(s0[m].0, key@),
                i == self.entries.len() || !lex_lt(s0[i as int].0, key@),
            decreases self.entries.len() - i,
        {
            if i >= self.entries.len() {
                break;
            }
            proof {
                assert(s0[i as int].0 == self.entries@[i as int].0@);
            }
            if !crate::order::str_lt(self.entries[i].0.as_str(), key) {
                break;
            }
            i = i + 1;
        }
        proof {
            lemma_entry_insert_decompose(s0, key@, value, i as int);
        }
        if i == self.entries.len() {
            self.entries.push((String::from_str(key), value));
            proof {
                assert(s0.skip(i as int).len() == 0);
                assert(self@ =~= s0.take(i as int) + entry_insert(s0.skip(i as int), key@, value));
            }
        } else {
            proof {
                assert(s0[i as int].0 == self.entries@[i as int].0@);
                assert(s0.skip(i as int)[0] == s0[i as int]);
            }
            if crate::order::str_eq(self.entries[i].0.as_str(), key) {
                self.entries.set(i, (String::from_str(key), value));
                proof {
                    assert(entry_insert(s0.skip(i as int), key@, value) == seq![(key@, value)]
                        + s0.skip(i as int).skip(1));
                    assert(s0.skip(i as int).skip(1) =~= s0.skip(i + 1));
                    assert(self@ =~= s0.take(i as int) + (seq![(key@, value)] + s0.skip(i + 1)));
                }
            } else {
                self.entries.insert(i, (String::from_str(key), value));
                proof {
                    assert(entry_insert(s0.skip(i as int), key@, value) == seq![(key@, value)]
                        + s0.skip(i as int));
                    assert(self@ =~= s0.take(i as int) + (seq![(key@, value)] + s0.skip(
                        i as int,
                    )));
                }
            }
        }
        proof {
            assert(entry_keys(final(self)@) =~= sorted_insert(entry_keys(s0), key@));
        }
    }
}

/// The keys after an insertion are the sorted insertion of the new key,
/// so insertion keeps entries well formed.
pub proof fn lemma_entry_insert_keys(s: Seq<(Seq<char>, u64)>, k: Seq<char>, v: u64)
    ensures
        entry_keys(entry_insert(s, k, v)) == sorted_insert(entry_keys(s), k),
    decreases s.len(),
{
    if s.len() == 0 {
        assert(entry_keys(entry_insert(s, k, v)) =~= sorted_insert(entry_keys(s), k));
    } else {
        assert(entry_keys(s)[0] == s[0].0);
        assert(entry_keys(s.skip(1)) =~= entry_keys(s).skip(1));
        lemma_entry_insert_keys(s.skip(1), k, v);
        if lex_lt(s[0].0, k) {
            assert(entry_keys(entry_insert(s, k, v)) =~= seq![s[0].0] + entry_keys(
                entry_insert(s.skip(1), k, v),
            ));
            assert(sorted_insert(entry_keys(s), k) =~= seq![s[0].0] + sorted_insert(
                entry_keys(s).skip(1),
                k,
            ));
        } else if s[0].0 == k {
            assert(entry_keys(entry_insert(s, k, v)) =~= sorted_insert(entry_keys(s), k));
        } else {
            assert(entry_keys(entry_insert(s, k, v)) =~= seq![k] + entry_keys(s));
            assert(sorted_insert(entry_keys(s), k) =~= seq![k] + entry_keys(s));
        }
    }
}

/// Scanning past entries whose keys lie below `k` does not change where
/// the pair is inserted.
pub proof fn lemma_entry_insert_decompose(s: Seq<(Seq<char>, u64)>, k: Seq<char>, v: u64, i: int)
    requires
        0 <= i <= s.len(),
        forall|m: int| 0 <= m < i ==> lex_lt(s[m].0, k),
    ensures
        entry_insert(s, k, v) == s.take(i) + entry_insert(s.skip(i), k, v),
    decreases i,
{
    if i == 0 {
        assert(s.skip(0) =~= s);
        assert(s.take(0) + entry_insert(s, k, v) =~= entry_insert(s, k, v));
    } else {
        assert(lex_lt(s[0].0, k));
        assert forall|m: int| 0 <= m < i - 1 implies lex_lt(s.skip(1)[m].0, k) by {
            assert(s.skip(1)[m] == s[m + 1]);
        }
        lemma_entry_insert_decompose(s.skip(1), k, v, i - 1);
        assert(s.skip(1).skip(i - 1) =~= s.skip(i));
        assert(entry_insert(s, k, v) == seq![s[0]] + (s.skip(1).take(i - 1) + entry_insert(
            s.skip(i),
            k,
            v,
        )));
        assert(seq![s[0]] + (s.skip(1).take(i - 1) + entry_insert(s.skip(i), k, v)) =~= s.take(i)
            + entry_insert(s.skip(i), k, v));
    }
}

/// In well-formed entries, the value looked up under an entry's key is
/// that entry's value.
pub proof fn lemma_lookup_present(s: Seq<(Seq<char>, u64)>, i: int)
    requires
        wf_entries(s),
        0 <= i < s.len(),
    ensures
        lookup(s, s[i].0) == s[i].1,
        has_key(s, s[i].0),
    decreases i,
{
    assert(entry_keys(s)[i] == s[i].0);
    if i == 0 {
    } else {
        assert(lex_lt(entry_keys(s)[0], entry_keys(s)[i]));
        assert(s[0].0 != s[i].0) by {
            lemma_lex_lt_irreflexive(s[0].0);
        }
        lemma_sorted_skip1(entry_keys(s));
        assert(entry_keys(s.skip(1)) =~= entry_keys(s).skip(1));
        lemma_lookup_present(s.skip(1), i - 1);
        assert(s.skip(1)[i - 1] == s[i]);
        assert(entry_keys(s).contains(s[i].0)) by {
            assert(entry_keys(s)[i] == s[i].0);
        }
    }
}

/// Looking up a key that no entry carries yields the default value 0.
pub proof fn lemma_lookup_absent(s: Seq<(Seq<char>, u64)>, k: Seq<char>)
    requires
        !has_key(s, k),
    ensures
        lookup(s, k) == 0,
    decreases s.len(),
{
    if s.len() > 0 {
        assert(entry_keys(s)[0] == s[0].0);
        assert(s[0].0 != k);
        assert(!has_key(s.skip(1), k)) by {
            if has_key(s.skip(1), k) {
                let m = choose|m: int|
                    0 <= m < entry_keys(s.skip(1)).len() && entry_keys(s.skip(1))[m] == k;
                assert(entry_keys(s.skip(1))[m] == s.skip(1)[m].0);
                assert(s[m + 1].0 == k);
                assert(entry_keys(s)[m + 1] == k);
            }
        }
        lemma_lookup_absent(s.skip(1), k);
    }
}

/// Looks up `key` in a record, returning its value, or the default value 0
/// when the record does not contain the key.
pub fn lookup_val(rec: &Record, key: &str) -> (r: u64)
    ensures
        r == lookup(rec@, key@),
{
    let ghost s = rec@;
    proof {
        assert(s.skip(0) =~= s);
    }
    let mut i: usize = 0;
    loop
        invariant
            i <= rec.entries.len(),
            s == rec@,
            lookup(s, key@) == lookup(s.skip(i as int), key@),
        decreases rec.entries.len() - i,
    {
        if i >= rec.entries.len() {
            proof {
                assert(s.skip(i as int).len() == 0);
            }
            return 0;
        }
        proof {
            assert(s[i as int] == (rec.entries@[i as int].0@, rec.entries@[i as int].1));
            assert(s.skip(i as int)[0] == s[i as int]);
        }
        if crate::order::str_eq(rec.entries[i].0.as_str(), key) {
            return rec.entries[i].1;
        }
        proof {
            assert(s.skip(i as int).skip(1) =~= s.skip(i + 1));
        }
        i = i + 1;
    }
}

} // verus!
