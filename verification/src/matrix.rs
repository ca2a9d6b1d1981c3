//! Sparse-to-dense reshaping: the union of all record keys fixes a
//! deterministic, lexicographically ordered column set; every record is
//! projected onto that schema with a default value for missing columns and
//! flattened into one fixed-width row.

use crate::order::{
    insert_key, key_views, lemma_singleton_concat_to_set, lemma_sorted_insert_props,
    lemma_strictly_sorted_no_duplicates, sorted_insert, strictly_sorted,
};
use crate::record::{
    entry_keys, has_key, lemma_lookup_absent, lemma_lookup_present, lookup, lookup_val, wf_entries,
    Record,
};
use vstd::prelude::*;
use vstd::string::{StrSliceExecFns, StringExecFns};

verus! {

/// The mathematical views of a sequence of records.
pub open spec fn views(rs: Seq<Record>) -> Seq<Seq<(Seq<char>, u64)>> {
    rs.map_values(|r: Record| r@)
}

/// The union of the key sets of all records: every distinct key counted once.
pub open spec fn key_set_of(vs: Seq<Seq<(Seq<char>, u64)>>) -> Set<Seq<char>>
    decreases vs.len(),
{
    if vs.len() == 0 {
        Set::empty()
    } else {
        entry_keys(vs[0]).to_set() + key_set_of(vs.skip(1))
    }
}

/// Sorted insertion of each key of `ks` in turn into `acc`.
pub open spec fn insert_all(acc: Seq<Seq<char>>, ks: Seq<Seq<char>>) -> Seq<Seq<char>>
    decreases ks.len(),
{
    if ks.len() == 0 {
        acc
    } else {
        insert_all(sorted_insert(acc, ks[0]), ks.skip(1))
    }
}

/// Sorted insertion of every key of every record of `vs` into `acc`.
pub open spec fn columns_from(acc: Seq<Seq<char>>, vs: Seq<Seq<(Seq<char>, u64)>>) -> Seq<
    Seq<char>,
>
    decreases vs.len(),
{
    if vs.len() == 0 {
        acc
    } else {
        columns_from(insert_all(acc, entry_keys(vs[0])), vs.skip(1))
    }
}

/// The column set of the input: all distinct record keys, in strictly
/// increasing lexicographic order.
pub open spec fn columns_of(vs: Seq<Seq<(Seq<char>, u64)>>) -> Seq<Seq<char>> {
    columns_from(Seq::empty(), vs)
}

pub proof fn lemma_insert_all_props(acc: Seq<Seq<char>>, ks: Seq<Seq<char>>)
    requires
        strictly_sorted(acc),
    ensures
        strictly_sorted(insert_all(acc, ks)),
        insert_all(acc, ks).to_set() == acc.to_set() + ks.to_set(),
    decreases ks.len(),
{
    if ks.len() == 0 {
        assert(acc.to_set() + ks.to_set() =~= acc.to_set());
    } else {
        lemma_sorted_insert_props(acc, ks[0]);
        lemma_insert_all_props(sorted_insert(acc, ks[0]), ks.skip(1));
        lemma_singleton_concat_to_set(ks[0], ks.skip(1));
        assert(seq![ks[0]] + ks.skip(1) =~= ks);
        assert(insert_all(acc, ks).to_set() =~= acc.to_set() + ks.to_set());
    }
}

pub proof fn lemma_columns_from_props(acc: Seq<Seq<char>>, vs: Seq<Seq<(Seq<char>, u64)>>)
    requires
        strictly_sorted(acc),
    ensures
        strictly_sorted(columns_from(acc, vs)),
        columns_from(acc, vs).to_set() == acc.to_set() + key_set_of(vs),
    decreases vs.len(),
{
    if vs.len() == 0 {
        assert(columns_from(acc, vs).to_set() =~= acc.to_set() + key_set_of(vs));
    } else {
        lemma_insert_all_props(acc, entry_keys(vs[0]));
        lemma_columns_from_props(insert_all(acc, entry_keys(vs[0])), vs.skip(1));
        assert(columns_from(acc, vs).to_set() =~= acc.to_set() + key_set_of(vs));
    }
}

/// The column set is strictly sorted, holds no key twice, consists exactly
/// of the union of all record key sets, and counts as many columns as that
/// union has keys.
pub proof fn lemma_columns_of_props(vs: Seq<Seq<(Seq<char>, u64)>>)
    ensures
        strictly_sorted(columns_of(vs)),
        columns_of(vs).to_set() == key_set_of(vs),
        columns_of(vs).no_duplicates(),
        columns_of(vs).len() == key_set_of(vs).len(),
        key_set_of(vs).finite(),
{
    let e = Seq::<Seq<char>>::empty();
    lemma_columns_from_props(e, vs);
    assert(e.to_set() + key_set_of(vs) =~= key_set_of(vs));
    lemma_strictly_sorted_no_duplicates(columns_of(vs));
    columns_of(vs).unique_seq_to_set();
    vstd::seq_lib::seq_to_set_is_finite(columns_of(vs));
}

/// A key lies in the union of all record key sets exactly when some record
/// carries it.
pub proof fn lemma_key_set_membership(vs: Seq<Seq<(Seq<char>, u64)>>, k: Seq<char>)
    ensures
        key_set_of(vs).contains(k) <==> exists|i: int| 0 <= i < vs.len() && has_key(vs[i], k),
    decreases vs.len(),
{
    if vs.len() == 0 {
    } else {
        lemma_key_set_membership(vs.skip(1), k);
        if key_set_of(vs).contains(k) {
            if entry_keys(vs[0]).to_set().contains(k) {
                assert(has_key(vs[0], k));
            } else {
                let i = choose|i: int| 0 <= i < vs.skip(1).len() && has_key(vs.skip(1)[i], k);
                assert(vs.skip(1)[i] == vs[i + 1]);
                assert(has_key(vs[i + 1], k));
            }
        }
        if exists|i: int| 0 <= i < vs.len() && has_key(vs[i], k) {
            let i = choose|i: int| 0 <= i < vs.len() && has_key(vs[i], k);
            if i == 0 {
                assert(entry_keys(vs[0]).to_set().contains(k));
            } else {
                assert(vs.skip(1)[i - 1] == vs[i]);
                assert(has_key(vs.skip(1)[i - 1], k));
                assert(key_set_of(vs.skip(1)).contains(k));
            }
        }
    }
}

/// Computes the ordered column set of the input records.
fn columns(input: &Vec<Record>) -> (r: Vec<String>)
    ensures
        key_views(r@) == columns_of(views(input@)),
        strictly_sorted(key_views(r@)),
{
    let ghost vs = views(input@);
    let mut cols: Vec<String> = Vec::new();
    proof {
        assert(key_views(cols@) =~= Seq::<Seq<char>>::empty());
        assert(vs.skip(0) =~= vs);
    }
    let mut i: usize = 0;
    while i < input.len()
        invariant
            i <= input.len(),
            vs == views(input@),
            strictly_sorted(key_views(cols@)),
            columns_of(vs) == columns_from(key_views(cols@), vs.skip(i as int)),
        decreases input.len() - i,
    {
        let ghost recv = vs[i as int];
        proof {
            assert(recv == input@[i as int]@);
            assert(vs.skip(i as int)[0] == recv);
            assert(vs.skip(i as int).skip(1) =~= vs.skip(i + 1));
            assert(entry_keys(recv).skip(0) =~= entry_keys(recv));
        }
        let mut j: usize = 0;
        while j < input[i].entries.len()
            invariant
                i < input.len(),
                vs == views(input@),
                recv == vs[i as int],
                j <= input@[i as int].entries@.len(),
                recv.len() == input@[i as int].entries@.len(),
                strictly_sorted(key_views(cols@)),
                columns_of(vs) == columns_from(
                    insert_all(key_views(cols@), entry_keys(recv).skip(j as int)),
                    vs.skip(i + 1),
                ),
            decreases input@[i as int].entries@.len() - j,
        {
            proof {
                assert(entry_keys(recv)[j as int] == recv[j as int].0);
                assert(recv[j as int].0 == input@[i as int].entries@[j as int].0@);
                assert(entry_keys(recv).skip(j as int)[0] == entry_keys(recv)[j as int]);
                assert(entry_keys(recv).skip(j as int).skip(1) =~= entry_keys(recv).skip(j + 1));
            }
            insert_key(&mut cols, input[i].entries[j].0.as_str());
            j = j + 1;
        }
        proof {
            assert(entry_keys(recv).skip(recv.len() as int).len() == 0);
        }
        i = i + 1;
    }
    proof {
        assert(vs.skip(vs.len() as int).len() == 0);
    }
    cols
}

/// Projection of one record onto the column schema: one entry per column,
/// in column order, carrying the record's value for that column or the
/// default value 0.
pub open spec fn filled(cols: Seq<Seq<char>>, rec: Seq<(Seq<char>, u64)>) -> Seq<
    (Seq<char>, u64),
> {
    cols.map_values(|c: Seq<char>| (c, lookup(rec, c)))
}

/// The generic template: every column mapped to the default value 0.
pub open spec fn template_entries(cols: Seq<Seq<char>>) -> Seq<(Seq<char>, u64)> {
    cols.map_values(|c: Seq<char>| (c, 0u64))
}

/// One dense row: the record's value per column, in column order, with the
/// default value 0 where the record has no entry.
pub open spec fn dense_row(cols: Seq<Seq<char>>, rec: Seq<(Seq<char>, u64)>) -> Seq<u64> {
    cols.map_values(|c: Seq<char>| lookup(rec, c))
}

/// The dense matrix of the input: one row per record, in input order,
/// each over the shared column schema.
pub open spec fn matrix_of(vs: Seq<Seq<(Seq<char>, u64)>>) -> Seq<Seq<u64>> {
    vs.map_values(|rec: Seq<(Seq<char>, u64)>| dense_row(columns_of(vs), rec))
}

/// The mathematical views of a sequence of rows.
pub open spec fn row_views(rows: Seq<Vec<u64>>) -> Seq<Seq<u64>> {
    rows.map_values(|r: Vec<u64>| r@)
}

/// Projects one record onto the column schema, overwriting the template's
/// default values with the record's own.
fn fill_record(cols: &Vec<String>, rec: &Record) -> (r: Record)
    ensures
        r@ == filled(key_views(cols@), rec@),
{
    let mut entries: Vec<(String, u64)> = Vec::new();
    let mut j: usize = 0;
    while j < cols.len()
        invariant
            j <= cols.len(),
            entries@.len() == j,
            forall|m: int|
                0 <= m < j ==> entries@[m].0@ == cols@[m]@ && entries@[m].1 == lookup(
                    rec@,
                    cols@[m]@,
                ),
        decreases cols.len() - j,
    {
        let v = lookup_val(rec, cols[j].as_str());
        entries.push((String::from_str(cols[j].as_str()), v));
        j = j + 1;
    }
    let r = Record { entries };
    proof {
        assert(r@ =~= filled(key_views(cols@), rec@));
    }
    r
}

/// The number of rows of the matrix: one per input record.
pub fn total_num_rows(input: &Vec<Record>) -> (r: usize)
    ensures
        r == input@.len(),
{
    input.len()
}

/// The number of columns of the matrix: the number of distinct keys
/// appearing in any input record, duplicates across records counted once.
pub fn total_num_of_cols(input: &Vec<Record>) -> (r: usize)
    ensures
        r == key_set_of(views(input@)).len(),
{
    let cols = columns(input);
    proof {
        lemma_columns_of_props(views(input@));
    }
    cols.len()
}

/// The generic template: a record mapping every column of the input's
/// column set to the default value 0, in column order.
pub fn generic_map(input: &Vec<Record>) -> (r: Record)
    ensures
        r@ == template_entries(columns_of(views(input@))),
        r.wf(),
{
    let cols = columns(input);
    let empty = Record::new();
    let r = fill_record(&cols, &empty);
    proof {
        assert(r@ =~= template_entries(columns_of(views(input@))));
        assert(entry_keys(r@) =~= columns_of(views(input@)));
    }
    r
}

/// Standardizes every record onto the shared column schema: each output
/// record carries every column, in column order, with the input record's
/// value where it had one and the default value 0 elsewhere.
pub fn convert_to_generic_map(input: &Vec<Record>) -> (r: Vec<Record>)
    ensures
        r@.len() == input@.len(),
        forall|i: int|
            0 <= i < input@.len() ==> r@[i]@ == filled(
                columns_of(views(input@)),
                views(input@)[i],
            ),
        forall|i: int| 0 <= i < input@.len() ==> r@[i].wf(),
{
    let ghost vs = views(input@);
    let cols = columns(input);
    proof {
        lemma_columns_of_props(vs);
    }
    let mut out: Vec<Record> = Vec::new();
    let mut i: usize = 0;
    while i < input.len()
        invariant
            i <= input.len(),
            vs == views(input@),
            key_views(cols@) == columns_of(vs),
            strictly_sorted(key_views(cols@)),
            out@.len() == i,
            forall|m: int| 0 <= m < i ==> out@[m]@ == filled(columns_of(vs), vs[m]),
            forall|m: int| 0 <= m < i ==> out@[m].wf(),
        decreases input.len() - i,
    {
        let fr = fill_record(&cols, &input[i]);
        proof {
            assert(vs[i as int] == input@[i as int]@);
            assert(entry_keys(fr@) =~= key_views(cols@));
        }
        out.push(fr);
        i = i + 1;
    }
    proof {
        assert(forall|m: int| 0 <= m < input@.len() ==> out@[m].wf());
    }
    out
}

/// Flattens every standardized record into a dense row and gathers the
/// rows, in input order, into the matrix. Every row has exactly as many
/// entries as the input has distinct columns.
pub fn convert_to_matrix_format(input: &Vec<Record>) -> (r: Vec<Vec<u64>>)
    ensures
        row_views(r@) == matrix_of(views(input@)),
        r@.len() == input@.len(),
        forall|i: int| 0 <= i < r@.len() ==> r@[i]@.len() == key_set_of(views(input@)).len(),
{
    let ghost vs = views(input@);
    let ncols = total_num_of_cols(input);
    let generic_maps = convert_to_generic_map(input);
    proof {
        lemma_columns_of_props(vs);
    }
    let mut out: Vec<Vec<u64>> = Vec::new();
    let mut i: usize = 0;
    while i < generic_maps.len()
        invariant
            i <= generic_maps.len(),
            vs == views(input@),
            generic_maps@.len() == vs.len(),
            forall|m: int| 0 <= m < vs.len() ==> generic_maps@[m]@ == filled(columns_of(vs), vs[m]),
            ncols == key_set_of(vs).len(),
            columns_of(vs).len() == key_set_of(vs).len(),
            out@.len() == i,
            forall|m: int| 0 <= m < i ==> out@[m]@ == dense_row(columns_of(vs), vs[m]),
        decreases generic_maps.len() - i,
    {
        let ghost filled_i = filled(columns_of(vs), vs[i as int]);
        let mut row: Vec<u64> = Vec::new();
        let mut j: usize = 0;
        while j < generic_maps[i].entries.len()
            invariant
                i < generic_maps@.len(),
                generic_maps@[i as int]@ == filled_i,
                filled_i.len() == generic_maps@[i as int].entries@.len(),
                j <= generic_maps@[i as int].entries@.len(),
                row@.len() == j,
                forall|m: int| 0 <= m < j ==> row@[m] == filled_i[m].1,
            decreases generic_maps@[i as int].entries@.len() - j,
        {
            proof {
                assert(filled_i[j as int].1 == generic_maps@[i as int].entries@[j as int].1);
            }
            row.push(generic_maps[i].entries[j].1);
            j = j + 1;
        }
        proof {
            assert(row@ =~= dense_row(columns_of(vs), vs[i as int]));
        }
        assert(row.len() == ncols);
        out.push(row);
        i = i + 1;
    }
    proof {
        assert(row_views(out@) =~= matrix_of(vs));
        assert forall|m: int| 0 <= m < out@.len() implies out@[m]@.len() == key_set_of(vs).len() by {
            assert(out@[m]@ == dense_row(columns_of(vs), vs[m]));
        }
    }
    out
}


/// The column set is the only strictly sorted enumeration of the union of
/// all record keys: however it is computed, the same column order comes out.
pub proof fn lemma_columns_canonical(vs: Seq<Seq<(Seq<char>, u64)>>, cols: Seq<Seq<char>>)
    requires
        strictly_sorted(cols),
        cols.to_set() == key_set_of(vs),
    ensures
        cols == columns_of(vs),
{
    lemma_columns_of_props(vs);
    crate::order::lemma_strictly_sorted_unique(cols, columns_of(vs));
}

/// Re-flattening the same input yields the identical matrix: the dense
/// matrix is a function of the input records alone.
pub proof fn lemma_matrix_deterministic(
    vs: Seq<Seq<(Seq<char>, u64)>>,
    m1: Seq<Seq<u64>>,
    m2: Seq<Seq<u64>>,
)
    requires
        m1 == matrix_of(vs),
        m2 == matrix_of(vs),
    ensures
        m1 == m2,
{
}

/// Every key a record carries is a column of the matrix.
pub proof fn lemma_columns_contain_record_keys(
    vs: Seq<Seq<(Seq<char>, u64)>>,
    i: int,
    k: Seq<char>,
)
    requires
        0 <= i < vs.len(),
        has_key(vs[i], k),
    ensures
        columns_of(vs).contains(k),
{
    lemma_columns_of_props(vs);
    lemma_key_set_membership(vs, k);
    assert(key_set_of(vs).contains(k));
    assert(columns_of(vs).to_set().contains(k));
}

/// A record's own values appear unchanged at the position of their column
/// in its row; every other position of that row holds the default value 0.
pub proof fn lemma_matrix_faithful(vs: Seq<Seq<(Seq<char>, u64)>>, i: int, j: int)
    requires
        0 <= i < vs.len(),
        wf_entries(vs[i]),
        0 <= j < columns_of(vs).len(),
    ensures
        matrix_of(vs)[i].len() == columns_of(vs).len(),
        has_key(vs[i], columns_of(vs)[j]) ==> exists|m: int|
            0 <= m < vs[i].len() && vs[i][m].0 == columns_of(vs)[j] && matrix_of(vs)[i][j]
                == vs[i][m].1,
        !has_key(vs[i], columns_of(vs)[j]) ==> matrix_of(vs)[i][j] == 0,
{
    let cols = columns_of(vs);
    let k = cols[j];
    assert(matrix_of(vs)[i] == dense_row(cols, vs[i]));
    assert(dense_row(cols, vs[i])[j] == lookup(vs[i], k));
    if has_key(vs[i], k) {
        let m = choose|m: int| 0 <= m < entry_keys(vs[i]).len() && entry_keys(vs[i])[m] == k;
        assert(vs[i][m].0 == k);
        lemma_lookup_present(vs[i], m);
    } else {
        lemma_lookup_absent(vs[i], k);
    }
}

} // verus!
