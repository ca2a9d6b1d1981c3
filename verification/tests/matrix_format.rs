use math_interface::{
    convert_to_generic_map, convert_to_matrix_format, generic_map, total_num_of_cols,
    total_num_rows, Record,
};

fn record(pairs: &[(&str, u64)]) -> Record {
    let mut r = Record::new();
    for (k, v) in pairs {
        r.insert(k, *v);
    }
    r
}

fn as_floats(matrix: &Vec<Vec<u64>>) -> Vec<Vec<f64>> {
    matrix
        .iter()
        .map(|row| row.iter().map(|v| *v as f64).collect())
        .collect()
}

fn keys_of(r: &Record) -> Vec<String> {
    r.entries.iter().map(|e| e.0.clone()).collect()
}

#[test]
fn one_empty_record() {
    let input = vec![record(&[])];
    assert_eq!(total_num_rows(&input), 1);
    assert_eq!(total_num_of_cols(&input), 0);
    let matrix = convert_to_matrix_format(&input);
    assert_eq!(matrix, vec![Vec::<u64>::new()]);
    assert_eq!(as_floats(&matrix), vec![Vec::<f64>::new()]);
}

#[test]
fn disjoint_keys() {
    let input = vec![record(&[("a", 1)]), record(&[("b", 2)])];
    assert_eq!(total_num_of_cols(&input), 2);
    let template = generic_map(&input);
    assert_eq!(keys_of(&template), vec!["a".to_string(), "b".to_string()]);
    let matrix = convert_to_matrix_format(&input);
    assert_eq!(matrix, vec![vec![1, 0], vec![0, 2]]);
    assert_eq!(as_floats(&matrix), vec![vec![1.0, 0.0], vec![0.0, 2.0]]);
}

#[test]
fn overlapping_keys() {
    let input = vec![record(&[("a", 1), ("b", 2)]), record(&[("a", 3)])];
    let template = generic_map(&input);
    assert_eq!(keys_of(&template), vec!["a".to_string(), "b".to_string()]);
    let matrix = convert_to_matrix_format(&input);
    assert_eq!(matrix, vec![vec![1, 2], vec![3, 0]]);
    assert_eq!(as_floats(&matrix), vec![vec![1.0, 2.0], vec![3.0, 0.0]]);
}

#[test]
fn empty_input() {
    let input: Vec<Record> = Vec::new();
    assert_eq!(total_num_rows(&input), 0);
    assert_eq!(total_num_of_cols(&input), 0);
    assert_eq!(convert_to_matrix_format(&input), Vec::<Vec<u64>>::new());
}

#[test]
fn row_count_equals_input_length() {
    for n in 0..5 {
        let mut input = Vec::new();
        for i in 0..n {
            input.push(record(&[("x", i as u64)]));
        }
        assert_eq!(total_num_rows(&input), n);
        assert_eq!(convert_to_matrix_format(&input).len(), n);
    }
}

#[test]
fn duplicate_keys_across_records_counted_once() {
    let input = vec![
        record(&[("p", 1), ("q", 2)]),
        record(&[("q", 3), ("r", 4)]),
        record(&[("p", 5), ("r", 6)]),
    ];
    assert_eq!(total_num_of_cols(&input), 3);
    let template = generic_map(&input);
    assert_eq!(
        keys_of(&template),
        vec!["p".to_string(), "q".to_string(), "r".to_string()]
    );
}

#[test]
fn template_maps_every_column_to_default() {
    let input = vec![record(&[("b", 7)]), record(&[("a", 9), ("c", 1)])];
    let template = generic_map(&input);
    assert_eq!(
        keys_of(&template),
        vec!["a".to_string(), "b".to_string(), "c".to_string()]
    );
    for e in &template.entries {
        assert_eq!(e.1, 0);
    }
}

#[test]
fn generic_maps_share_the_schema() {
    let input = vec![record(&[("a", 1)]), record(&[("b", 2)]), record(&[])];
    let generic = convert_to_generic_map(&input);
    assert_eq!(generic.len(), 3);
    for g in &generic {
        assert_eq!(keys_of(g), vec!["a".to_string(), "b".to_string()]);
    }
    assert_eq!(generic[0].entries[0].1, 1);
    assert_eq!(generic[0].entries[1].1, 0);
    assert_eq!(generic[1].entries[0].1, 0);
    assert_eq!(generic[1].entries[1].1, 2);
    assert_eq!(generic[2].entries[0].1, 0);
    assert_eq!(generic[2].entries[1].1, 0);
}

#[test]
fn every_row_has_column_count_width() {
    let input = vec![
        record(&[("alpha", 1)]),
        record(&[("beta", 2), ("gamma", 3)]),
        record(&[]),
    ];
    let ncols = total_num_of_cols(&input);
    assert_eq!(ncols, 3);
    for row in convert_to_matrix_format(&input) {
        assert_eq!(row.len(), ncols);
    }
}

#[test]
fn reflattening_is_byte_for_byte_identical() {
    let input = vec![
        record(&[("k1", 10), ("k2", 20)]),
        record(&[("k3", 30)]),
        record(&[("k1", 40), ("k3", 50)]),
    ];
    let m1 = convert_to_matrix_format(&input);
    let m2 = convert_to_matrix_format(&input);
    assert_eq!(m1, m2);
    let f1 = as_floats(&m1);
    let f2 = as_floats(&m2);
    assert_eq!(f1.len(), f2.len());
    for (r1, r2) in f1.iter().zip(f2.iter()) {
        for (a, b) in r1.iter().zip(r2.iter()) {
            assert_eq!(a.to_bits(), b.to_bits());
        }
    }
}

#[test]
fn values_keep_their_column_position() {
    let input = vec![record(&[("b", 2), ("d", 4)]), record(&[("a", 1), ("c", 3)])];
    let template = generic_map(&input);
    let cols = keys_of(&template);
    let matrix = convert_to_matrix_format(&input);
    let pos = |name: &str| cols.iter().position(|c| c == name).unwrap();
    assert_eq!(matrix[0][pos("b")], 2);
    assert_eq!(matrix[0][pos("d")], 4);
    assert_eq!(matrix[0][pos("a")], 0);
    assert_eq!(matrix[0][pos("c")], 0);
    assert_eq!(matrix[1][pos("a")], 1);
    assert_eq!(matrix[1][pos("c")], 3);
    assert_eq!(matrix[1][pos("b")], 0);
    assert_eq!(matrix[1][pos("d")], 0);
}

#[test]
fn insert_overwrites_existing_key() {
    let mut r = Record::new();
    r.insert("a", 1);
    r.insert("a", 5);
    assert_eq!(r.entries.len(), 1);
    assert_eq!(r.entries[0].0, "a");
    assert_eq!(r.entries[0].1, 5);
}

#[test]
fn insert_keeps_keys_sorted() {
    let mut r = Record::new();
    r.insert("b", 2);
    r.insert("a", 1);
    r.insert("ab", 3);
    let keys: Vec<&str> = r.entries.iter().map(|e| e.0.as_str()).collect();
    assert_eq!(keys, vec!["a", "ab", "b"]);
}

#[test]
fn column_order_is_lexicographic_by_text() {
    let input = vec![record(&[("z", 1)]), record(&[("ba", 2), ("b", 3)]), record(&[("az", 4)])];
    let template = generic_map(&input);
    assert_eq!(
        keys_of(&template),
        vec!["az".to_string(), "b".to_string(), "ba".to_string(), "z".to_string()]
    );
}
