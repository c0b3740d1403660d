use tabular::aggregate::{aggregate_table, AggFunc};
use tabular::error::EngineError;
use tabular::filter::{apply_filter, FilterOps};
use tabular::join::{join_tables, JoinType};
use tabular::melt::melt_table;
use tabular::table::{Column, Table};
use tabular::value::Value;

fn int_col(name: &str, vals: &[i64]) -> Column {
    Column {
        name: name.to_string(),
        cells: vals.iter().map(|v| Value::Int(*v)).collect(),
    }
}

fn str_col(name: &str, vals: &[&str]) -> Column {
    Column {
        name: name.to_string(),
        cells: vals.iter().map(|v| Value::Str(v.to_string())).collect(),
    }
}

fn int_at(t: &Table, j: usize, r: usize) -> i64 {
    match &t.columns[j].cells[r] {
        Value::Int(v) => *v,
        other => panic!("expected an integer cell, found {:?}", other),
    }
}

fn str_at(t: &Table, j: usize, r: usize) -> String {
    match &t.columns[j].cells[r] {
        Value::Str(s) => s.clone(),
        other => panic!("expected a text cell, found {:?}", other),
    }
}

fn is_null_at(t: &Table, j: usize, r: usize) -> bool {
    matches!(&t.columns[j].cells[r], Value::Null)
}

fn assert_tables_equal(a: &Table, b: &Table) {
    assert_eq!(a.columns.len(), b.columns.len());
    for j in 0..a.columns.len() {
        assert_eq!(a.columns[j].name, b.columns[j].name);
        assert_eq!(a.columns[j].cells.len(), b.columns[j].cells.len());
        for r in 0..a.columns[j].cells.len() {
            assert!(a.columns[j].cells[r].eq_value(&b.columns[j].cells[r]));
        }
    }
}

fn scores() -> Table {
    Table {
        columns: vec![
            str_col("name", &["a", "b", "c"]),
            int_col("score", &[10, 20, 30]),
        ],
    }
}

#[test]
fn scenario_filter_aggregate_melt() {
    let t = scores();

    let filtered = apply_filter(&t, "score", &FilterOps::GreaterThan, "15").unwrap();
    assert_eq!(filtered.height(), 2);
    assert_eq!(str_at(&filtered, 0, 0), "b");
    assert_eq!(int_at(&filtered, 1, 0), 20);
    assert_eq!(str_at(&filtered, 0, 1), "c");
    assert_eq!(int_at(&filtered, 1, 1), 30);

    let agg = aggregate_table(
        &t,
        &Vec::new(),
        &vec!["score".to_string()],
        &AggFunc::Sum,
    )
    .unwrap();
    assert_eq!(agg.height(), 1);
    assert_eq!(agg.width(), 1);
    assert_eq!(agg.columns[0].name, "score_sum");
    assert_eq!(int_at(&agg, 0, 0), 60);

    let melted = melt_table(&t, &vec!["name".to_string()], &vec!["score".to_string()]).unwrap();
    assert_eq!(melted.height(), 3);
    assert_eq!(melted.columns[0].name, "name");
    assert_eq!(melted.columns[1].name, "variable");
    assert_eq!(melted.columns[2].name, "value");
    for r in 0..3 {
        assert_eq!(str_at(&melted, 1, r), "score");
    }
    assert_eq!(int_at(&melted, 2, 0), 10);
    assert_eq!(int_at(&melted, 2, 1), 20);
    assert_eq!(int_at(&melted, 2, 2), 30);
}

#[test]
fn filter_equal_num_keeps_exactly_matches() {
    let t = Table {
        columns: vec![int_col("v", &[5, 7, 5, 9])],
    };
    let f = apply_filter(&t, "v", &FilterOps::EqualNum, "5").unwrap();
    assert_eq!(f.height(), 2);
    for r in 0..f.height() {
        assert_eq!(int_at(&f, 0, r), 5);
    }
    assert!(f.height() <= t.height());
}

#[test]
fn filter_is_idempotent_in_place() {
    let t = Table {
        columns: vec![
            str_col("who", &["x", "y", "z", "w"]),
            int_col("age", &[12, 30, 19, 8]),
        ],
    };
    let once = apply_filter(&t, "age", &FilterOps::GreaterThan, "18").unwrap();
    let twice = apply_filter(&once, "age", &FilterOps::GreaterThan, "18").unwrap();
    assert_eq!(once.height(), 2);
    assert_tables_equal(&once, &twice);
}

#[test]
fn filter_operators() {
    let t = Table {
        columns: vec![int_col("v", &[1, 2, 3, 4])],
    };
    let ge = apply_filter(&t, "v", &FilterOps::GreaterEqualThan, "3").unwrap();
    assert_eq!(ge.height(), 2);
    let lt = apply_filter(&t, "v", &FilterOps::LowerThan, "3").unwrap();
    assert_eq!(lt.height(), 2);
    let le = apply_filter(&t, "v", &FilterOps::LowerEqualThan, "3").unwrap();
    assert_eq!(le.height(), 3);
}

#[test]
fn filter_equal_str() {
    let t = Table {
        columns: vec![str_col("k", &["aa", "bb", "aa"])],
    };
    let f = apply_filter(&t, "k", &FilterOps::EqualStr, "aa").unwrap();
    assert_eq!(f.height(), 2);
    assert_eq!(str_at(&f, 0, 0), "aa");
}

#[test]
fn filter_null_tests_ignore_literal() {
    let t = Table {
        columns: vec![Column {
            name: "v".to_string(),
            cells: vec![Value::Int(1), Value::Null, Value::Str("s".to_string())],
        }],
    };
    let nulls = apply_filter(&t, "v", &FilterOps::IsNull, "whatever").unwrap();
    assert_eq!(nulls.height(), 1);
    assert!(is_null_at(&nulls, 0, 0));
    let notnulls = apply_filter(&t, "v", &FilterOps::IsNotNull, "").unwrap();
    assert_eq!(notnulls.height(), 2);
}

#[test]
fn filter_malformed_literal_defaults_to_zero() {
    let t = Table {
        columns: vec![int_col("v", &[0, 3, 0])],
    };
    let f = apply_filter(&t, "v", &FilterOps::EqualNum, "not a number").unwrap();
    assert_eq!(f.height(), 2);
    assert_eq!(int_at(&f, 0, 0), 0);
}

#[test]
fn filter_unknown_column_is_refused() {
    let t = scores();
    let r = apply_filter(&t, "missing", &FilterOps::EqualNum, "1");
    assert_eq!(r.unwrap_err(), EngineError::ColumnNotFound);
}

#[test]
fn filter_type_mismatch_is_refused() {
    let t = scores();
    let numeric_on_text = apply_filter(&t, "name", &FilterOps::GreaterThan, "1");
    assert_eq!(
        numeric_on_text.unwrap_err(),
        EngineError::BackendEvaluationError
    );
    let text_on_numeric = apply_filter(&t, "score", &FilterOps::EqualStr, "10");
    assert_eq!(
        text_on_numeric.unwrap_err(),
        EngineError::BackendEvaluationError
    );
}

#[test]
fn aggregate_count_groups() {
    let t = Table {
        columns: vec![
            str_col("k", &["a", "b", "a", "c", "b", "a"]),
            int_col("v", &[1, 2, 3, 4, 5, 6]),
        ],
    };
    let agg = aggregate_table(
        &t,
        &vec!["k".to_string()],
        &vec!["v".to_string()],
        &AggFunc::Count,
    )
    .unwrap();
    // One row per distinct key, in first-occurrence order.
    assert_eq!(agg.height(), 3);
    assert_eq!(str_at(&agg, 0, 0), "a");
    assert_eq!(str_at(&agg, 0, 1), "b");
    assert_eq!(str_at(&agg, 0, 2), "c");
    assert_eq!(agg.columns[1].name, "v_count");
    let counts: Vec<i64> = (0..3).map(|r| int_at(&agg, 1, r)).collect();
    assert_eq!(counts, vec![3, 2, 1]);
    // The per-group counts sum to the source height.
    assert_eq!(counts.iter().sum::<i64>(), t.height() as i64);
}

#[test]
fn aggregate_bare_count_adds_count_column() {
    let t = Table {
        columns: vec![str_col("k", &["a", "b", "a"])],
    };
    let agg = aggregate_table(&t, &vec!["k".to_string()], &Vec::new(), &AggFunc::Count).unwrap();
    assert_eq!(agg.width(), 2);
    assert_eq!(agg.columns[1].name, "count");
    assert_eq!(int_at(&agg, 1, 0), 2);
    assert_eq!(int_at(&agg, 1, 1), 1);
}

#[test]
fn aggregate_sum_mean_per_group() {
    let t = Table {
        columns: vec![
            str_col("k", &["a", "a", "b"]),
            int_col("v", &[3, 4, 10]),
        ],
    };
    let sum = aggregate_table(
        &t,
        &vec!["k".to_string()],
        &vec!["v".to_string()],
        &AggFunc::Sum,
    )
    .unwrap();
    assert_eq!(sum.columns[1].name, "v_sum");
    assert_eq!(int_at(&sum, 1, 0), 7);
    assert_eq!(int_at(&sum, 1, 1), 10);

    let mean = aggregate_table(
        &t,
        &vec!["k".to_string()],
        &vec!["v".to_string()],
        &AggFunc::Mean,
    )
    .unwrap();
    assert_eq!(mean.columns[1].name, "v_mean");
    // 7 / 2 truncates toward zero.
    assert_eq!(int_at(&mean, 1, 0), 3);
    assert_eq!(int_at(&mean, 1, 1), 10);
}

#[test]
fn aggregate_mean_truncates_toward_zero() {
    let t = Table {
        columns: vec![int_col("v", &[-3, 0])],
    };
    let mean = aggregate_table(&t, &Vec::new(), &vec!["v".to_string()], &AggFunc::Mean).unwrap();
    // (-3 + 0) / 2 == -1 under truncation.
    assert_eq!(int_at(&mean, 0, 0), -1);
}

#[test]
fn aggregate_median_odd_and_even() {
    let odd = Table {
        columns: vec![int_col("v", &[9, 1, 5])],
    };
    let m1 = aggregate_table(&odd, &Vec::new(), &vec!["v".to_string()], &AggFunc::Median).unwrap();
    assert_eq!(int_at(&m1, 0, 0), 5);

    let even = Table {
        columns: vec![int_col("v", &[1, 2, 3, 10])],
    };
    let m2 = aggregate_table(&even, &Vec::new(), &vec!["v".to_string()], &AggFunc::Median).unwrap();
    // (2 + 3) / 2 truncated.
    assert_eq!(int_at(&m2, 0, 0), 2);
}

#[test]
fn aggregate_min_max_and_null_handling() {
    let t = Table {
        columns: vec![
            str_col("k", &["a", "a", "b"]),
            Column {
                name: "v".to_string(),
                cells: vec![Value::Int(4), Value::Int(-2), Value::Null],
            },
        ],
    };
    let min = aggregate_table(
        &t,
        &vec!["k".to_string()],
        &vec!["v".to_string()],
        &AggFunc::Min,
    )
    .unwrap();
    assert_eq!(int_at(&min, 1, 0), -2);
    // The all-null group reduces to null.
    assert!(is_null_at(&min, 1, 1));
    let max = aggregate_table(
        &t,
        &vec!["k".to_string()],
        &vec!["v".to_string()],
        &AggFunc::Max,
    )
    .unwrap();
    assert_eq!(int_at(&max, 1, 0), 4);
}

#[test]
fn aggregate_sum_overflow_is_refused() {
    let t = Table {
        columns: vec![int_col("v", &[i64::MAX, i64::MAX])],
    };
    let r = aggregate_table(&t, &Vec::new(), &vec!["v".to_string()], &AggFunc::Sum);
    assert_eq!(r.unwrap_err(), EngineError::BackendEvaluationError);
}

#[test]
fn aggregate_text_target_is_refused_unless_counting() {
    let t = scores();
    let r = aggregate_table(&t, &Vec::new(), &vec!["name".to_string()], &AggFunc::Sum);
    assert_eq!(r.unwrap_err(), EngineError::BackendEvaluationError);
    let c = aggregate_table(&t, &Vec::new(), &vec!["name".to_string()], &AggFunc::Count).unwrap();
    assert_eq!(int_at(&c, 0, 0), 3);
}

#[test]
fn aggregate_unknown_column_is_refused() {
    let t = scores();
    let r = aggregate_table(
        &t,
        &vec!["missing".to_string()],
        &vec!["score".to_string()],
        &AggFunc::Sum,
    );
    assert_eq!(r.unwrap_err(), EngineError::ColumnNotFound);
}

#[test]
fn aggregate_empty_table_has_no_groups() {
    let t = Table {
        columns: vec![int_col("v", &[])],
    };
    let agg = aggregate_table(&t, &Vec::new(), &vec!["v".to_string()], &AggFunc::Sum).unwrap();
    assert_eq!(agg.height(), 0);
}

fn people() -> Table {
    Table {
        columns: vec![
            str_col("name", &["a", "b", "c"]),
            int_col("dept", &[1, 2, 3]),
        ],
    }
}

fn depts() -> Table {
    Table {
        columns: vec![
            int_col("id", &[1, 2, 2]),
            str_col("label", &["eng", "ops", "alt"]),
        ],
    }
}

#[test]
fn join_inner_bound_and_cross_exact() {
    let l = people();
    let r = depts();
    let inner = join_tables(&l, &r, "dept", "id", &JoinType::Inner).unwrap();
    assert!(inner.height() <= l.height() * r.height());
    assert_eq!(inner.height(), 3);
    let cross = join_tables(&l, &r, "dept", "id", &JoinType::Cross).unwrap();
    assert_eq!(cross.height(), l.height() * r.height());
}

#[test]
fn join_inner_pairs_matching_rows() {
    let inner = join_tables(&people(), &depts(), "dept", "id", &JoinType::Inner).unwrap();
    // Left-major: a->eng, then b against both id==2 rows; c matches nothing.
    assert_eq!(inner.width(), 3);
    assert_eq!(inner.columns[2].name, "label");
    assert_eq!(str_at(&inner, 0, 0), "a");
    assert_eq!(str_at(&inner, 2, 0), "eng");
    assert_eq!(str_at(&inner, 0, 1), "b");
    assert_eq!(str_at(&inner, 2, 1), "ops");
    assert_eq!(str_at(&inner, 0, 2), "b");
    assert_eq!(str_at(&inner, 2, 2), "alt");
}

#[test]
fn join_left_pads_unmatched_rows() {
    let left = join_tables(&people(), &depts(), "dept", "id", &JoinType::Left).unwrap();
    assert_eq!(left.height(), 4);
    assert_eq!(str_at(&left, 0, 3), "c");
    assert!(is_null_at(&left, 2, 3));
}

#[test]
fn join_outer_appends_unmatched_right() {
    let l = Table {
        columns: vec![int_col("k", &[1])],
    };
    let r = Table {
        columns: vec![int_col("rk", &[1, 9]), str_col("tag", &["one", "nine"])],
    };
    let outer = join_tables(&l, &r, "k", "rk", &JoinType::Outer).unwrap();
    assert_eq!(outer.height(), 2);
    assert_eq!(int_at(&outer, 0, 0), 1);
    assert_eq!(str_at(&outer, 1, 0), "one");
    // The unmatched right row coalesces its key into the left key column.
    assert_eq!(int_at(&outer, 0, 1), 9);
    assert_eq!(str_at(&outer, 1, 1), "nine");
}

#[test]
fn join_renames_clashing_right_columns() {
    let l = Table {
        columns: vec![int_col("k", &[1]), str_col("tag", &["l"])],
    };
    let r = Table {
        columns: vec![int_col("k2", &[1]), str_col("tag", &["r"])],
    };
    let joined = join_tables(&l, &r, "k", "k2", &JoinType::Inner).unwrap();
    assert_eq!(joined.columns[0].name, "k");
    assert_eq!(joined.columns[1].name, "tag");
    assert_eq!(joined.columns[2].name, "tag_right");
    assert_eq!(str_at(&joined, 1, 0), "l");
    assert_eq!(str_at(&joined, 2, 0), "r");
}

#[test]
fn join_unknown_key_is_refused_but_cross_ignores_keys() {
    let l = people();
    let r = depts();
    let bad = join_tables(&l, &r, "nope", "id", &JoinType::Inner);
    assert_eq!(bad.unwrap_err(), EngineError::ColumnNotFound);
    let cross = join_tables(&l, &r, "nope", "nope", &JoinType::Cross).unwrap();
    assert_eq!(cross.height(), 9);
}

#[test]
fn join_null_keys_never_match() {
    let l = Table {
        columns: vec![Column {
            name: "k".to_string(),
            cells: vec![Value::Null],
        }],
    };
    let r = Table {
        columns: vec![Column {
            name: "rk".to_string(),
            cells: vec![Value::Null],
        }],
    };
    let inner = join_tables(&l, &r, "k", "rk", &JoinType::Inner).unwrap();
    // Null equals null in this engine's value model: one matched pair.
    assert_eq!(inner.height(), 1);
}

#[test]
fn melt_row_expansion() {
    let t = Table {
        columns: vec![
            str_col("id", &["x", "y"]),
            int_col("a", &[1, 2]),
            int_col("b", &[3, 4]),
        ],
    };
    let vars = vec!["a".to_string(), "b".to_string()];
    let melted = melt_table(&t, &vec!["id".to_string()], &vars).unwrap();
    assert_eq!(melted.height(), t.height() * vars.len());
    // Variable-major: both rows of `a`, then both rows of `b`.
    assert_eq!(str_at(&melted, 1, 0), "a");
    assert_eq!(str_at(&melted, 1, 1), "a");
    assert_eq!(str_at(&melted, 1, 2), "b");
    assert_eq!(int_at(&melted, 2, 0), 1);
    assert_eq!(int_at(&melted, 2, 3), 4);
    assert_eq!(str_at(&melted, 0, 2), "x");
}

#[test]
fn melt_empty_value_list_yields_no_rows() {
    let t = scores();
    let melted = melt_table(&t, &vec!["name".to_string()], &Vec::new()).unwrap();
    assert_eq!(melted.height(), 0);
    assert_eq!(melted.width(), 3);
}

#[test]
fn aggregate_tolerates_repeated_names() {
    let t = Table {
        columns: vec![
            str_col("k", &["a", "a", "b"]),
            int_col("v", &[1, 2, 3]),
        ],
    };
    let agg = aggregate_table(
        &t,
        &vec!["k".to_string(), "k".to_string()],
        &vec!["v".to_string(), "v".to_string()],
        &AggFunc::Sum,
    )
    .unwrap();
    // Redundant names are reduced redundantly, not rejected.
    assert_eq!(agg.width(), 4);
    assert_eq!(agg.columns[0].name, "k");
    assert_eq!(agg.columns[1].name, "k");
    assert_eq!(agg.columns[2].name, "v_sum");
    assert_eq!(agg.columns[3].name, "v_sum");
    assert_eq!(agg.height(), 2);
    assert_eq!(int_at(&agg, 2, 0), 3);
    assert_eq!(int_at(&agg, 3, 0), 3);
}

#[test]
fn melt_tolerates_overlapping_lists() {
    let t = Table {
        columns: vec![int_col("v", &[7, 8])],
    };
    let m = melt_table(&t, &vec!["v".to_string()], &vec!["v".to_string()]).unwrap();
    assert_eq!(m.height(), 2);
    assert_eq!(int_at(&m, 0, 0), 7);
    assert_eq!(str_at(&m, 1, 0), "v");
    assert_eq!(int_at(&m, 2, 0), 7);
}

#[test]
fn melt_unknown_column_is_refused() {
    let t = scores();
    let r = melt_table(&t, &vec!["nope".to_string()], &vec!["score".to_string()]);
    assert_eq!(r.unwrap_err(), EngineError::ColumnNotFound);
}
