use tabular::aggregate::AggFunc;
use tabular::container::DataFrameContainer;
use tabular::error::EngineError;
use tabular::filter::FilterOps;
use tabular::join::JoinType;
use tabular::registry::{get_container, Registry};
use tabular::table::{Column, Table};
use tabular::value::Value;

fn int_col(name: &str, vals: &[i64]) -> Column {
    Column {
        name: name.to_string(),
        cells: vals.iter().map(|v| Value::Int(*v)).collect(),
    }
}

fn str_col(name: &str, vals: &[&str]) -> Column {
    Column {
        name: name.to_string(),
        cells: vals.iter().map(|v| Value::Str(v.to_string())).collect(),
    }
}

fn scores() -> Table {
    Table {
        columns: vec![
            str_col("name", &["a", "b", "c"]),
            int_col("score", &[10, 20, 30]),
        ],
    }
}

fn int_at(t: &Table, j: usize, r: usize) -> i64 {
    match &t.columns[j].cells[r] {
        Value::Int(v) => *v,
        other => panic!("expected an integer cell, found {:?}", other),
    }
}

#[test]
fn container_caches_shape_and_columns() {
    let c = DataFrameContainer::new(scores(), "scores");
    assert_eq!(c.title, "scores");
    assert_eq!(c.shape, (3, 2));
    assert_eq!(c.columns, vec!["name".to_string(), "score".to_string()]);
    assert!(c.is_open);
    assert!(!c.data_display);
    assert!(c.summary.summary_data.is_none());
    assert!(c.filter.filtered_data.is_none());
}

#[test]
fn container_filter_dataframe_delegates() {
    let mut c = DataFrameContainer::new(scores(), "scores");
    let out = c
        .filter_dataframe(scores(), "score", &FilterOps::LowerThan, "25")
        .unwrap();
    assert_eq!(out.height(), 2);
    let err = c.filter_dataframe(scores(), "ghost", &FilterOps::IsNull, "");
    assert_eq!(err.unwrap_err(), EngineError::ColumnNotFound);
}

#[test]
fn container_aggregate_dataframe_delegates() {
    let mut c = DataFrameContainer::new(scores(), "scores");
    let out = c
        .aggregate_dataframe(
            scores(),
            &Vec::new(),
            &vec!["score".to_string()],
            &AggFunc::Max,
        )
        .unwrap();
    assert_eq!(int_at(&out, 0, 0), 30);
}

#[test]
fn run_filter_stages_result_and_leaves_table() {
    let mut c = DataFrameContainer::new(scores(), "scores");
    c.filter.column = "score".to_string();
    c.filter.operation = FilterOps::GreaterThan;
    c.filter.value = "15".to_string();
    c.run_filter().unwrap();
    assert_eq!(c.shape, (3, 2));
    let staged = c.filter.filtered_data.as_ref().unwrap();
    assert_eq!(staged.height(), 2);
}

#[test]
fn run_filter_failure_changes_nothing() {
    let mut c = DataFrameContainer::new(scores(), "scores");
    c.filter.column = "ghost".to_string();
    let r = c.run_filter();
    assert_eq!(r.unwrap_err(), EngineError::ColumnNotFound);
    assert!(c.filter.filtered_data.is_none());
}

#[test]
fn registry_lookup_and_titles() {
    let mut reg = Registry::new();
    reg.spawn("alpha", scores());
    reg.spawn("beta", scores());
    let titles = reg.list_titles();
    assert_eq!(titles.len(), 2);
    assert_eq!(titles[0], "alpha_0");
    assert_eq!(titles[1], "beta_1");
    assert!(reg.resolve("alpha_0").is_some());
    assert!(reg.resolve("gamma").is_none());
    let cols = reg.column_names_of("beta_1").unwrap();
    assert_eq!(cols, vec!["name".to_string(), "score".to_string()]);
    assert!(reg.column_names_of("gamma").is_none());
}

#[test]
fn spawn_titles_stay_distinct_under_collisions() {
    let mut reg = Registry::new();
    // A live container already carrying the title the next spawn derives.
    reg.containers
        .push(DataFrameContainer::new(scores(), "data_1"));
    let t1 = reg.spawn("data", scores());
    let t2 = reg.spawn("data", scores());
    let t3 = reg.spawn("data", scores());
    let mut titles: Vec<String> = reg.list_titles();
    assert!(titles.contains(&t1) && titles.contains(&t2) && titles.contains(&t3));
    let before = titles.len();
    titles.sort();
    titles.dedup();
    assert_eq!(titles.len(), before);
}

#[test]
fn replace_in_place_rebinds_table_and_invalidates_summary() {
    let mut reg = Registry::new();
    let title = reg.spawn("data", scores());
    let narrow = Table {
        columns: vec![int_col("only", &[1])],
    };
    assert!(reg.replace_in_place(title.as_str(), narrow));
    let c = reg.resolve(title.as_str()).unwrap();
    assert_eq!(c.title, title);
    assert_eq!(c.shape, (1, 1));
    assert_eq!(c.columns, vec!["only".to_string()]);
    assert!(c.summary.summary_data.is_none());
    assert!(!reg.replace_in_place("ghost", scores()));
}

#[test]
fn get_container_scans_by_title() {
    let containers = vec![
        DataFrameContainer::new(scores(), "one"),
        DataFrameContainer::new(scores(), "two"),
    ];
    assert_eq!(get_container(&containers, "two").unwrap().title, "two");
    assert!(get_container(&containers, "three").is_none());
}

#[test]
fn get_container_returns_first_of_equally_titled() {
    let narrow = Table {
        columns: vec![int_col("only", &[1])],
    };
    let containers = vec![
        DataFrameContainer::new(scores(), "twin"),
        DataFrameContainer::new(narrow, "twin"),
    ];
    let c = get_container(&containers, "twin").unwrap();
    assert_eq!(c.shape, (3, 2));
}

#[test]
fn join_dataframe_in_place_rebinds_the_container() {
    let mut c = DataFrameContainer::new(
        Table {
            columns: vec![int_col("k", &[1, 2])],
        },
        "left",
    );
    c.join.left_on_selection = "k".to_string();
    c.join.right_on_selection = "rk".to_string();
    c.join.how = JoinType::Inner;
    c.join.inplace = true;
    let peer = Table {
        columns: vec![int_col("rk", &[2]), str_col("tag", &["hit"])],
    };
    let r = c.join_dataframe(&peer).unwrap();
    assert!(r.is_none());
    assert_eq!(c.shape, (1, 2));
    assert_eq!(c.columns, vec!["k".to_string(), "tag".to_string()]);
    assert!(c.summary.summary_data.is_none());
}

#[test]
fn join_dataframe_new_placement_returns_the_table() {
    let mut c = DataFrameContainer::new(
        Table {
            columns: vec![int_col("k", &[1, 2])],
        },
        "left",
    );
    c.join.left_on_selection = "k".to_string();
    c.join.right_on_selection = "rk".to_string();
    c.join.how = JoinType::Left;
    c.join.inplace = false;
    let peer = Table {
        columns: vec![int_col("rk", &[2])],
    };
    let out = c.join_dataframe(&peer).unwrap().unwrap();
    assert_eq!(out.height(), 2);
    // The container itself is untouched under the new-container policy.
    assert_eq!(c.shape, (2, 1));
}

#[test]
fn process_frame_spawns_filtered_container() {
    let mut reg = Registry::new();
    reg.containers
        .push(DataFrameContainer::new(scores(), "data"));
    reg.containers[0].filter.inplace = false;
    reg.containers[0].filter.column = "score".to_string();
    reg.containers[0].filter.operation = FilterOps::GreaterThan;
    reg.containers[0].filter.value = "15".to_string();
    reg.containers[0].run_filter().unwrap();

    reg.process_frame();

    assert_eq!(reg.containers.len(), 2);
    assert!(reg.containers[0].filter.filtered_data.is_none());
    assert_eq!(reg.containers[0].title, "data");
    assert_eq!(reg.containers[0].shape, (3, 2));
    assert_eq!(reg.containers[1].title, "filtered_data_1");
    assert_eq!(reg.containers[1].shape, (2, 2));
}

#[test]
fn process_frame_replaces_in_place() {
    let mut reg = Registry::new();
    reg.containers
        .push(DataFrameContainer::new(scores(), "data"));
    reg.containers[0].filter.inplace = true;
    reg.containers[0].filter.column = "score".to_string();
    reg.containers[0].filter.operation = FilterOps::GreaterEqualThan;
    reg.containers[0].filter.value = "20".to_string();
    reg.containers[0].run_filter().unwrap();

    reg.process_frame();

    assert_eq!(reg.containers.len(), 1);
    assert_eq!(reg.containers[0].title, "data");
    assert_eq!(reg.containers[0].shape, (2, 2));
    assert!(reg.containers[0].summary.summary_data.is_none());
}

#[test]
fn process_frame_fires_join_once() {
    let mut reg = Registry::new();
    reg.containers
        .push(DataFrameContainer::new(scores(), "data"));
    reg.containers.push(DataFrameContainer::new(
        Table {
            columns: vec![
                int_col("score", &[20, 30]),
                str_col("grade", &["ok", "good"]),
            ],
        },
        "grades",
    ));
    reg.containers[0].join.df_selection = "grades".to_string();
    reg.containers[0].join.left_on_selection = "score".to_string();
    reg.containers[0].join.right_on_selection = "score".to_string();
    reg.containers[0].join.how = JoinType::Inner;
    reg.containers[0].join.inplace = false;
    reg.containers[0].join.join = true;

    reg.process_frame();

    assert_eq!(reg.containers.len(), 3);
    assert!(!reg.containers[0].join.join);
    assert_eq!(reg.containers[2].title, "joined_data_2");
    assert_eq!(reg.containers[2].shape, (2, 3));

    // The trigger was consumed: a second frame changes nothing.
    reg.process_frame();
    assert_eq!(reg.containers.len(), 3);
}

#[test]
fn process_frame_missing_target_only_clears_trigger() {
    let mut reg = Registry::new();
    reg.containers
        .push(DataFrameContainer::new(scores(), "data"));
    reg.containers[0].join.df_selection = "ghost".to_string();
    reg.containers[0].join.join = true;
    reg.process_frame();
    assert_eq!(reg.containers.len(), 1);
    assert!(!reg.containers[0].join.join);
    assert_eq!(reg.containers[0].shape, (3, 2));
}

#[test]
fn process_frame_allows_self_join() {
    let mut reg = Registry::new();
    reg.containers
        .push(DataFrameContainer::new(scores(), "data"));
    reg.containers[0].join.df_selection = "data".to_string();
    reg.containers[0].join.left_on_selection = "score".to_string();
    reg.containers[0].join.right_on_selection = "score".to_string();
    reg.containers[0].join.how = JoinType::Inner;
    reg.containers[0].join.inplace = false;
    reg.containers[0].join.join = true;

    reg.process_frame();

    // Joined against its own pre-frame snapshot: one match per row.
    assert_eq!(reg.containers.len(), 2);
    assert_eq!(reg.containers[1].shape, (3, 3));
}

#[test]
fn join_at_missing_target_is_target_not_found() {
    let mut reg = Registry::new();
    reg.containers
        .push(DataFrameContainer::new(scores(), "data"));
    reg.containers[0].join.df_selection = "ghost".to_string();
    reg.containers[0].join.join = true;
    let r = reg.join_at(0);
    assert_eq!(r.unwrap_err(), EngineError::TargetNotFound);
    assert!(!reg.containers[0].join.join);
    assert_eq!(reg.containers.len(), 1);
    assert_eq!(reg.containers[0].shape, (3, 2));
}

#[test]
fn join_at_spawns_joined_container() {
    let mut reg = Registry::new();
    reg.containers
        .push(DataFrameContainer::new(scores(), "data"));
    reg.containers.push(DataFrameContainer::new(
        Table {
            columns: vec![
                int_col("score", &[20, 30]),
                str_col("grade", &["ok", "good"]),
            ],
        },
        "grades",
    ));
    reg.containers[0].join.df_selection = "grades".to_string();
    reg.containers[0].join.left_on_selection = "score".to_string();
    reg.containers[0].join.right_on_selection = "score".to_string();
    reg.containers[0].join.how = JoinType::Inner;
    reg.containers[0].join.inplace = false;
    reg.join_at(0).unwrap();
    assert_eq!(reg.containers.len(), 3);
    assert_eq!(reg.containers[2].title, "joined_data_2");
    assert_eq!(reg.containers[2].shape, (2, 3));
}

#[test]
fn join_at_allows_self_target() {
    let mut reg = Registry::new();
    reg.containers
        .push(DataFrameContainer::new(scores(), "data"));
    reg.containers[0].join.df_selection = "data".to_string();
    reg.containers[0].join.left_on_selection = "score".to_string();
    reg.containers[0].join.right_on_selection = "score".to_string();
    reg.containers[0].join.how = JoinType::Inner;
    reg.containers[0].join.inplace = true;
    reg.join_at(0).unwrap();
    assert_eq!(reg.containers.len(), 1);
    assert_eq!(reg.containers[0].shape, (3, 3));
}

#[test]
fn process_frame_leaves_idle_containers_alone() {
    let mut reg = Registry::new();
    reg.containers
        .push(DataFrameContainer::new(scores(), "data"));
    reg.process_frame();
    assert_eq!(reg.containers.len(), 1);
    assert_eq!(reg.containers[0].title, "data");
    assert_eq!(reg.containers[0].shape, (3, 2));
}
