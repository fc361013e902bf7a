use tracekit::aggregation::{
    apply_builtin_aggregations, avg_weight, concat_values, parse_direction, sum_weight, AggResult,
    AggValue, AggregateBy, Aggregation, FactorColumn, GroupTable, Reduction, Weight, WeightedOp,
};
use tracekit::dag_tracer::Direction;
use tracekit::error::SdtError;
use tracekit::grouping::{aggregate_traced_data, partition_by};

fn s(v: &[&str]) -> Vec<String> {
    v.iter().map(|x| x.to_string()).collect()
}

fn traced_table(dirs: &[&str]) -> GroupTable {
    let columns = s(&[
        "origin_population_id",
        "date_time",
        "direction",
        "share_count_forward",
        "share_biomass_forward",
        "share_count_backward",
        "share_biomass_backward",
        "value",
        "name",
    ]);
    let mut rows = Vec::new();
    for (i, d) in dirs.iter().enumerate() {
        rows.push(s(&["O", "t0", d, "0.1", "0.2", "0.3", "0.4", &format!("{}", i + 1), &format!("n{}", i % 2)]));
    }
    GroupTable { columns, rows }
}

fn weighted_terms(r: &AggResult) -> Vec<(String, Option<String>)> {
    match &r.value {
        AggValue::Weighted(_, terms) => terms.iter().map(|t| (t.value.clone(), t.weight.clone())).collect(),
        _ => panic!("not weighted"),
    }
}

#[test]
fn weight_rules_swap_between_sum_and_avg() {
    assert_eq!(sum_weight(Direction::Forward, AggregateBy::Count), Weight::Factor(FactorColumn::CountBackward));
    assert_eq!(sum_weight(Direction::Backward, AggregateBy::Count), Weight::Factor(FactorColumn::CountForward));
    assert_eq!(avg_weight(Direction::Forward, AggregateBy::Count), Weight::Factor(FactorColumn::CountForward));
    assert_eq!(avg_weight(Direction::Backward, AggregateBy::Biomass), Weight::Factor(FactorColumn::BiomassBackward));
    assert_eq!(sum_weight(Direction::Identity, AggregateBy::Biomass), Weight::One);
    assert_eq!(avg_weight(Direction::Identity, AggregateBy::Count), Weight::One);
}

#[test]
fn weighted_group_of_forward_and_backward_rows() {
    let t = traced_table(&["forward", "backward"]);
    let aggs = vec![
        Aggregation::weighted_sum(s(&["value"]), "count".to_string(), false).unwrap(),
        Aggregation::weighted_avg("value".to_string(), "biomass".to_string()).unwrap(),
    ];
    let outs = apply_builtin_aggregations(&t, &aggs).unwrap();
    assert_eq!(outs.len(), 2);
    assert_eq!(outs[0].name, "value");
    assert!(matches!(outs[0].value, AggValue::Weighted(WeightedOp::Sum, _)));
    assert_eq!(
        weighted_terms(&outs[0]),
        vec![("1".to_string(), Some("0.3".to_string())), ("2".to_string(), Some("0.1".to_string()))]
    );
    assert_eq!(outs[1].name, "value_weighted_avg");
    assert_eq!(
        weighted_terms(&outs[1]),
        vec![("1".to_string(), Some("0.2".to_string())), ("2".to_string(), Some("0.4".to_string()))]
    );
}

#[test]
fn identity_rows_weigh_one() {
    let t = traced_table(&["identity"]);
    let aggs = vec![Aggregation::weighted_sum(s(&["value"]), "biomass".to_string(), false).unwrap()];
    let outs = apply_builtin_aggregations(&t, &aggs).unwrap();
    assert_eq!(weighted_terms(&outs[0]), vec![("1".to_string(), None)]);
}

#[test]
fn unknown_direction_fails_the_call() {
    let t = traced_table(&["forward", "sideways"]);
    let aggs = vec![Aggregation::weighted_sum(s(&["value"]), "count".to_string(), false).unwrap()];
    assert!(matches!(apply_builtin_aggregations(&t, &aggs), Err(SdtError::UnknownDirection(_))));
    let aggs = vec![Aggregation::weighted_avg("value".to_string(), "count".to_string()).unwrap()];
    assert!(matches!(apply_builtin_aggregations(&t, &aggs), Err(SdtError::UnknownDirection(_))));
}

#[test]
fn direction_parsing() {
    assert_eq!(parse_direction(&"forward".to_string()).unwrap(), Direction::Forward);
    assert_eq!(parse_direction(&"identity".to_string()).unwrap(), Direction::Identity);
    assert_eq!(parse_direction(&"backward".to_string()).unwrap(), Direction::Backward);
    assert!(matches!(parse_direction(&"Forward".to_string()), Err(SdtError::UnknownDirection(_))));
}

#[test]
fn invalid_aggregate_by_is_refused() {
    assert!(matches!(Aggregation::weighted_sum(s(&["v"]), "mass".to_string(), false), Err(SdtError::Validation(_))));
    assert!(matches!(Aggregation::weighted_avg("v".to_string(), "".to_string()), Err(SdtError::Validation(_))));
}

#[test]
fn concat_unique_is_idempotent() {
    let distinct = s(&["a", "b", "c"]);
    let sep = ", ".to_string();
    assert_eq!(concat_values(&distinct, &sep, true), concat_values(&distinct, &sep, false));
    assert_eq!(concat_values(&distinct, &sep, false), "a, b, c");
    let dup = s(&["x", "y", "x", "z", "y"]);
    let once = concat_values(&dup, &sep, true);
    assert_eq!(once, "x, y, z");
    assert_eq!(concat_values(&s(&["x", "y", "z"]), &sep, true), once);
    assert_eq!(concat_values(&dup, &sep, false), "x, y, x, z, y");
    assert_eq!(concat_values(&Vec::new(), &sep, true), "");
}

#[test]
fn concat_and_breakdown_outputs() {
    let t = traced_table(&["forward", "backward", "identity"]);
    let aggs = vec![
        Aggregation::concat(s(&["name"]), "|".to_string(), true),
        Aggregation::contribution_breakdown(s(&["name", "value"]), ":".to_string(), ", ".to_string(), None),
        Aggregation::contribution_breakdown(s(&["value"]), ":".to_string(), ";".to_string(), Some("bd".to_string())),
    ];
    let outs = apply_builtin_aggregations(&t, &aggs).unwrap();
    assert_eq!(outs.len(), 3);
    assert_eq!(outs[0].name, "name");
    assert!(matches!(&outs[0].value, AggValue::Text(x) if x == "n0|n1"));
    assert_eq!(outs[1].name, "contribution_breakdown");
    assert!(matches!(&outs[1].value, AggValue::Text(x) if x == "n0:1, n1:2, n0:3"));
    assert_eq!(outs[2].name, "bd");
    assert!(matches!(&outs[2].value, AggValue::Text(x) if x == "1;2;3"));
}

#[test]
fn reduction_outputs_are_named() {
    let t = traced_table(&["forward", "backward"]);
    let aggs = vec![
        Aggregation::min("value".to_string(), None),
        Aggregation::max("value".to_string(), Some("top".to_string())),
        Aggregation::sum(s(&["value", "share_count_forward"])),
        Aggregation::avg(s(&["value"])),
        Aggregation::custom(7),
    ];
    let outs = apply_builtin_aggregations(&t, &aggs).unwrap();
    let names: Vec<&str> = outs.iter().map(|o| o.name.as_str()).collect();
    assert_eq!(names, vec!["value_min", "top", "value_sum", "share_count_forward_sum", "value_avg", ""]);
    assert!(matches!(&outs[0].value, AggValue::Reduce(Reduction::Min, c) if *c == s(&["1", "2"])));
    assert!(matches!(&outs[4].value, AggValue::Reduce(Reduction::Mean, _)));
    assert!(matches!(outs[5].value, AggValue::Custom(7)));
}

#[test]
fn missing_column_is_reported() {
    let t = traced_table(&["forward"]);
    let aggs = vec![Aggregation::sum(s(&["nope"]))];
    assert!(matches!(apply_builtin_aggregations(&t, &aggs), Err(SdtError::ColumnNotFound(_))));
    let mut bare = traced_table(&["forward"]);
    bare.columns.truncate(2);
    for r in bare.rows.iter_mut() {
        r.truncate(2);
    }
    let aggs = vec![Aggregation::weighted_sum(s(&["date_time"]), "count".to_string(), false).unwrap()];
    assert!(matches!(apply_builtin_aggregations(&bare, &aggs), Err(SdtError::ColumnNotFound(_))));
}

#[test]
fn default_grouping_is_origin_and_timestamp() {
    let columns = s(&["origin_population_id", "date_time", "value"]);
    let rows = vec![
        s(&["A", "t1", "1"]),
        s(&["A", "t2", "2"]),
        s(&["B", "t1", "3"]),
        s(&["A", "t1", "4"]),
        s(&["B", "t1", "5"]),
    ];
    let t = GroupTable { columns, rows };
    let aggs = vec![Aggregation::sum(s(&["value"]))];
    let out = aggregate_traced_data(&t, &aggs, None).unwrap();
    assert_eq!(out.len(), 3);
    assert_eq!(out[0].key, s(&["A", "t1"]));
    assert_eq!(out[0].rows, vec![0usize, 3]);
    assert_eq!(out[1].key, s(&["A", "t2"]));
    assert_eq!(out[2].key, s(&["B", "t1"]));
    assert_eq!(out[2].rows, vec![2usize, 4]);
    assert!(matches!(&out[2].outputs[0].value, AggValue::Reduce(Reduction::Sum, c) if *c == s(&["3", "5"])));
}

#[test]
fn explicit_grouping_and_missing_key() {
    let columns = s(&["k", "v"]);
    let rows = vec![s(&["x", "1"]), s(&["y", "2"]), s(&["x", "3"])];
    let t = GroupTable { columns, rows };
    let (keys, groups) = partition_by(&t, &s(&["k"])).unwrap();
    assert_eq!(keys, vec![s(&["x"]), s(&["y"])]);
    assert_eq!(groups, vec![vec![0usize, 2], vec![1usize]]);
    let aggs = vec![Aggregation::concat(s(&["v"]), "+".to_string(), false)];
    let out = aggregate_traced_data(&t, &aggs, Some(s(&["k"]))).unwrap();
    assert!(matches!(&out[0].outputs[0].value, AggValue::Text(x) if x == "1+3"));
    assert!(matches!(aggregate_traced_data(&t, &aggs, None), Err(SdtError::ColumnNotFound(_))));
    let empty = GroupTable { columns: s(&["k"]), rows: vec![] };
    assert_eq!(aggregate_traced_data(&empty, &aggs, Some(s(&["k"]))).unwrap().len(), 0);
}
