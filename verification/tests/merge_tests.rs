use promql_search::coordinator::{aggregate_stats, merge_partials, PartialResult, ScanStats};
use promql_search::merge::{merge_matrix, merge_scalar, merge_vector};
use promql_search::value::{Label, ResultType, Sample, SearchError, Series, Value};

fn lbl(name: &str, value: &str) -> Label {
    Label { name: name.to_string(), value: value.to_string() }
}

fn sample(timestamp: i64, value: f64) -> Sample {
    Sample { timestamp, value_bits: value.to_bits() }
}

fn range_series(metric: Vec<Label>, samples: Vec<Sample>) -> Series {
    Series { metric, samples, sample: None, scalar_bits: None }
}

fn instant_series(metric: Vec<Label>, s: Sample) -> Series {
    Series { metric, samples: Vec::new(), sample: Some(s), scalar_bits: None }
}

fn scalar_series(value: f64) -> Series {
    Series { metric: Vec::new(), samples: Vec::new(), sample: None, scalar_bits: Some(value.to_bits()) }
}

#[test]
fn matrix_merge_joins_two_partials_of_one_series() {
    let series = vec![
        range_series(vec![lbl("__name__", "foo")], vec![sample(1, 10.0)]),
        range_series(vec![lbl("__name__", "foo")], vec![sample(2, 20.0)]),
    ];
    let merged = merge_matrix(&series);
    assert_eq!(merged.len(), 1);
    assert_eq!(merged[0].labels.len(), 1);
    assert_eq!(merged[0].labels[0].name, "__name__");
    assert_eq!(merged[0].labels[0].value, "foo");
    assert_eq!(merged[0].samples, vec![sample(1, 10.0), sample(2, 20.0)]);
}

#[test]
fn matrix_merge_last_write_wins_at_equal_timestamp() {
    let series = vec![
        range_series(vec![lbl("m", "1")], vec![sample(7, 1.0)]),
        range_series(vec![lbl("m", "1")], vec![sample(7, 2.5)]),
    ];
    let merged = merge_matrix(&series);
    assert_eq!(merged.len(), 1);
    assert_eq!(merged[0].samples, vec![sample(7, 2.5)]);
}

#[test]
fn matrix_merge_sorts_samples_by_timestamp() {
    let series = vec![range_series(
        vec![lbl("m", "1")],
        vec![sample(5, 50.0), sample(1, 10.0), sample(3, 30.0)],
    )];
    let merged = merge_matrix(&series);
    assert_eq!(merged[0].samples, vec![sample(1, 10.0), sample(3, 30.0), sample(5, 50.0)]);
}

#[test]
fn matrix_merge_groups_by_label_set_not_order() {
    let series = vec![
        range_series(vec![lbl("a", "1"), lbl("b", "2")], vec![sample(1, 1.0)]),
        range_series(vec![lbl("b", "2"), lbl("a", "1")], vec![sample(2, 2.0)]),
    ];
    let merged = merge_matrix(&series);
    assert_eq!(merged.len(), 1);
    assert_eq!(merged[0].samples, vec![sample(1, 1.0), sample(2, 2.0)]);
}

#[test]
fn matrix_merge_orders_series_canonically() {
    let series = vec![
        range_series(vec![lbl("name", "b")], vec![sample(1, 1.0)]),
        range_series(vec![lbl("name", "a")], vec![sample(1, 2.0)]),
    ];
    let merged = merge_matrix(&series);
    assert_eq!(merged.len(), 2);
    assert_eq!(merged[0].labels[0].value, "a");
    assert_eq!(merged[1].labels[0].value, "b");
}

#[test]
fn matrix_merge_is_idempotent_on_duplicated_input() {
    let series = vec![
        range_series(vec![lbl("m", "x")], vec![sample(1, 10.0), sample(2, 20.0)]),
        range_series(vec![lbl("m", "y")], vec![sample(1, 5.0)]),
    ];
    let mut doubled = Vec::new();
    for s in &series {
        doubled.push(range_series(
            s.metric.iter().map(|l| lbl(&l.name, &l.value)).collect(),
            s.samples.clone(),
        ));
    }
    for s in &series {
        doubled.push(range_series(
            s.metric.iter().map(|l| lbl(&l.name, &l.value)).collect(),
            s.samples.clone(),
        ));
    }
    let once = merge_matrix(&series);
    let twice = merge_matrix(&doubled);
    assert_eq!(once.len(), twice.len());
    for (a, b) in once.iter().zip(twice.iter()) {
        assert_eq!(a.samples, b.samples);
        assert_eq!(a.labels.len(), b.labels.len());
        for (la, lb) in a.labels.iter().zip(b.labels.iter()) {
            assert_eq!((la.name.as_str(), la.value.as_str()), (lb.name.as_str(), lb.value.as_str()));
        }
    }
}

#[test]
fn vector_merge_keeps_distinct_label_sets_apart() {
    let series = vec![
        instant_series(vec![lbl("a", "1")], sample(5, 100.0)),
        instant_series(vec![lbl("a", "2")], sample(5, 200.0)),
    ];
    let merged = merge_vector(&series);
    assert_eq!(merged.len(), 2);
    assert_eq!(merged[0].labels[0].value, "1");
    assert_eq!(merged[0].sample, sample(5, 100.0));
    assert_eq!(merged[1].labels[0].value, "2");
    assert_eq!(merged[1].sample, sample(5, 200.0));
}

#[test]
fn vector_merge_overwrites_same_series() {
    let series = vec![
        instant_series(vec![lbl("a", "1")], sample(5, 100.0)),
        instant_series(vec![lbl("a", "1")], sample(6, 300.0)),
    ];
    let merged = merge_vector(&series);
    assert_eq!(merged.len(), 1);
    assert_eq!(merged[0].sample, sample(6, 300.0));
}

#[test]
fn scalar_merge_takes_last_non_missing_value() {
    let series = vec![scalar_series(5.0), scalar_series(7.0), scalar_series(3.0)];
    let merged = merge_scalar(&series);
    assert_eq!(f64::from_bits(merged.value_bits), 3.0);
}

#[test]
fn scalar_merge_full_sample_overwrites_timestamp_too() {
    let series = vec![
        instant_series(Vec::new(), sample(11, 4.0)),
        scalar_series(9.0),
    ];
    let merged = merge_scalar(&series);
    // the bare scalar overwrites only the value, keeping the timestamp
    assert_eq!(merged.timestamp, 11);
    assert_eq!(f64::from_bits(merged.value_bits), 9.0);
}

fn partial(rt: Option<ResultType>, series: Vec<Series>) -> PartialResult {
    PartialResult {
        result_type: rt,
        series,
        stats: ScanStats { files: 1, records: 10, original_size: 100, compressed_size: 50 },
    }
}

#[test]
fn merge_partials_uses_first_declared_shape() {
    let partials = vec![
        partial(None, Vec::new()),
        partial(Some(ResultType::Matrix), vec![range_series(vec![lbl("m", "1")], vec![sample(1, 1.0)])]),
    ];
    match merge_partials(partials) {
        Ok(Value::Matrix(rvs)) => {
            assert_eq!(rvs.len(), 1);
            assert_eq!(rvs[0].samples, vec![sample(1, 1.0)]);
        },
        _ => panic!("expected a matrix"),
    }
}

#[test]
fn merge_partials_without_shape_is_invalid() {
    let partials = vec![partial(None, Vec::new()), partial(None, Vec::new())];
    match merge_partials(partials) {
        Err(SearchError::InvalidResultShape) => {},
        _ => panic!("expected InvalidResultShape"),
    }
}

#[test]
fn merge_partials_scalar_shape() {
    let partials = vec![partial(Some(ResultType::Scalar), vec![scalar_series(2.5)])];
    match merge_partials(partials) {
        Ok(Value::Scalar(s)) => assert_eq!(f64::from_bits(s.value_bits), 2.5),
        _ => panic!("expected a scalar"),
    }
}

#[test]
fn stats_sum_across_partials() {
    let partials = vec![
        partial(Some(ResultType::Matrix), Vec::new()),
        partial(Some(ResultType::Matrix), Vec::new()),
        partial(Some(ResultType::Matrix), Vec::new()),
    ];
    let total = aggregate_stats(&partials);
    assert_eq!(total.files, 3);
    assert_eq!(total.records, 30);
    assert_eq!(total.original_size, 300);
    assert_eq!(total.compressed_size, 150);
}

#[test]
fn stats_addition_saturates() {
    let mut acc = ScanStats { files: u64::MAX - 1, records: 0, original_size: 0, compressed_size: 0 };
    acc.add(&ScanStats { files: 5, records: 1, original_size: 0, compressed_size: 0 });
    assert_eq!(acc.files, u64::MAX);
    assert_eq!(acc.records, 1);
}
