use kannolo::report::{
    average_query_time, rows_of_flat_results, rows_of_nested_results, run_queries,
    space_usage_header, space_usage_line, ResultRow,
};
use kannolo::text::decimal_text;

fn lines(rows: &[ResultRow<f32>]) -> Vec<String> {
    rows.iter().map(|row| format!("{}{}", row.start(), row.score)).collect()
}

#[test]
fn flat_results_are_cut_into_queries() {
    let rows = rows_of_flat_results(&[(0.5f32, 7u64), (1.25, 3), (2.0, 9)], 2);
    assert_eq!(lines(&rows), vec!["0\t7\t1\t0.5", "0\t3\t2\t1.25", "1\t9\t1\t2"]);
    assert!(rows_of_flat_results::<f32>(&[], 0).is_empty());
}

#[test]
fn nested_results_may_differ_in_length() {
    let rows = rows_of_nested_results(&[vec![(0.5f32, 7u64)], vec![], vec![(1.0, 2), (2.5, 1)]]);
    assert_eq!(lines(&rows), vec!["0\t7\t1\t0.5", "2\t2\t1\t1", "2\t1\t2\t2.5"]);
}

#[test]
fn both_listings_agree() {
    let nested = [vec![(0.5f32, 7u64), (0.75, 8)], vec![(1.0, 2), (2.5, 1)]];
    let flat: Vec<(f32, u64)> = nested.concat();
    assert_eq!(lines(&rows_of_nested_results(&nested)), lines(&rows_of_flat_results(&flat, 2)));
}

#[test]
fn queries_are_run_in_turn_and_timed() {
    let search = |query: usize| (vec![(query as f32, 7u64); query], 10 + query as u128);
    let (results, time) = run_queries(3, 2, &search);
    let one_run = vec![(1.0f32, 7u64), (2.0, 7), (2.0, 7)];
    assert_eq!(results, [one_run.clone(), one_run].concat());
    assert_eq!(time, 66);
    let (nothing, no_time) = run_queries(3, 0, &search);
    assert!(nothing.is_empty());
    assert_eq!(no_time, 0);
}

#[test]
fn times_are_averaged_over_queries_and_runs() {
    assert_eq!(average_query_time(1000, 10, 3), 33);
    assert_eq!(average_query_time(5, 10, 1), 0);
}

#[test]
fn space_usage_is_tabulated() {
    assert_eq!(
        space_usage_header(),
        "dataset\tcomponent_type\tn_vectors\tn_dimensions\tavg_nnz\tspace_usage_bytes"
    );
    assert_eq!(
        space_usage_line("docs.bin", "u16", 100, 30522, "119.87", 4096),
        "docs.bin\tu16\t100\t30522\t119.87\t4096"
    );
}

#[test]
fn numbers_are_written_in_decimal() {
    for n in [0u64, 9, 10, 1234567890, u64::MAX] {
        assert_eq!(decimal_text(n), n.to_string());
    }
}
