use nccl_skew::align::{align_kernel, analyze, slow_percentage};
use nccl_skew::group::{distinct_names, group_by_name_and_rank};
use nccl_skew::order::{bytes_less, name_less};
use nccl_skew::ranks::{distinct_ranks, rank_label, KernelEvent, ProcessRow};
use nccl_skew::text::{format_duration, signed_text, unsigned_text};

fn ev(start: i64, end: i64, rank: i64, name: &str) -> KernelEvent {
    KernelEvent {
        start,
        end,
        global_pid: rank,
        short_name: name.to_string(),
        demangled_name: format!("{name}_kernel"),
    }
}

#[test]
fn skew_below_threshold_is_not_slow() {
    let ks = vec![
        ev(100, 200, 0, "ncclAllReduce"),
        ev(100_600, 100_700, 1, "ncclAllReduce"),
    ];
    let a = analyze(&ks, 500);
    assert_eq!(a.ranks, vec![0, 1]);
    assert_eq!(a.kernels.len(), 1);
    let k = &a.kernels[0];
    assert_eq!(k.name, "ncclAllReduce");
    assert_eq!(k.total_launches, 1);
    assert_eq!(k.slow_launches, 0);
    assert_eq!(k.total_skew, 100_500);
    assert_eq!(k.total_slow_skew, 0);
    assert!(!k.occurrences[0].slow);
    assert_eq!(format_duration(k.total_skew as i128), "100.500\u{3bc}s");
}

#[test]
fn skew_at_threshold_is_slow() {
    let ks = vec![
        ev(100, 200, 0, "ncclAllReduce"),
        ev(1_000_100, 1_000_300, 1, "ncclAllReduce"),
    ];
    let a = analyze(&ks, 500);
    let k = &a.kernels[0];
    assert_eq!(k.slow_launches, 1);
    assert_eq!(k.total_launches, 1);
    let o = &k.occurrences[0];
    assert!(o.slow);
    assert_eq!(o.skew, 1_000_000);
    assert_eq!(o.launches[0].rank, 0);
    assert_eq!(o.launches[0].offset, 0);
    assert_eq!(o.launches[1].offset, 1_000_000);
    assert_eq!(o.launches[1].duration, 200);
    assert_eq!(format_duration(o.launches[0].offset as i128), "0.000ns");
    assert_eq!(format_duration(o.launches[1].offset as i128), "1.000ms");
    assert_eq!(format_duration(o.skew as i128), "1.000ms");
}

#[test]
fn kernel_missing_on_a_rank_is_excluded() {
    let ks = vec![
        ev(10, 20, 0, "ncclAllReduce"),
        ev(15, 25, 1, "ncclAllReduce"),
        ev(30, 40, 0, "ncclBroadcast"),
        ev(50, 60, 0, "ncclBroadcast"),
    ];
    let a = analyze(&ks, 500);
    assert_eq!(a.kernels.len(), 1);
    assert_eq!(a.kernels[0].name, "ncclAllReduce");
    assert!(a.kernels.iter().all(|k| k.name != "ncclBroadcast"));
}

#[test]
fn labels_without_metadata_are_synthetic() {
    let rows: Vec<ProcessRow> = Vec::new();
    assert_eq!(rank_label(&rows, 0), "rank 0");
    assert_eq!(rank_label(&rows, 281474976710656), "rank 281474976710656");
    assert_eq!(rank_label(&rows, -4), "rank -4");
}

#[test]
fn no_kernels_gives_empty_analysis() {
    let ks: Vec<KernelEvent> = Vec::new();
    let a = analyze(&ks, 500);
    assert!(a.ranks.is_empty());
    assert!(a.kernels.is_empty());
}

#[test]
fn total_launches_is_least_count_over_ranks() {
    let ks = vec![
        ev(1, 2, 7, "ncclAllGather"),
        ev(3, 4, 7, "ncclAllGather"),
        ev(5, 6, 7, "ncclAllGather"),
        ev(2, 3, 9, "ncclAllGather"),
        ev(8, 9, 9, "ncclAllGather"),
        ev(4, 5, 3, "ncclAllGather"),
    ];
    let a = analyze(&ks, 0);
    assert_eq!(a.ranks, vec![3, 7, 9]);
    let k = &a.kernels[0];
    assert_eq!(k.total_launches, 1);
    assert_eq!(k.occurrences.len(), 1);
    let o = &k.occurrences[0];
    assert_eq!(o.earliest, 1);
    assert_eq!(o.latest, 4);
    assert_eq!(o.skew, 3);
    let offsets: Vec<u64> = o.launches.iter().map(|l| l.offset).collect();
    assert_eq!(offsets, vec![3, 0, 1]);
}

#[test]
fn zero_threshold_marks_every_occurrence_slow() {
    let ks = vec![
        ev(10, 20, 0, "ncclReduce"),
        ev(10, 20, 1, "ncclReduce"),
        ev(30, 40, 0, "ncclReduce"),
        ev(35, 45, 1, "ncclReduce"),
    ];
    let a = analyze(&ks, 0);
    let k = &a.kernels[0];
    assert_eq!(k.total_launches, 2);
    assert_eq!(k.slow_launches, 2);
    assert_eq!(k.total_skew, 5);
    assert_eq!(k.total_slow_skew, 5);
    assert_eq!(slow_percentage(k.slow_launches, k.total_launches), 10000);
    let b = analyze(&ks, 1);
    assert_eq!(b.kernels[0].slow_launches, 0);
    assert_eq!(b.kernels[0].total_slow_skew, 0);
}

#[test]
fn slow_only_at_or_above_threshold() {
    let ks = vec![
        ev(0, 1, 0, "ncclSend"),
        ev(1_000, 1_001, 1, "ncclSend"),
        ev(5_000, 5_001, 0, "ncclSend"),
        ev(5_999, 6_000, 1, "ncclSend"),
    ];
    let a = analyze(&ks, 1);
    let k = &a.kernels[0];
    assert_eq!(k.slow_launches, 1);
    assert!(k.occurrences[0].slow);
    assert!(!k.occurrences[1].slow);
    assert_eq!(k.total_skew, 1_999);
    assert_eq!(k.total_slow_skew, 1_000);
    assert_eq!(slow_percentage(k.slow_launches, k.total_launches), 5000);
}

#[test]
fn grouping_sorts_each_rank_stably() {
    let ks = vec![
        ev(50, 60, 1, "ncclAllReduce"),
        ev(10, 20, 1, "ncclAllReduce"),
        ev(10, 30, 1, "ncclAllReduce"),
        ev(5, 6, 0, "ncclAllReduce"),
        ev(7, 8, 1, "ncclBroadcast"),
    ];
    let gs = group_by_name_and_rank(&ks);
    assert_eq!(gs.len(), 2);
    assert_eq!(gs[0].name, "ncclAllReduce");
    assert_eq!(gs[0].per_rank.len(), 2);
    assert_eq!(gs[0].per_rank[0].rank, 0);
    assert_eq!(gs[0].per_rank[0].positions, vec![3]);
    assert_eq!(gs[0].per_rank[1].rank, 1);
    assert_eq!(gs[0].per_rank[1].positions, vec![1, 2, 0]);
    assert_eq!(gs[1].name, "ncclBroadcast");
    assert_eq!(gs[1].per_rank.len(), 1);
    assert_eq!(gs[1].per_rank[0].positions, vec![4]);
}

#[test]
fn align_kernel_needs_every_rank() {
    let ks = vec![
        ev(1, 2, 0, "ncclAllReduce"),
        ev(3, 4, 1, "ncclBroadcast"),
    ];
    let gs = group_by_name_and_rank(&ks);
    let ranks = distinct_ranks(&ks);
    assert!(align_kernel(&ks, &gs[0], &ranks, 500).is_none());
    assert!(align_kernel(&ks, &gs[1], &ranks, 500).is_none());
    assert!(align_kernel(&ks, &gs[0], &vec![0], 500).is_some());
    assert!(align_kernel(&ks, &gs[0], &Vec::new(), 500).is_none());
}

#[test]
fn distinct_ranks_are_sorted_and_unique() {
    let ks = vec![
        ev(1, 2, 5, "ncclA"),
        ev(1, 2, -2, "ncclA"),
        ev(1, 2, 5, "ncclB"),
        ev(1, 2, 3, "ncclA"),
    ];
    assert_eq!(distinct_ranks(&ks), vec![-2, 3, 5]);
}

#[test]
fn labels_from_process_metadata() {
    let rows = vec![
        ProcessRow { global_pid: 1, pid: Some(100), name: Some("python".to_string()) },
        ProcessRow { global_pid: 2, pid: Some(200), name: None },
        ProcessRow { global_pid: 3, pid: None, name: Some("worker".to_string()) },
        ProcessRow { global_pid: 4, pid: None, name: None },
        ProcessRow { global_pid: 5, pid: Some(1), name: None },
        ProcessRow { global_pid: 5, pid: Some(2), name: None },
    ];
    assert_eq!(rank_label(&rows, 1), "pid 100 (python)");
    assert_eq!(rank_label(&rows, 2), "pid 200");
    assert_eq!(rank_label(&rows, 3), "worker");
    assert_eq!(rank_label(&rows, 4), "rank 4");
    assert_eq!(rank_label(&rows, 5), "pid 2");
    assert_eq!(rank_label(&rows, 6), "rank 6");
}

#[test]
fn duration_units_and_rounding() {
    assert_eq!(format_duration(0), "0.000ns");
    assert_eq!(format_duration(999), "999.000ns");
    assert_eq!(format_duration(-5), "-5.000ns");
    assert_eq!(format_duration(1_000), "1.000\u{3bc}s");
    assert_eq!(format_duration(-1_500), "-1.500\u{3bc}s");
    assert_eq!(format_duration(1_234_567), "1.235ms");
    assert_eq!(format_duration(1_234_499), "1.234ms");
    assert_eq!(format_duration(2_500_000_000), "2.500s");
    assert_eq!(format_duration(-61_000_000_000), "-61.000s");
    assert_eq!(format_duration(i128::MIN).starts_with('-'), true);
}

#[test]
fn decimal_text() {
    assert_eq!(unsigned_text(0), "0");
    assert_eq!(unsigned_text(1_234_567_890), "1234567890");
    assert_eq!(signed_text(-42), "-42");
    assert_eq!(signed_text(i128::MIN), "-170141183460469231731687303715884105728");
}

#[test]
fn percentage_rounds_to_hundredths() {
    assert_eq!(slow_percentage(1, 3), 3333);
    assert_eq!(slow_percentage(2, 3), 6667);
    assert_eq!(slow_percentage(0, 5), 0);
}

#[test]
fn report_lists_names_in_byte_order() {
    let ks = vec![
        ev(1, 2, 0, "ncclReduce"),
        ev(2, 3, 0, "ncclAllGather"),
        ev(3, 4, 0, "ncclReduce"),
        ev(4, 5, 0, "ncclZ"),
        ev(5, 6, 0, "ncclAllGather"),
    ];
    assert_eq!(distinct_names(&ks), vec!["ncclAllGather", "ncclReduce", "ncclZ"]);
    let a = analyze(&ks, 500);
    let names: Vec<&str> = a.kernels.iter().map(|k| k.name.as_str()).collect();
    assert_eq!(names, vec!["ncclAllGather", "ncclReduce", "ncclZ"]);
    assert_eq!(a.kernels[1].total_launches, 2);
    assert_eq!(a.kernels[1].total_skew, 0);
}

#[test]
fn byte_order_of_names() {
    assert!(bytes_less(b"abc", b"abd"));
    assert!(bytes_less(b"ab", b"abc"));
    assert!(!bytes_less(b"abc", b"ab"));
    assert!(!bytes_less(b"abc", b"abc"));
    assert!(bytes_less(b"", b"a"));
    assert!(name_less(&"Zeta".to_string(), &"alpha".to_string()));
    assert!(name_less(&"z".to_string(), &"\u{3bc}".to_string()));
    assert!(!name_less(&"\u{3bc}".to_string(), &"z".to_string()));
}
