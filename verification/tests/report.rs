use kube_resources::{
    add_data, cpu_field, parse_resource_data, pods_field, rank, rank_keys, report_row,
    requests_field, round_half_even, usage_field, Filter, Mebibytes, ResouceRequests,
    ResourceStatus,
};

fn mib(whole: u32) -> Mebibytes {
    Mebibytes::from_whole(whole)
}

fn record(name: &str, cpu: u32, mem: u32, storage: u32, pods: usize) -> ResouceRequests {
    ResouceRequests::new(
        name.to_string(),
        cpu,
        4000,
        cpu / 2,
        mib(mem),
        mib(8192),
        mib(mem / 2),
        mib(storage),
        mib(102_400),
        pods,
        110,
    )
}

fn names(rows: &[ResourceStatus]) -> Vec<String> {
    rows.iter().map(|row| row.name.clone()).collect()
}

fn sample() -> Vec<ResouceRequests> {
    vec![
        record("a", 500, 2048, 10, 7),
        record("b", 500, 4096, 30, 3),
        record("c", 1000, 1024, 30, 9),
        record("d", 250, 4096, 20, 9),
    ]
}

#[test]
fn equal_cpu_requests_keep_their_order() {
    let records = vec![
        record("A", 500, 1, 1, 1),
        record("B", 500, 1, 1, 1),
        record("C", 1000, 1, 1, 1),
    ];
    let rows = parse_resource_data(records, Filter::Cpu);
    assert_eq!(names(&rows), vec!["C", "A", "B"]);
}

#[test]
fn ranked_by_each_figure() {
    assert_eq!(
        names(&parse_resource_data(sample(), Filter::Cpu)),
        vec!["c", "a", "b", "d"]
    );
    assert_eq!(
        names(&parse_resource_data(sample(), Filter::Mem)),
        vec!["b", "d", "a", "c"]
    );
    assert_eq!(
        names(&parse_resource_data(sample(), Filter::Storage)),
        vec!["b", "c", "d", "a"]
    );
    assert_eq!(
        names(&parse_resource_data(sample(), Filter::Pods)),
        vec!["c", "d", "a", "b"]
    );
}

#[test]
fn unsorted_report_keeps_the_order_of_the_records() {
    assert_eq!(
        names(&parse_resource_data(sample(), Filter::Unsorted)),
        vec!["a", "b", "c", "d"]
    );
}

#[test]
fn one_row_for_each_record() {
    for sort_by in [
        Filter::Cpu,
        Filter::Mem,
        Filter::Storage,
        Filter::Pods,
        Filter::Unsorted,
    ] {
        assert_eq!(parse_resource_data(Vec::new(), sort_by).len(), 0);
        assert_eq!(parse_resource_data(sample(), sort_by).len(), 4);
        let many: Vec<ResouceRequests> = (0..37)
            .map(|i| record("n", (i * 7) % 5, (i * 3) % 4, i % 3, (i as usize) % 2))
            .collect();
        assert_eq!(parse_resource_data(many, sort_by).len(), 37);
    }
}

#[test]
fn ranking_lists_every_position_once() {
    let records: Vec<ResouceRequests> = (0..50u32)
        .map(|i| record("n", (i * 37) % 11, 1, 1, 1))
        .collect();
    let order = rank(&records, Filter::Cpu);
    let mut seen = order.clone();
    seen.sort();
    assert_eq!(seen, (0..50).collect::<Vec<usize>>());
    for pair in order.windows(2) {
        let (first, second) = (&records[pair[0]], &records[pair[1]]);
        assert!(
            first.cpu_requests > second.cpu_requests
                || (first.cpu_requests == second.cpu_requests && pair[0] < pair[1])
        );
    }
}

#[test]
fn ranking_of_keys() {
    assert_eq!(rank_keys(&vec![]), Vec::<usize>::new());
    assert_eq!(rank_keys(&vec![5]), vec![0]);
    assert_eq!(rank_keys(&vec![500, 500, 1000]), vec![2, 0, 1]);
    assert_eq!(rank_keys(&vec![1, 2, 3, 4]), vec![3, 2, 1, 0]);
    assert_eq!(rank_keys(&vec![7, 7, 7]), vec![0, 1, 2]);
    assert_eq!(rank_keys(&vec![0, u64::MAX, 0, u64::MAX]), vec![1, 3, 0, 2]);
}

#[test]
fn requested_memory_with_its_share() {
    let mut it = record("node", 0, 512, 0, 0);
    it.mem_total = mib(1024);
    let rows = parse_resource_data(vec![it], Filter::Unsorted);
    assert_eq!(rows[0].mem_requests, "512Mi (50.00%)");
}

#[test]
fn row_of_a_record() {
    let it = ResouceRequests::new(
        "worker-1".to_string(),
        500,
        1000,
        250,
        Mebibytes { micros: 1_536_500_000 },
        mib(4096),
        Mebibytes { micros: 123_456_789 },
        Mebibytes { micros: 953_674 },
        mib(100),
        12,
        110,
    );
    let row = report_row(&it);
    assert_eq!(
        row,
        ResourceStatus::new(
            "worker-1".to_string(),
            "500m (50.00%)".to_string(),
            "250m (25.00%)".to_string(),
            "1536.5Mi (37.51%)".to_string(),
            "123.46Mi (3.01%)".to_string(),
            "0.953674Mi (0.95%)".to_string(),
            "12 / 110".to_string(),
        )
    );
}

#[test]
fn cpu_figures() {
    assert_eq!(cpu_field(500, 1000), "500m (50.00%)");
    assert_eq!(cpu_field(0, 1000), "0m (0.00%)");
    assert_eq!(cpu_field(1, 3), "1m (33.33%)");
    assert_eq!(cpu_field(2, 3), "2m (66.67%)");
    assert_eq!(cpu_field(3000, 2000), "3000m (150.00%)");
    assert_eq!(cpu_field(u32::MAX, 1), "4294967295m (429496729500.00%)");
    assert_eq!(cpu_field(1, u32::MAX), "1m (0.00%)");
}

#[test]
fn share_in_nothing() {
    assert_eq!(cpu_field(0, 0), "0m (NaN%)");
    assert_eq!(cpu_field(500, 0), "500m (inf%)");
    assert_eq!(requests_field(mib(0), mib(0)), "0Mi (NaN%)");
    assert_eq!(requests_field(mib(1), mib(0)), "1Mi (inf%)");
    assert_eq!(usage_field(mib(0), mib(0)), "0.00Mi (NaN%)");
    assert_eq!(usage_field(mib(1), mib(0)), "1.00Mi (inf%)");
}

#[test]
fn memory_figures() {
    assert_eq!(requests_field(mib(512), mib(1024)), "512Mi (50.00%)");
    assert_eq!(
        requests_field(Mebibytes { micros: 1_500_000 }, mib(3)),
        "1.5Mi (50.00%)"
    );
    assert_eq!(
        requests_field(Mebibytes { micros: 1 }, mib(1)),
        "0.000001Mi (0.00%)"
    );
    assert_eq!(usage_field(mib(512), mib(1024)), "512.00Mi (50.00%)");
    assert_eq!(
        usage_field(Mebibytes { micros: 1_234_567 }, mib(10)),
        "1.23Mi (12.35%)"
    );
    assert_eq!(
        usage_field(Mebibytes { micros: u64::MAX }, Mebibytes { micros: u64::MAX }),
        "18446744073709.55Mi (100.00%)"
    );
}

#[test]
fn pods_figures() {
    assert_eq!(pods_field(12, 110), "12 / 110");
    assert_eq!(pods_field(0, 0), "0 / 0");
    assert_eq!(
        pods_field(usize::MAX, 1),
        format!("{} / 1", usize::MAX)
    );
}

#[test]
fn halves_go_to_the_even_neighbour() {
    assert_eq!(round_half_even(5, 10), 0);
    assert_eq!(round_half_even(15, 10), 2);
    assert_eq!(round_half_even(25, 10), 2);
    assert_eq!(round_half_even(35, 10), 4);
    assert_eq!(round_half_even(14, 10), 1);
    assert_eq!(round_half_even(16, 10), 2);
    assert_eq!(round_half_even(0, 7), 0);
    assert_eq!(round_half_even(u128::MAX, 1), u128::MAX);
    assert_eq!(round_half_even(u128::MAX, u128::MAX), 1);
    assert_eq!(round_half_even(u128::MAX - 1, u128::MAX), 1);
    assert_eq!(round_half_even(1, u128::MAX), 0);
    assert_eq!(usage_field(Mebibytes { micros: 125_000 }, mib(1)), "0.12Mi (12.50%)");
    assert_eq!(usage_field(Mebibytes { micros: 135_000 }, mib(1)), "0.14Mi (13.50%)");
    assert_eq!(cpu_field(1, 8000), "1m (0.01%)");
    assert_eq!(cpu_field(3, 8000), "3m (0.04%)");
}

#[test]
fn records_are_added_at_the_end() {
    let mut records = Vec::new();
    add_data(
        "first".to_string(),
        1,
        2,
        3,
        mib(4),
        mib(5),
        mib(6),
        mib(7),
        mib(8),
        9,
        10,
        &mut records,
    );
    add_data(
        "second".to_string(),
        11,
        12,
        13,
        mib(14),
        mib(15),
        mib(16),
        mib(17),
        mib(18),
        19,
        20,
        &mut records,
    );
    assert_eq!(records.len(), 2);
    assert_eq!(
        records[0],
        ResouceRequests {
            name: "first".to_string(),
            cpu_requests: 1,
            cpu_total: 2,
            cpu_usage: 3,
            mem_requests: mib(4),
            mem_total: mib(5),
            mem_usage: mib(6),
            storage_requests: mib(7),
            storage_total: mib(8),
            pods: 9,
            pods_total: 10,
        }
    );
    assert_eq!(records[1].name, "second");
    assert_eq!(records[1].pods_total, 20);
}
