use telemplot::record::{parse_record, RawRecord};
use telemplot::store::{Data, DataSeries, DataType};

fn record(
    scope: &str,
    mem_cur: Option<&str>,
    mem_peak: Option<&str>,
    files: &[(&str, &str)],
    order_marker: u64,
) -> RawRecord {
    RawRecord {
        name: Some("DEBUT".to_owned()),
        scope: Some(scope.to_owned()),
        memory_current: mem_cur.map(|s| s.to_owned()),
        memory_peak: mem_peak.map(|s| s.to_owned()),
        files: files
            .iter()
            .map(|(k, v)| ((*k).to_owned(), (*v).to_owned()))
            .collect(),
        timestamp: Some(order_marker),
        order_marker,
    }
}

fn series(kind: DataType, rank: Option<u32>, ident: &str) -> DataSeries {
    DataSeries {
        kind,
        rank,
        file_identifier: ident.to_owned(),
    }
}

#[test]
fn test_sequences_are_renumbered_consecutively() {
    let mut data = Data::new();
    // Ordering markers with gaps and out of order: they must not matter.
    for marker in [17, 3, 99, 4] {
        let point = parse_record(&record("proc.0", Some("1.5"), None, &[], marker)).unwrap();
        data.ingest(point);
    }
    let sequences: Vec<usize> = data.points.iter().map(|p| p.sequence).collect();
    assert_eq!(sequences, vec![0, 1, 2, 3]);
}

#[test]
fn test_scenario_two_records() {
    let mut data = Data::new();
    let first = parse_record(&record("global", None, None, &[("glob.1", "1236")], 0)).unwrap();
    let second = parse_record(&record(
        "proc.0",
        Some("123.5"),
        Some("150.0"),
        &[("fort.20", "547")],
        1,
    ))
    .unwrap();
    data.ingest(first);
    data.ingest(second);

    let listed = data.available_data();
    assert_eq!(listed.len(), 3);
    let keys: Vec<(DataType, Option<u32>, String)> = listed
        .iter()
        .map(|s| (s.kind, s.rank, s.file_identifier.clone()))
        .collect();
    assert!(keys.contains(&(DataType::Memory, Some(0), String::new())));
    assert!(keys.contains(&(DataType::DiskSpace, None, "glob.1".to_owned())));
    assert!(keys.contains(&(DataType::DiskSpace, Some(0), "fort.20".to_owned())));

    // Distinct keys render distinct display names.
    let mut names: Vec<String> = listed.iter().map(|s| s.name()).collect();
    names.sort();
    names.dedup();
    assert_eq!(names.len(), 3);
}

#[test]
fn test_available_data_reports_no_duplicate_keys() {
    let mut data = Data::new();
    for marker in 0..4 {
        let point = parse_record(&record(
            "proc.1",
            Some("2.5"),
            None,
            &[("fort.20", "10"), ("fort.20", "11"), ("glob.1", "5")],
            marker,
        ))
        .unwrap();
        data.ingest(point);
    }
    let listed = data.available_data();
    assert_eq!(listed.len(), 3);
    for a in 0..listed.len() {
        for b in (a + 1)..listed.len() {
            let same = listed[a].kind == listed[b].kind
                && listed[a].rank == listed[b].rank
                && listed[a].file_identifier == listed[b].file_identifier;
            assert!(!same, "duplicate series key at {a} and {b}");
        }
    }
}

#[test]
fn test_get_data_unmatched_key_yields_empty() {
    let mut data = Data::new();
    let point = parse_record(&record("proc.0", Some("1.0"), None, &[], 0)).unwrap();
    data.ingest(point);
    // No rank-7 data and no such file anywhere: empty, not an error.
    let missing = series(DataType::Memory, Some(7), "");
    assert!(missing.get_data(&data).is_empty());
    let missing_file = series(DataType::DiskSpace, Some(0), "nowhere.dat");
    assert!(missing_file.get_data(&data).is_empty());
    let empty = Data::new();
    assert!(missing.get_data(&empty).is_empty());
}

#[test]
fn test_get_data_filters_and_keeps_order() {
    let mut data = Data::new();
    data.ingest(parse_record(&record("proc.0", Some("1.0"), None, &[], 0)).unwrap());
    data.ingest(parse_record(&record("global", None, None, &[("g", "1")], 1)).unwrap());
    data.ingest(parse_record(&record("proc.0", Some("2.0"), None, &[], 2)).unwrap());
    let memory0 = series(DataType::Memory, Some(0), "");
    let points = memory0.get_data(&data);
    assert_eq!(points.len(), 2);
    assert_eq!(points[0].sequence, 0);
    assert_eq!(points[0].memory_current, Some(1_000));
    assert_eq!(points[1].sequence, 2);
    assert_eq!(points[1].memory_current, Some(2_000));
}

#[test]
fn test_plot_points_pairs() {
    let mut data = Data::new();
    data.ingest(parse_record(&record("proc.0", Some("1.5"), None, &[("f", "10")], 0)).unwrap());
    data.ingest(parse_record(&record("proc.0", None, Some("3.5"), &[("f", "20")], 1)).unwrap());
    data.ingest(parse_record(&record("global", None, None, &[("f", "30")], 2)).unwrap());

    let memory0 = series(DataType::Memory, Some(0), "");
    assert_eq!(memory0.plot_points(&data), vec![(0, 1_500), (1, 3_500)]);

    let file0 = series(DataType::DiskSpace, Some(0), "f");
    assert_eq!(file0.plot_points(&data), vec![(0, 10_000), (1, 20_000)]);

    let file_global = series(DataType::DiskSpace, None, "f");
    assert_eq!(file_global.plot_points(&data), vec![(2, 30_000)]);
}

#[test]
fn test_series_display_names() {
    assert_eq!(series(DataType::Memory, Some(0), "").name(), "Memory_0_");
    assert_eq!(
        series(DataType::DiskSpace, None, "glob.1").name(),
        "DiskSpace_global_glob.1"
    );
    assert_eq!(
        series(DataType::DiskSpace, Some(1234567890), "x.dat").name(),
        "DiskSpace_1234567890_x.dat"
    );
}

#[test]
fn test_series_identifier() {
    assert_eq!(series(DataType::DiskSpace, Some(0), "fort.20").identifier(), "fort.20");
    // A memory series has no meaningful file identifier, whatever is stored.
    assert_eq!(series(DataType::Memory, Some(0), "fort.20").identifier(), "");
}
