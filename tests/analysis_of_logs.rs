use std::io::{BufRead, BufReader, Seek, SeekFrom, Write};

use rust_sim::analysis::{Analysis, AnalyzeError, ChartRange, TimingPoint};
use rust_sim::journal::{Journal, Snapshot};

fn lines(text: &str) -> Vec<String> {
    text.lines().map(|l| l.to_string()).collect()
}

fn values(v: &[f64]) -> Vec<String> {
    v.iter().map(|x| serde_json::to_string(x).unwrap()).collect()
}

#[test]
fn planar_log_gives_two_planar_trajectories() {
    let log = "1\t4\t[0.0,1.0,2.0,3.0]\t5\n2\t4\t[0.5,1.5,2.5,3.5]\t6\n";
    let a = Analysis::from_lines(&lines(log)).unwrap();
    let t = a.trajectories();
    assert_eq!(t.len(), 2);
    assert_eq!((t[0].body, t[0].dims), (0, 2));
    assert_eq!((t[1].body, t[1].dims), (1, 2));
    assert_eq!(t[0].points[1], vec!["0.5".to_string(), "1.5".to_string()]);
    assert_eq!(t[1].points[0], vec!["2.0".to_string(), "3.0".to_string()]);
    assert!(t.iter().all(|s| s.dims != 3));
}

#[test]
fn spatial_log_gives_two_spatial_trajectories() {
    let log = "1\t6\t[1,2,3,4,5,6]\t5\n2\t6\t[7,8,9,10,11,12]\t6\n3\t6\t[0,0,0,0,0,0]\t6\n";
    let a = Analysis::from_lines(&lines(log)).unwrap();
    let t = a.trajectories();
    assert_eq!(t.len(), 2);
    assert_eq!((t[0].body, t[0].dims), (0, 3));
    assert_eq!((t[1].body, t[1].dims), (1, 3));
    assert_eq!(t[1].points.len(), 3);
    assert_eq!(
        t[1].points[1],
        vec!["10".to_string(), "11".to_string(), "12".to_string()]
    );
}

#[test]
fn other_lengths_keep_timing_but_no_trajectory() {
    let log = "1\t3\t[1,2,3]\t5\n2\t0\t[]\t8\n";
    let a = Analysis::from_lines(&lines(log)).unwrap();
    assert!(a.trajectories().is_empty());
    assert_eq!(
        a.timing().clone(),
        vec![
            TimingPoint { sequence: 1, tick_cost_us: 5 },
            TimingPoint { sequence: 2, tick_cost_us: 8 }
        ]
    );
}

#[test]
fn mixed_log_gives_both_kinds() {
    let log = "1\t4\t[1,2,3,4]\t5\n2\t6\t[1,2,3,4,5,6]\t5\n";
    let a = Analysis::from_lines(&lines(log)).unwrap();
    let dims: Vec<usize> = a.trajectories().iter().map(|t| t.dims).collect();
    assert_eq!(dims, vec![2, 2, 3, 3]);
}

#[test]
fn malformed_lines_are_skipped() {
    let log = "\n   \nnot a record\n1\t2\t3\n1\t4\t[1,2,3,4]\t9\textra\n";
    let a = Analysis::from_lines(&lines(log)).unwrap();
    assert!(a.timing().is_empty());
    assert!(a.trajectories().is_empty());
}

#[test]
fn log_without_records_takes_default_range() {
    let a = Analysis::from_lines(&Vec::new()).unwrap();
    assert_eq!(
        a.timing_range(),
        ChartRange { x_low: 0, x_high: 1, y_low: 0, y_high: 1 }
    );
    let b = Analysis::from_lines(&lines("garbage\n\n")).unwrap();
    assert_eq!(b.timing_range(), a.timing_range());
    assert!(b.trajectories().is_empty());
}

#[test]
fn timing_range_spans_sequences_and_costs() {
    let log = "3\t0\t[]\t5\n1\t0\t[]\t9\n2\t0\t[]\t0\n";
    let a = Analysis::from_lines(&lines(log)).unwrap();
    assert_eq!(
        a.timing_range(),
        ChartRange { x_low: 1, x_high: 3, y_low: 0, y_high: 9 }
    );
}

#[test]
fn timing_range_of_single_point_is_widened() {
    let a = Analysis::from_lines(&lines("7\t0\t[]\t0\n")).unwrap();
    assert_eq!(
        a.timing_range(),
        ChartRange { x_low: 7, x_high: 8, y_low: 0, y_high: 1 }
    );
    let top = format!("{}\t0\t[]\t4\n", u64::MAX);
    let b = Analysis::from_lines(&lines(&top)).unwrap();
    assert_eq!(
        b.timing_range(),
        ChartRange { x_low: u64::MAX - 1, x_high: u64::MAX, y_low: 0, y_high: 4 }
    );
}

#[test]
fn unreadable_fields_stop_the_analysis() {
    let bad_seq = lines("1\t4\t[1,2,3,4]\t5\nx\t4\t[1,2,3,4]\t5\n");
    assert_eq!(Analysis::from_lines(&bad_seq).err(), Some(AnalyzeError::BadSequence));
    let bad_cost = lines("1\t4\t[1,2,3,4]\t-5\n");
    assert_eq!(Analysis::from_lines(&bad_cost).err(), Some(AnalyzeError::BadTickCost));
    let bad_positions = lines("1\t4\t1,2,3,4\t5\n");
    assert_eq!(Analysis::from_lines(&bad_positions).err(), Some(AnalyzeError::BadPositions));
}

#[test]
fn ingest_reads_line_by_line() {
    let mut a = Analysis::new();
    assert!(a.ingest("5\t4\t[1,2,3,4]\t2").is_ok());
    assert!(a.ingest("oops").is_ok());
    assert_eq!(a.ingest("6\t4\t[1,2,3,4]\tz"), Err(AnalyzeError::BadTickCost));
    assert_eq!(a.timing().len(), 1);
    assert_eq!(a.timing()[0], TimingPoint { sequence: 5, tick_cost_us: 2 });
}

#[test]
fn three_samples_through_a_file_read_back_in_order() {
    let mut file = tempfile::tempfile().unwrap();
    let mut journal = Journal::new();
    let samples = [[0.0, 3.0, 0.0], [0.1, 2.9, 0.2], [-1.5, 2.5, 1e-3]];
    for (k, s) in samples.iter().enumerate() {
        let line = journal.append(3, &values(s), 100 + k as u128).unwrap();
        file.write_all(line.as_bytes()).unwrap();
        file.sync_all().unwrap();
    }
    file.seek(SeekFrom::Start(0)).unwrap();
    let read: Vec<String> = BufReader::new(file).lines().map(|l| l.unwrap()).collect();
    let a = Analysis::from_lines(&read).unwrap();
    let sequences: Vec<u64> = a.timing().iter().map(|p| p.sequence).collect();
    assert_eq!(sequences, vec![1, 2, 3]);
    let costs: Vec<u128> = a.timing().iter().map(|p| p.tick_cost_us).collect();
    assert_eq!(costs, vec![100, 101, 102]);
}

#[test]
fn snapshot_is_flattened_body_after_body() {
    let mut journal = Journal::new();
    let snapshot = Snapshot {
        bodies: vec![values(&[0.0, 3.0, 0.0]), values(&[0.0, 3.0, 1.0])],
        tick_cost_us: 17,
    };
    let line = journal.append_snapshot(&snapshot).unwrap();
    assert_eq!(line, "1\t6\t[0.0,3.0,0.0,0.0,3.0,1.0]\t17\n");
    let a = Analysis::from_lines(&vec![line]).unwrap();
    let t = a.trajectories();
    assert_eq!(t.len(), 2);
    assert_eq!(t[1].points[0], values(&[0.0, 3.0, 1.0]));
}
