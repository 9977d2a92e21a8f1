use rust_sim::journal::{AppendError, Journal};
use rust_sim::record::{parse_list, value_text, Record, RecordError};

fn texts(values: &[f64]) -> Vec<String> {
    values.iter().map(|v| serde_json::to_string(v).unwrap()).collect()
}

fn is_valid_log_entry(entry: &str) -> bool {
    match Record::parse(entry) {
        Ok(r) => r.positions.len() == r.dimension,
        Err(_) => false,
    }
}

#[test]
fn test_log_entry_format() {
    let mut journal = Journal::new();
    let solution = texts(&[1.0, 2.0, 3.0]);
    let time_taken_us = 123456;

    let written = journal.append(3, &solution, time_taken_us).unwrap();

    let log_entry = format!(
        "1\t3\t{}\t{}\n",
        serde_json::to_string(&vec![1.0f64, 2.0, 3.0]).unwrap(),
        time_taken_us
    );

    assert_eq!(written, log_entry);
    assert!(is_valid_log_entry(&log_entry));
}

#[test]
fn record_line_round_trips() {
    let record = Record {
        sequence: 42,
        dimension: 4,
        positions: vec!["0.5".to_string(), "-3.25".to_string(), "1e-7".to_string(), "7".to_string()],
        tick_cost_us: 987654321,
    };
    let line = record.to_line();
    assert_eq!(line, "42\t4\t[0.5,-3.25,1e-7,7]\t987654321\n");
    let back = Record::parse(&line).unwrap();
    assert_eq!(back.sequence, 42);
    assert_eq!(back.dimension, 4);
    assert_eq!(back.positions, record.positions);
    assert_eq!(back.tick_cost_us, 987654321);
}

#[test]
fn record_with_largest_numbers_round_trips() {
    let record = Record {
        sequence: u64::MAX,
        dimension: 0,
        positions: Vec::new(),
        tick_cost_us: u128::MAX,
    };
    let line = record.to_line();
    assert_eq!(line, format!("{}\t0\t[]\t{}\n", u64::MAX, u128::MAX));
    let back = Record::parse(&line).unwrap();
    assert_eq!(back.sequence, u64::MAX);
    assert_eq!(back.tick_cost_us, u128::MAX);
    assert!(back.positions.is_empty());
}

#[test]
fn parse_tolerates_white_space() {
    let r = Record::parse("  7\t2\t[ 1.5 , 2 ]\t30 \r\n").unwrap();
    assert_eq!(r.sequence, 7);
    assert_eq!(r.positions, vec!["1.5".to_string(), "2".to_string()]);
    assert_eq!(r.tick_cost_us, 30);
}

#[test]
fn parse_errors() {
    assert_eq!(Record::parse("1\t2\t[1,2]").err(), Some(RecordError::FieldCount));
    assert_eq!(Record::parse("").err(), Some(RecordError::FieldCount));
    assert_eq!(Record::parse("x\t2\t[1,2]\t3").err(), Some(RecordError::BadSequence));
    assert_eq!(
        Record::parse("18446744073709551616\t2\t[1,2]\t3").err(),
        Some(RecordError::BadSequence)
    );
    assert_eq!(Record::parse("1\t-2\t[1,2]\t3").err(), Some(RecordError::BadDimension));
    assert_eq!(Record::parse("1\t2\t1,2\t3").err(), Some(RecordError::BadPositions));
    assert_eq!(Record::parse("1\t2\t[1,,2]\t3").err(), Some(RecordError::BadPositions));
    assert_eq!(Record::parse("1\t2\t[1,2]\t3.5").err(), Some(RecordError::BadTickCost));
    assert_eq!(Record::parse("1\t3\t[1,2]\t3").err(), Some(RecordError::DimensionMismatch));
}

#[test]
fn positions_field_reading() {
    let chars: Vec<char> = "[]".chars().collect();
    assert_eq!(parse_list(&chars), Some(Vec::new()));
    let chars: Vec<char> = " [ ] ".chars().collect();
    assert_eq!(parse_list(&chars), Some(Vec::new()));
    let chars: Vec<char> = "[1.0,-2e3]".chars().collect();
    assert_eq!(parse_list(&chars), Some(vec!["1.0".to_string(), "-2e3".to_string()]));
    let chars: Vec<char> = "[[1],2]".chars().collect();
    assert_eq!(parse_list(&chars), None);
    let chars: Vec<char> = "{}".chars().collect();
    assert_eq!(parse_list(&chars), None);
    assert!(value_text("1.25e-3"));
    assert!(!value_text(""));
    assert!(!value_text("1,2"));
}

#[test]
fn fresh_journal_numbers_from_one() {
    let mut journal = Journal::new();
    let values = texts(&[0.0, 1.0]);
    let mut numbers = Vec::new();
    for _ in 0..5 {
        let line = journal.append(2, &values, 10).unwrap();
        numbers.push(Record::parse(&line).unwrap().sequence);
    }
    assert_eq!(numbers, vec![1, 2, 3, 4, 5]);
    assert_eq!(journal.last_sequence(), 5);
}

#[test]
fn journal_continues_after_last_record() {
    let mut journal = Journal::continuing_after(41);
    let line = journal.append(0, &Vec::new(), 1).unwrap();
    assert_eq!(line, "42\t0\t[]\t1\n");
}

#[test]
fn journal_errors_leave_numbering_unchanged() {
    let mut journal = Journal::new();
    assert_eq!(
        journal.append(3, &texts(&[1.0, 2.0]), 5).err(),
        Some(AppendError::DimensionMismatch)
    );
    let bad = vec!["1.0".to_string(), "2 0".to_string()];
    assert_eq!(journal.append(2, &bad, 5).err(), Some(AppendError::BadValue));
    assert_eq!(journal.last_sequence(), 0);
    let line = journal.append(2, &texts(&[1.0, 2.0]), 5).unwrap();
    assert!(line.starts_with("1\t"));

    let mut full = Journal::continuing_after(u64::MAX);
    assert_eq!(full.append(0, &Vec::new(), 1).err(), Some(AppendError::SequenceExhausted));
    assert_eq!(full.last_sequence(), u64::MAX);
}
