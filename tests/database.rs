use append_db::decimal::{parse_decimal, push_decimal};
use append_db::record::{event_record, is_valid_stamp, parse_record};
use append_db::{AppendOnly, Database, IntegerTransitions, LogSink, ReplayError};

type Transition = IntegerTransitions<i32>;

fn lines(log: &[u8]) -> Vec<Vec<u8>> {
    let mut out = Vec::new();
    let mut cur = Vec::new();
    for &b in log {
        if b == b'\n' {
            out.push(std::mem::take(&mut cur));
        } else {
            cur.push(b);
        }
    }
    assert!(cur.is_empty(), "log does not end with a line break");
    out
}

#[test]
fn test_counter() {
    let writer: Vec<u8> = Vec::new();
    let reader: Vec<u8> = Vec::new();
    let mut db: Database<i32, Vec<u8>> = Database::new(writer, &reader).unwrap();

    db.apply(Transition::Add(1)).unwrap();
    db.apply(Transition::Add(1)).unwrap();
    db.apply(Transition::Sub(1)).unwrap();

    assert_eq!(*db.state(), 1);

    let writer2: Vec<u8> = Vec::new();
    let reader2 = db.into_writer();

    println!("{}", String::from_utf8(reader2.clone()).unwrap());

    let db: Database<i32, Vec<u8>> = Database::new(writer2, &reader2).unwrap();

    assert_eq!(*db.state(), 1);
}

#[test]
fn counter_log_holds_three_independent_records() {
    let mut db: Database<i32, Vec<u8>> = Database::new(Vec::new(), &[]).unwrap();
    db.apply(Transition::Add(1)).unwrap();
    db.apply(Transition::Add(1)).unwrap();
    db.apply(Transition::Sub(1)).unwrap();
    let log = db.into_writer();
    let records = lines(&log);
    assert_eq!(records.len(), 3);
    assert_eq!(parse_record::<i32>(&records[0]), Some(Transition::Add(1)));
    assert_eq!(parse_record::<i32>(&records[1]), Some(Transition::Add(1)));
    assert_eq!(parse_record::<i32>(&records[2]), Some(Transition::Sub(1)));
    let reopened: Database<i32, Vec<u8>> = Database::new(Vec::new(), &log).unwrap();
    assert_eq!(*reopened.state(), 1);
}

#[test]
fn assign_mul_sub_gives_twenty_five() {
    let mut db: Database<i32, Vec<u8>> = Database::new(Vec::new(), &[]).unwrap();
    db.apply(Transition::Assign(10)).unwrap();
    db.apply(Transition::Mul(3)).unwrap();
    db.apply(Transition::Sub(5)).unwrap();
    assert_eq!(*db.state(), 25);
}

#[test]
fn empty_source_gives_initial_value() {
    let db: Database<i32, Vec<u8>> = Database::new(Vec::new(), &[]).unwrap();
    assert_eq!(*db.state(), 0);
    assert!(db.writer().is_empty());
    let db: Database<u64, Vec<u8>> = Database::new(Vec::new(), &[]).unwrap();
    assert_eq!(*db.state(), 0);
}

#[test]
fn reopening_reproduces_state() {
    let ts = [
        Transition::Assign(7),
        Transition::Mul(-6),
        Transition::Add(100),
        Transition::Div(4),
        Transition::Sub(-3),
    ];
    let mut db: Database<i32, Vec<u8>> = Database::new(Vec::new(), &[]).unwrap();
    for t in ts {
        db.apply(t).unwrap();
    }
    assert_eq!(*db.state(), 17);
    let log = db.writer().clone();
    let reopened: Database<i32, Vec<u8>> = Database::new(Vec::new(), &log).unwrap();
    assert_eq!(*reopened.state(), *db.state());
}

#[test]
fn apply_appends_to_existing_log() {
    let mut first: Database<i64, Vec<u8>> = Database::new(Vec::new(), &[]).unwrap();
    first.apply(IntegerTransitions::Add(5)).unwrap();
    let log = first.into_writer();
    let mut second: Database<i64, Vec<u8>> = Database::new(log.clone(), &log).unwrap();
    assert_eq!(*second.state(), 5);
    second.apply(IntegerTransitions::Mul(-2)).unwrap();
    let third: Database<i64, Vec<u8>> = Database::new(Vec::new(), second.writer()).unwrap();
    assert_eq!(*third.state(), -10);
}

#[test]
fn stamped_record_bytes() {
    let mut db: Database<i32, Vec<u8>> = Database::new(Vec::new(), &[]).unwrap();
    db.apply_stamped(b"2024-01-02T03:04:05.123Z", Transition::Add(1)).unwrap();
    db.apply_stamped(b"2024-01-02T03:04:06Z", Transition::Assign(-42)).unwrap();
    let expected = b"{\"tm\":\"2024-01-02T03:04:05.123Z\",\"ts\":{\"Add\":1}}\n{\"tm\":\"2024-01-02T03:04:06Z\",\"ts\":{\"Set\":-42}}\n";
    assert_eq!(db.writer().as_slice(), &expected[..]);
    assert_eq!(*db.state(), -42);
}

#[test]
fn event_record_of_each_variant() {
    let stamp = b"1970-01-01T00:00:00Z";
    let cases: [(IntegerTransitions<i64>, &str); 5] = [
        (IntegerTransitions::Assign(0), "{\"Set\":0}"),
        (IntegerTransitions::Add(12), "{\"Add\":12}"),
        (IntegerTransitions::Sub(-7), "{\"Sub\":-7}"),
        (IntegerTransitions::Mul(1000), "{\"Mul\":1000}"),
        (IntegerTransitions::Div(i64::MIN), "{\"Div\":-9223372036854775808}"),
    ];
    for (t, enc) in cases {
        let line = event_record::<i64>(stamp, &t);
        let expected = format!("{{\"tm\":\"1970-01-01T00:00:00Z\",\"ts\":{}}}\n", enc);
        assert_eq!(line, expected.into_bytes());
        assert_eq!(parse_record::<i64>(&line[..line.len() - 1]), Some(t));
    }
}

#[test]
fn clock_stamp_is_rfc3339_utc() {
    let mut db: Database<u8, Vec<u8>> = Database::new(Vec::new(), &[]).unwrap();
    db.apply(IntegerTransitions::Add(3)).unwrap();
    let log = db.into_writer();
    let text = String::from_utf8(log.clone()).unwrap();
    assert!(text.starts_with("{\"tm\":\""));
    assert!(text.ends_with("\",\"ts\":{\"Add\":3}}\n"));
    let stamp = &text[7..text.len() - "\",\"ts\":{\"Add\":3}}\n".len()];
    assert!(stamp.len() >= 20, "stamp {stamp}");
    assert!(stamp.ends_with('Z'));
    assert_eq!(&stamp[4..5], "-");
    assert_eq!(&stamp[10..11], "T");
    let reopened: Database<u8, Vec<u8>> = Database::new(Vec::new(), &log).unwrap();
    assert_eq!(*reopened.state(), 3);
}

#[test]
fn replays_log_with_nanosecond_stamps() {
    let log = b"{\"tm\":\"2023-05-01T12:00:00.123456789Z\",\"ts\":{\"Set\":5}}\n{\"tm\":\"2023-05-01T12:00:01.5Z\",\"ts\":{\"Div\":2}}\n";
    let db: Database<i32, Vec<u8>> = Database::new(Vec::new(), log).unwrap();
    assert_eq!(*db.state(), 2);
}

#[test]
fn last_record_without_line_break_is_read() {
    let log = b"{\"tm\":\"2023-05-01T12:00:00Z\",\"ts\":{\"Add\":4}}";
    let db: Database<u32, Vec<u8>> = Database::new(Vec::new(), log).unwrap();
    assert_eq!(*db.state(), 4);
}

#[test]
fn malformed_records_are_refused() {
    let bad: [&[u8]; 10] = [
        b"not a record\n",
        b"{\"tm\":\"\",\"ts\":{\"Add\":1}}\n",
        b"{\"tm\":\"9\",\"ts\":{\"Add\":1}}\n",
        b"{\"tm\":\"2024-01\",\"ts\":{\"Add\":1}}\n",
        b"{\"tm\":\"2024-01-02T03:04:05.1234567890Z\",\"ts\":{\"Add\":1}}\n",
        b"{\"tm\":\"2024-01-02T03:04:05\",\"ts\":{\"Add\":1}}\n",
        b"{\"tm\":\"2023-05-01T12:00:00Z\",\"ts\":{\"Pow\":4}}\n",
        b"{\"tm\":\"2023-05-01T12:00:00Z\",\"ts\":{\"Add\":04}}\n",
        b"{\"tm\":\"2023 05 01\",\"ts\":{\"Add\":4}}\n",
        b"{\"tm\":\"2023-05-01T12:00:00Z\",\"ts\":{\"Add\":4}",
    ];
    for log in bad {
        let r: Result<Database<i32, Vec<u8>>, ReplayError> = Database::new(Vec::new(), log);
        assert_eq!(r.err(), Some(ReplayError::Malformed));
    }
}

#[test]
fn operand_out_of_range_is_malformed() {
    let log = b"{\"tm\":\"2023-05-01T12:00:00Z\",\"ts\":{\"Add\":300}}\n";
    let r: Result<Database<u8, Vec<u8>>, ReplayError> = Database::new(Vec::new(), log);
    assert_eq!(r.err(), Some(ReplayError::Malformed));
    let db: Database<u16, Vec<u8>> = Database::new(Vec::new(), log).unwrap();
    assert_eq!(*db.state(), 300);
}

#[test]
fn undefined_fold_in_log_is_rejected() {
    let log = b"{\"tm\":\"2023-05-01T12:00:00Z\",\"ts\":{\"Div\":0}}\n";
    let r: Result<Database<i32, Vec<u8>>, ReplayError> = Database::new(Vec::new(), log);
    assert_eq!(r.err(), Some(ReplayError::Rejected));
    let log = b"{\"tm\":\"2023-05-01T12:00:00Z\",\"ts\":{\"Sub\":1}}\n";
    let r: Result<Database<u32, Vec<u8>>, ReplayError> = Database::new(Vec::new(), log);
    assert_eq!(r.err(), Some(ReplayError::Rejected));
}

#[test]
fn admissible_matches_checked_arithmetic() {
    assert!(!<i32 as AppendOnly>::admissible(&i32::MAX, &Transition::Add(1)));
    assert!(<i32 as AppendOnly>::admissible(&i32::MAX, &Transition::Sub(1)));
    assert!(!<i32 as AppendOnly>::admissible(&5, &Transition::Div(0)));
    assert!(!<i32 as AppendOnly>::admissible(&i32::MIN, &Transition::Div(-1)));
    assert!(!<u8 as AppendOnly>::admissible(&0, &IntegerTransitions::Sub(1)));
    assert!(!<i8 as AppendOnly>::admissible(&64, &IntegerTransitions::Mul(2)));
    assert!(<i64 as AppendOnly>::admissible(&0, &IntegerTransitions::Assign(i64::MIN)));
    let mut s: i16 = -7;
    <i16 as AppendOnly>::update(&mut s, IntegerTransitions::Div(2));
    assert_eq!(s, -3);
}

#[test]
fn transition_encoding_round_trips() {
    let ts = [
        IntegerTransitions::Assign(u64::MAX),
        IntegerTransitions::Add(0),
        IntegerTransitions::Div(10),
    ];
    for t in ts {
        let enc = <u64 as AppendOnly>::encode(&t);
        assert_eq!(<u64 as AppendOnly>::decode(&enc), Some(t));
    }
    assert_eq!(<u64 as AppendOnly>::encode(&IntegerTransitions::Assign(u64::MAX)), b"{\"Set\":18446744073709551615}".to_vec());
    assert_eq!(<isize as AppendOnly>::decode(b"{\"Mul\":-3}"), Some(IntegerTransitions::Mul(-3)));
    assert_eq!(<usize as AppendOnly>::decode(b"{\"Mul\":-3}"), None);
    assert_eq!(<i32 as AppendOnly>::decode(b"{\"Add\":1} "), None);
}

#[test]
fn decimal_text() {
    let mut out = Vec::new();
    push_decimal(&mut out, -120);
    push_decimal(&mut out, 0);
    assert_eq!(out, b"-1200".to_vec());
    assert_eq!(parse_decimal(b"18446744073709551615"), Some(18446744073709551615));
    assert_eq!(parse_decimal(b"-9223372036854775808"), Some(-9223372036854775808));
    assert_eq!(parse_decimal(b"007"), None);
    assert_eq!(parse_decimal(b"-0"), None);
    assert_eq!(parse_decimal(b""), None);
    assert_eq!(parse_decimal(b"-"), None);
    assert_eq!(parse_decimal(b"1e3"), None);
    assert_eq!(parse_decimal(b"123456789012345678901"), None);
}

#[test]
fn vec_sink_appends() {
    let mut sink: Vec<u8> = b"ab".to_vec();
    assert!(LogSink::write_all(&mut sink, b"cd").is_ok());
    assert_eq!(sink, b"abcd".to_vec());
}

struct FlakySink {
    log: Vec<u8>,
    refuse: bool,
}

impl LogSink for FlakySink {
    fn write_all(&mut self, bytes: &[u8]) -> Result<(), append_db::WriteError> {
        if self.refuse {
            Err(append_db::WriteError::Sink { detail: String::from("disk full") })
        } else {
            self.log.extend_from_slice(bytes);
            Ok(())
        }
    }
}

#[test]
fn failed_write_leaves_state_unchanged() {
    let sink = FlakySink { log: Vec::new(), refuse: false };
    let mut db: Database<i32, FlakySink> = Database::new(sink, &[]).unwrap();
    db.apply(Transition::Add(4)).unwrap();
    let before = *db.state();
    let mut sink = db.into_writer();
    sink.refuse = true;
    let log = sink.log.clone();
    let mut db: Database<i32, FlakySink> = Database::new(sink, &log).unwrap();
    assert_eq!(*db.state(), before);
    let err = db.apply(Transition::Mul(10)).unwrap_err();
    match err {
        append_db::WriteError::Sink { detail } => assert_eq!(detail, "disk full"),
        other => panic!("unexpected error {other:?}"),
    }
    assert_eq!(*db.state(), 4);
    assert_eq!(db.writer().log, log);
}

#[test]
fn blank_lines_between_records_are_passed_over() {
    let logs: [&[u8]; 4] = [
        b"\n",
        b"{\"tm\":\"2023-05-01T12:00:00Z\",\"ts\":{\"Add\":4}}\n\n",
        b" \t\r\n{\"tm\":\"2023-05-01T12:00:00Z\",\"ts\":{\"Add\":4}}\n  \n",
        b"{\"tm\":\"2023-05-01T12:00:00Z\",\"ts\":{\"Add\":4}}\r\n",
    ];
    let expected = [0, 4, 4, -1];
    for (log, want) in logs.iter().zip(expected) {
        let r: Result<Database<i32, Vec<u8>>, ReplayError> = Database::new(Vec::new(), log);
        if want < 0 {
            assert_eq!(r.err(), Some(ReplayError::Malformed));
        } else {
            assert_eq!(*r.unwrap().state(), want);
        }
    }
}

#[test]
fn stamps_of_far_years_are_read() {
    let log = b"{\"tm\":\"+10000-01-01T00:00:00.000001Z\",\"ts\":{\"Add\":2}}\n{\"tm\":\"-0001-12-31T23:59:59Z\",\"ts\":{\"Mul\":3}}\n";
    let db: Database<i32, Vec<u8>> = Database::new(Vec::new(), log).unwrap();
    assert_eq!(*db.state(), 6);
}

#[test]
fn stamp_shape() {
    assert!(is_valid_stamp(b"2024-01-02T03:04:05Z"));
    assert!(is_valid_stamp(b"2024-01-02T03:04:05.123456789Z"));
    assert!(is_valid_stamp(b"+262143-12-31T23:59:59.5Z"));
    assert!(!is_valid_stamp(b""));
    assert!(!is_valid_stamp(b"2024-01-02T03:04:05.Z"));
    assert!(!is_valid_stamp(b"2024-01-02T03:04:05+00:00"));
    assert!(!is_valid_stamp(b"24-01-02T03:04:05Z"));
    assert!(!is_valid_stamp(b"12024-01-02T03:04:05Z"));
}
