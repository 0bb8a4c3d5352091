use spam_logger::line::{compose_line, line_now, parse_line, render_line};
use spam_logger::stamp::{parse_stamp, Stamp};
use spam_logger::target::{log_path, status_code, LogError, DEFAULT_LOG_PATH};

fn stamp(year: i32, month: u32, day: u32, hour: u32, minute: u32, second: u32) -> Stamp {
    Stamp { year, month, day, hour, minute, second }
}

#[test]
fn compose_adds_separator_and_newline() {
    let ts = b"2024-01-02 03:04:05";
    let msg = b"+15551234567";
    let line = compose_line(ts, msg);
    assert_eq!(line, b"2024-01-02 03:04:05 - +15551234567\n".to_vec());
    assert_eq!(line.len(), ts.len() + 3 + msg.len() + 1);
}

#[test]
fn compose_empty_message() {
    let line = compose_line(b"2024-01-02 03:04:05", b"");
    assert_eq!(line, b"2024-01-02 03:04:05 - \n".to_vec());
    assert_eq!(line.len(), 19 + 3 + 0 + 1);
}

#[test]
fn render_pads_every_field() {
    let line = render_line(&stamp(2024, 1, 2, 3, 4, 5), "hello");
    assert_eq!(line, b"2024-01-02 03:04:05 - hello\n".to_vec());
}

#[test]
fn render_end_of_year() {
    let line = render_line(&stamp(1999, 12, 31, 23, 59, 59), "x");
    assert_eq!(line, b"1999-12-31 23:59:59 - x\n".to_vec());
}

#[test]
fn render_leap_day() {
    let line = render_line(&stamp(2000, 2, 29, 0, 0, 0), "leap");
    assert_eq!(line, b"2000-02-29 00:00:00 - leap\n".to_vec());
}

#[test]
fn render_small_year_is_zero_padded() {
    let line = render_line(&stamp(5, 6, 7, 8, 9, 10), "m");
    assert_eq!(line, b"0005-06-07 08:09:10 - m\n".to_vec());
}

#[test]
fn render_large_and_negative_years_carry_a_sign() {
    let line = render_line(&stamp(12345, 1, 1, 0, 0, 0), "m");
    assert_eq!(line, b"+12345-01-01 00:00:00 - m\n".to_vec());
    let line = render_line(&stamp(-5, 1, 1, 0, 0, 0), "m");
    assert_eq!(line, b"-0005-01-01 00:00:00 - m\n".to_vec());
}

#[test]
fn render_keeps_utf8_message_bytes() {
    let msg = "appel indésirable ☎";
    let line = render_line(&stamp(2024, 3, 4, 5, 6, 7), msg);
    assert_eq!(line.len(), 19 + 3 + msg.len() + 1);
    assert_eq!(&line[22..line.len() - 1], msg.as_bytes());
}

#[test]
fn embedded_newline_is_written_verbatim() {
    let line = render_line(&stamp(2024, 3, 4, 5, 6, 7), "first\nsecond");
    assert_eq!(line, b"2024-03-04 05:06:07 - first\nsecond\n".to_vec());
    assert_eq!(line.iter().filter(|b| **b == b'\n').count(), 2);
    let (s, m) = parse_line(&line).unwrap();
    assert_eq!(s, stamp(2024, 3, 4, 5, 6, 7));
    assert_eq!(m, b"first\nsecond".to_vec());
}

#[test]
fn parse_reads_back_a_record() {
    let line = render_line(&stamp(2023, 11, 30, 22, 15, 1), "0612345678");
    let (s, m) = parse_line(&line).unwrap();
    assert_eq!(s, stamp(2023, 11, 30, 22, 15, 1));
    assert_eq!(m, b"0612345678".to_vec());
}

#[test]
fn parse_rejects_malformed_records() {
    assert_eq!(parse_line(b""), None);
    assert_eq!(parse_line(b"2024-01-02 03:04:05 - hello"), None);
    assert_eq!(parse_line(b"2024-01-02 03:04:05 + hello\n"), None);
    assert_eq!(parse_line(b"2024-01-02T03:04:05 - hello\n"), None);
    assert_eq!(parse_line(b"2023-02-29 03:04:05 - hello\n"), None);
    assert_eq!(parse_line(b"2024-01-02 24:04:05 - hello\n"), None);
    assert_eq!(parse_line(b"2024-13-02 03:04:05 - hello\n"), None);
    assert_eq!(parse_line(b"+12345-01-01 00:00:00 - m\n"), None);
}

#[test]
fn parse_stamp_checks_the_calendar() {
    assert_eq!(parse_stamp(b"2024-02-29 12:00:00"), Some(stamp(2024, 2, 29, 12, 0, 0)));
    assert_eq!(parse_stamp(b"1900-02-29 12:00:00"), None);
    assert_eq!(parse_stamp(b"2024-04-31 12:00:00"), None);
    assert_eq!(parse_stamp(b"2024-04-30 12:60:00"), None);
    assert_eq!(parse_stamp(b"2024-04-30 12:00:60"), None);
    assert_eq!(parse_stamp(b"2024-04-00 12:00:00"), None);
    assert_eq!(parse_stamp(b"0000-01-01 00:00:00"), Some(stamp(0, 1, 1, 0, 0, 0)));
    assert_eq!(parse_stamp(b"2024-04-30 12:00:0"), None);
}

#[test]
fn record_logged_now_reads_back() {
    let before = chrono::Local::now().naive_local();
    let (s, line) = line_now("spam caller");
    let after = chrono::Local::now().naive_local();
    let (read, msg) = parse_line(&line).unwrap();
    assert_eq!(read, s);
    assert_eq!(msg, b"spam caller".to_vec());
    let text = std::str::from_utf8(&line[..19]).unwrap();
    let at = chrono::NaiveDateTime::parse_from_str(text, "%Y-%m-%d %H:%M:%S").unwrap();
    let secs = |t: chrono::NaiveDateTime| t.and_utc().timestamp();
    assert!(secs(at) >= secs(before) - 1);
    assert!(secs(at) <= secs(after) + 1);
}

#[test]
fn sequential_records_make_one_line_each_in_order() {
    let messages = ["one", "two", "three", "four"];
    let mut log: Vec<u8> = b"2020-01-01 00:00:00 - earlier\n".to_vec();
    let prior = log.clone();
    for (k, m) in messages.iter().enumerate() {
        let line = render_line(&stamp(2024, 5, 6, 7, 8, k as u32), m);
        log.extend_from_slice(&line);
    }
    assert_eq!(&log[..prior.len()], &prior[..]);
    let lines: Vec<&[u8]> = log.split_inclusive(|b| *b == b'\n').collect();
    assert_eq!(lines.len(), 1 + messages.len());
    for (k, m) in messages.iter().enumerate() {
        let (s, msg) = parse_line(lines[k + 1]).unwrap();
        assert_eq!(s, stamp(2024, 5, 6, 7, 8, k as u32));
        assert_eq!(msg, m.as_bytes().to_vec());
    }
}

#[test]
fn path_defaults_when_none_is_given() {
    assert_eq!(log_path(None), DEFAULT_LOG_PATH.to_string());
    assert!(log_path(None).ends_with("/files/spam_calls.log"));
    assert_eq!(log_path(Some("/tmp/other.log")), "/tmp/other.log".to_string());
}

#[test]
fn status_codes_tell_errors_apart() {
    assert_eq!(status_code(&Ok(())), 0);
    assert_eq!(status_code(&Err(LogError::StringConversion)), 1);
    assert_eq!(status_code(&Err(LogError::FileOpen)), 2);
    assert_eq!(status_code(&Err(LogError::Write)), 3);
}

#[test]
fn signed_year_record_has_one_newline() {
    for year in [12345, -5, -262143, 262142] {
        let line = render_line(&stamp(year, 12, 31, 23, 59, 59), "caller");
        assert_eq!(line.iter().filter(|b| **b == b'\n').count(), 1);
        assert_eq!(line.last(), Some(&b'\n'));
    }
}
