//! Tests for the structured log store: capping/eviction and cross-store merge,
//! smart-case matching, line buffering and prefixes.

use proccie::logger::buffer::{message_lines, split_lines, LineBuffer, MAX_LINE_BUFFER};
use proccie::logger::format::{leveled_tag, line_prefix, pad, prefix_width};
use proccie::logger::level::LogLevel;
use proccie::logger::search::{query_is_case_sensitive, strip_ansi, text_matches, Needle};
use proccie::logger::store::{merge_tail, merge_tail_matching, LogStore, Source, MAX_LINES};
use proccie::theme::{AnsiColor, Color};

fn color() -> Color {
    Color::Ansi(AnsiColor::Cyan)
}

fn tagged(tag: &str) -> Source {
    Source { tag: tag.into(), level: None }
}

/// A shared arrival clock, as the logger hands every store.
struct Clock(u64);

impl Clock {
    fn tick(&mut self) -> u64 {
        let s = self.0;
        self.0 += 1;
        s
    }
}

#[test]
fn buffer_caps_and_front_evicts_keeping_total() {
    let mut clock = Clock(0);
    let mut s = LogStore::new();
    let extra = 50;
    for i in 0..(MAX_LINES + extra) {
        s.push(clock.tick(), tagged("svc"), color(), format!("line {i}"));
    }

    assert_eq!(s.len(), MAX_LINES);
    // `total` is eviction-stable, driving the unread mark.
    assert_eq!(usize::try_from(s.total()).unwrap(), MAX_LINES + extra);

    let lines = s.tail(usize::MAX);
    assert_eq!(lines.first().unwrap().text, format!("line {extra}"));
    assert_eq!(lines.last().unwrap().text, format!("line {}", MAX_LINES + extra - 1));
}

#[test]
fn merge_tail_orders_by_seq_across_stores() {
    let mut clock = Clock(0);
    let mut a = LogStore::new();
    let mut b = LogStore::new();

    // Interleave pushes; the shared clock stamps a globally increasing seq.
    a.push(clock.tick(), tagged("a"), color(), "a1".into());
    b.push(clock.tick(), tagged("b"), color(), "b1".into());
    a.push(clock.tick(), tagged("a"), color(), "a2".into());
    b.push(
        clock.tick(),
        Source { tag: "sys".into(), level: Some(LogLevel::Info) },
        color(),
        "sys".into(),
    );

    let merged = merge_tail(&vec![&a, &b], 10);
    let texts: Vec<&str> = merged.iter().map(|l| l.text.as_str()).collect();
    assert_eq!(texts, ["a1", "b1", "a2", "sys"]);
    assert!(merged.windows(2).all(|w| w[0].seq < w[1].seq));
}

#[test]
fn text_matches_is_smart_case() {
    // A lowercase query is case-insensitive.
    assert!(!query_is_case_sensitive("err"));
    assert!(text_matches("ERROR here", "err", false));
    assert!(text_matches("an error", "err", false));

    // An uppercase letter in the query makes it case-sensitive.
    assert!(query_is_case_sensitive("ERR"));
    assert!(text_matches("ERROR here", "ERR", true));
    assert!(!text_matches("an error", "ERR", true));

    // An empty query matches everything, so a fresh box shows the whole log.
    assert!(text_matches("anything", "", false));
}

#[test]
fn count_matching_honors_case_sensitivity() {
    let mut clock = Clock(0);
    let mut s = LogStore::new();
    s.push(clock.tick(), tagged("s"), color(), "Error: boom".into());
    s.push(clock.tick(), tagged("s"), color(), "error: fizz".into());
    s.push(clock.tick(), tagged("s"), color(), "all clear".into());

    assert_eq!(s.count_matching("error", false), 2); // case-insensitive
    assert_eq!(s.count_matching("Error", true), 1); // case-sensitive
}

#[test]
fn tail_matching_returns_the_last_matches_oldest_first() {
    let mut clock = Clock(0);
    let mut s = LogStore::new();
    for i in 0..10 {
        let kind = if i % 2 == 0 { "hit" } else { "miss" };
        s.push(clock.tick(), tagged("s"), color(), format!("line {i} {kind}"));
    }
    // Even lines are hits (0,2,4,6,8); the last two are 6 and 8, oldest first.
    let texts: Vec<String> = s.tail_matching(2, "hit", false).into_iter().map(|l| l.text).collect();
    assert_eq!(texts, ["line 6 hit", "line 8 hit"]);
}

#[test]
fn merge_tail_matching_takes_last_matches_across_stores_by_seq() {
    let mut clock = Clock(0);
    let mut a = LogStore::new();
    let mut b = LogStore::new();

    // Shared clock; matches for "x" land at seq 0, 1, 3, 4.
    a.push(clock.tick(), tagged("a"), color(), "a x".into()); // 0
    b.push(clock.tick(), tagged("b"), color(), "b x".into()); // 1
    a.push(clock.tick(), tagged("a"), color(), "a no".into()); // 2 (miss)
    b.push(clock.tick(), tagged("b"), color(), "b x".into()); // 3
    a.push(clock.tick(), tagged("a"), color(), "a x".into()); // 4

    // The last two matches by seq are 3 and 4, ordered by seq.
    let merged = merge_tail_matching(&vec![&a, &b], 2, "x", false);
    let texts: Vec<&str> = merged.iter().map(|l| l.text.as_str()).collect();
    assert_eq!(texts, ["b x", "a x"]);
    assert!(merged.windows(2).all(|w| w[0].seq < w[1].seq));
}

#[test]
fn merge_tail_keeps_only_the_last_depth() {
    let mut clock = Clock(0);
    let mut s = LogStore::new();
    for i in 0..20 {
        s.push(clock.tick(), tagged("s"), color(), format!("{i}"));
    }
    let merged = merge_tail(&vec![&s], 5);
    let texts: Vec<&str> = merged.iter().map(|l| l.text.as_str()).collect();
    assert_eq!(texts, ["15", "16", "17", "18", "19"]);
}

#[test]
fn tail_since_keeps_lines_at_or_after_the_stamp() {
    let mut clock = Clock(0);
    let mut s = LogStore::new();
    for i in 0..6 {
        s.push(clock.tick(), tagged("s"), color(), format!("{i}"));
    }
    let texts: Vec<String> = s.tail_since(10, 4).into_iter().map(|l| l.text).collect();
    assert_eq!(texts, ["4", "5"]);
    assert_eq!(s.tail_seqs(3), vec![3, 4, 5]);
    assert!(!s.is_empty());
    assert!(LogStore::new().is_empty());
}

#[test]
fn line_buffer_splits_complete_lines_and_flushes_the_rest() {
    let mut b = LineBuffer::new();
    assert!(b.is_empty());
    let lines = b.write(b"one\ntwo\nthr");
    assert_eq!(lines, vec![b"one".to_vec(), b"two".to_vec()]);
    assert!(!b.is_empty());
    let lines = b.write(b"ee\n");
    assert_eq!(lines, vec![b"three".to_vec()]);
    assert!(b.is_empty());
    b.write(b"tail");
    assert_eq!(b.flush(), Some(b"tail".to_vec()));
    assert_eq!(b.flush(), None);
}

#[test]
fn line_buffer_force_flushes_an_overlong_partial_line() {
    let mut b = LineBuffer::new();
    let big = vec![b'x'; MAX_LINE_BUFFER + 10];
    let lines = b.write(&big);
    // Nothing is lost: what came back plus what stays buffered is the input.
    let mut seen: Vec<u8> = lines.concat();
    if let Some(rest) = b.flush() {
        seen.extend(rest);
    }
    assert_eq!(seen.len(), big.len());
}

#[test]
fn prefixes_pad_and_align_labels() {
    assert_eq!(leveled_tag("system", LogLevel::Warn), "system [WARN]");
    assert_eq!(pad("ab", 5), "ab   ");
    assert_eq!(pad("abcdef", 3), "abcdef");
    assert_eq!(line_prefix("web", 6), "web    | ");
    // The widest system prefix is `system [DEBUG]`: 14 characters.
    assert_eq!(prefix_width(&vec!["web".to_string()]), 14);
    assert_eq!(prefix_width(&vec!["a-very-long-service-name".to_string()]), 24);
}

#[test]
fn log_level_parses_its_labels_and_orders_by_severity() {
    assert_eq!(LogLevel::parse("debug"), Ok(LogLevel::Debug));
    assert_eq!(LogLevel::parse("WARN"), Ok(LogLevel::Warn));
    assert!(LogLevel::parse("loud").is_err());
    assert!(LogLevel::Error.at_least(LogLevel::Info));
    assert!(!LogLevel::Debug.at_least(LogLevel::Info));
    assert_eq!(LogLevel::Info.label(), "INFO");
}

#[test]
fn strip_ansi_removes_escapes_from_plain_output() {
    let stripped = strip_ansi(None, b"\x1b[31mred\x1b[0m text");
    assert_eq!(stripped, b"red text".to_vec());
    let n = Needle::new("red text".to_string());
    assert!(n.contains(&stripped));
    assert!(n.matches(b"\x1b[1mred\x1b[0m text"));
    assert!(!n.matches(b"blue text"));
}

#[test]
fn note_splits_at_every_newline() {
    assert_eq!(split_lines(b"a\nb"), vec![b"a".to_vec(), b"b".to_vec()]);
    assert_eq!(split_lines(b"a\n"), vec![b"a".to_vec(), Vec::new()]);
    assert_eq!(split_lines(b""), vec![Vec::<u8>::new()]);
    assert_eq!(split_lines(b"\n\nx"), vec![Vec::new(), Vec::new(), b"x".to_vec()]);
}

#[test]
fn leveled_message_drops_trailing_newlines() {
    assert_eq!(message_lines(b"a\nb\n\n"), vec![b"a".to_vec(), b"b".to_vec()]);
    assert_eq!(message_lines(b"one"), vec![b"one".to_vec()]);
    assert_eq!(message_lines(b"\n"), vec![Vec::<u8>::new()]);
    assert_eq!(message_lines(b"a\n\nb"), vec![b"a".to_vec(), Vec::new(), b"b".to_vec()]);
}

#[test]
fn log_level_parses_case_insensitively_and_orders() {
    assert_eq!("DEBUG".parse(), Ok(LogLevel::Debug));
    assert_eq!("Info".parse(), Ok(LogLevel::Info));
    assert_eq!("warning".parse(), Ok(LogLevel::Warn));
    assert_eq!("error".parse(), Ok(LogLevel::Error));
    assert!("loud".parse::<LogLevel>().is_err());

    assert!(LogLevel::Debug < LogLevel::Info);
    assert!(LogLevel::Info < LogLevel::Warn);
    assert!(LogLevel::Warn < LogLevel::Error);
}

#[test]
fn pad_width_measures_chars_not_bytes() {
    // Short labels align to the widest leveled prefix, `system [DEBUG]` (14 chars).
    assert_eq!(prefix_width(&vec!["café".to_string(), "data".to_string()]), 14);
    // A label longer than the leveled prefix wins, measured in chars not bytes:
    // "café-server-xyz" is 15 chars but 16 bytes.
    assert_eq!(prefix_width(&vec!["café-server-xyz".to_string()]), 15);
}
