use logjuicer_core::context::{collect_before, AnomalyContext, BufferedLine};
use logjuicer_core::known_lines::KnownLines;
use logjuicer_core::marker::contains_bytes;
use logjuicer_core::processor::{ChunkProcessor, Feed};
use logjuicer_core::trainer::IndexTrainer;
use logjuicer_core::{CHUNK_SIZE, CTX_DISTANCE, THRESHOLD};

/// A tokenizer for the tests: digits carry no meaning.
fn no_digits(line: &str) -> String {
    line.chars().filter(|c| !c.is_ascii_digit()).collect()
}

fn same(line: &str) -> String {
    line.to_string()
}

/// Trains on `baseline` and runs the detection over `target`, with an index
/// that gives 0.0 to a known line and 1.0 to any other.
fn detect(
    baseline: &[&str],
    target: &[&str],
    is_job_output: bool,
    tokenize: fn(&str) -> String,
) -> Vec<AnomalyContext> {
    let mut trainer = IndexTrainer::new(false);
    let mut index: Vec<String> = Vec::new();
    for line in baseline {
        if let Some(tokens) = trainer.add_line(line.len(), tokenize(line)) {
            index.push(tokens);
        }
    }
    let distances = |p: &ChunkProcessor| -> Vec<u32> {
        p.targets
            .iter()
            .map(|t| if index.contains(t) { 0.0f32 } else { 1.0f32 }.to_bits())
            .collect()
    };
    let mut processor = ChunkProcessor::new(is_job_output, KnownLines::new());
    let mut found = Vec::new();
    for (i, line) in target.iter().enumerate() {
        match processor.feed(line.to_string(), i + 1, line.len(), tokenize(line)) {
            Feed::Search => {
                let d = distances(&processor);
                processor.do_search_anomalies(&d);
            }
            Feed::Stopped => break,
            Feed::Continue => {}
        }
        while let Some(a) = processor.next_anomaly() {
            found.push(a);
        }
    }
    while processor.end_of_stream() == Feed::Search {
        let d = distances(&processor);
        processor.do_search_anomalies(&d);
    }
    while let Some(a) = processor.next_anomaly() {
        found.push(a);
    }
    found
}

fn buffered(line: &str, n: usize) -> BufferedLine {
    BufferedLine { line: line.to_string(), line_number: n, coord: n }
}

fn strings(v: &[&str]) -> Vec<String> {
    v.iter().map(|s| s.to_string()).collect()
}

#[test]
fn test_leftovers() {
    let mut cp = ChunkProcessor::new(false, KnownLines::new());

    cp.buffer.push(buffered("001 log line", 0));
    cp.buffer.push(buffered("002 log line", 1));
    cp.buffer.push(buffered("003 log line", 2));
    cp.buffer.push(buffered("004 log line", 3));
    cp.buffer.push(buffered("005 log line", 4));

    // Without left-overs
    assert_eq!(
        collect_before(0, 0, &cp.buffer, &cp.left_overs).len(),
        0,
        "We are at position 0, no before context available"
    );
    assert_eq!(
        collect_before(1, 0, &cp.buffer, &cp.left_overs),
        strings(&["001 log line"]),
        "We are at position 1, only 1 before is available"
    );
    assert_eq!(
        collect_before(1, 1, &cp.buffer, &cp.left_overs).len(),
        0,
        "If the last context is also at one, then no before context can be found"
    );
    assert_eq!(collect_before(2, 2, &cp.buffer, &cp.left_overs).len(), 0);
    assert_eq!(
        collect_before(4, 0, &cp.buffer, &cp.left_overs),
        strings(&["002 log line", "003 log line", "004 log line"])
    );

    // With left-overs
    cp.reset(3);
    assert_eq!(cp.buffer.len(), 0, "After a reset, the buffer is empty");
    assert_eq!(
        cp.left_overs,
        strings(&["004 log line", "005 log line"]),
        "The left over should contain unprocessed lines"
    );
    cp.buffer.push(buffered("006 log line", 6));
    assert_eq!(
        collect_before(1, 0, &cp.buffer, &cp.left_overs),
        strings(&["004 log line", "005 log line", "006 log line"])
    );
}

#[test]
fn test_chunk_processor() {
    let baseline = ["001: regular log line", "in-between line"];
    let target = [
        "001: regular log line",
        "002: regular log line",
        "Traceback oops",
        "in-between line",
        "another Traceback",
        "003: regular log line",
    ];
    let anomalies = detect(&baseline, &target, false, no_digits);
    for anomaly in &anomalies {
        println!("anomalies: {:?}", anomaly.anomaly.line);
    }
    assert!(anomalies.len() <= 3);
    assert_eq!(anomalies.len(), 2);

    let got = &anomalies[0];
    assert_eq!(got.anomaly.line, "Traceback oops");
    assert_eq!(got.anomaly.pos, 3);
    assert!((f32::from_bits(got.anomaly.distance) - 1.0).abs() < 0.001);
    assert_eq!(got.before, strings(&["001: regular log line", "002: regular log line"]));
    assert_eq!(got.after, strings(&["in-between line"]));

    let got = &anomalies[1];
    assert_eq!(got.anomaly.line, "another Traceback");
    assert_eq!(got.anomaly.pos, 5);
    assert!((f32::from_bits(got.anomaly.distance) - 1.0).abs() < 0.001);
    assert_eq!(got.before, Vec::<String>::new());
    assert_eq!(got.after, strings(&["003: regular log line"]));
}

#[test]
fn empty_target_gives_nothing() {
    assert!(detect(&["a line"], &[], false, same).is_empty());
}

#[test]
fn target_equal_to_baseline_gives_nothing() {
    let lines = ["first", "second", "third", "second", "fourth"];
    assert!(detect(&lines, &lines, false, same).is_empty());
}

#[test]
fn first_line_anomaly_has_no_before() {
    let found = detect(&["ok"], &["boom", "ok", "ok"], false, same);
    assert_eq!(found.len(), 1);
    assert!(found[0].before.is_empty());
    assert_eq!(found[0].anomaly.pos, 1);
    assert_eq!(found[0].after, strings(&["ok", "ok"]));
}

#[test]
fn adjacent_anomalies_do_not_share_lines() {
    let found = detect(&["a", "c"], &["a", "B1", "B2", "c"], false, same);
    assert_eq!(found.len(), 2);
    assert_eq!(found[0].anomaly.line, "B1");
    assert_eq!(found[0].before, strings(&["a"]));
    assert!(found[0].after.is_empty());
    assert_eq!(found[1].anomaly.line, "B2");
    assert!(found[1].before.is_empty());
    assert_eq!(found[1].after, strings(&["c"]));
}

#[test]
fn heavy_duplication_keeps_context() {
    let mut target: Vec<&str> = vec!["regular"; 10_000];
    target.push("oops");
    let found = detect(&["regular"], &target, false, same);
    assert_eq!(found.len(), 1);
    assert_eq!(found[0].anomaly.pos, 10_001);
    assert_eq!(found[0].before, strings(&["regular", "regular", "regular"]));
    assert!(found[0].after.is_empty());
}

#[test]
fn chunk_boundary_uses_left_overs() {
    let owned: Vec<String> = (0..CHUNK_SIZE).map(|i| format!("ok {}", i)).collect();
    let baseline: Vec<&str> = owned.iter().map(|s| s.as_str()).collect();
    let mut target = baseline.clone();
    target.push("X");
    let found = detect(&baseline, &target, false, same);
    assert_eq!(found.len(), 1);
    assert_eq!(found[0].anomaly.line, "X");
    assert_eq!(found[0].anomaly.pos, CHUNK_SIZE + 1);
    assert_eq!(found[0].before, strings(&["ok 509", "ok 510", "ok 511"]));
}

#[test]
fn repeated_line_then_anomaly() {
    let mut target: Vec<&str> = vec!["A"; 600];
    target.push("X");
    let found = detect(&["A"], &target, false, same);
    assert_eq!(found.len(), 1);
    assert_eq!(found[0].before, strings(&["A", "A", "A"]));
}

#[test]
fn job_output_stops_at_own_task() {
    let target = ["ok", "odd one", "ok", "TASK [run-logjuicer: foo]", "later failure", "ok"];
    let found = detect(&["ok"], &target, true, same);
    assert_eq!(found.len(), 1);
    assert_eq!(found[0].anomaly.line, "odd one");
    assert_eq!(found[0].after, strings(&["ok"]));
    // Without the flag the marker and what follows are read.
    let found = detect(&["ok"], &target, false, same);
    assert_eq!(found.len(), 3);
}

#[test]
fn anomaly_at_end_has_empty_after() {
    let found = detect(&["ok"], &["ok", "ok", "broken"], false, same);
    assert_eq!(found.len(), 1);
    assert_eq!(found[0].before, strings(&["ok", "ok"]));
    assert!(found[0].after.is_empty());
}

#[test]
fn emitted_anomalies_respect_bounds_and_order() {
    let target = ["a", "x1", "b", "c", "d", "e", "x2", "x3", "f", "x4", "g", "h", "i", "j"];
    let found = detect(&["a", "b", "c", "d", "e", "f", "g", "h", "i", "j"], &target, false, same);
    let lines: Vec<&str> = found.iter().map(|a| a.anomaly.line.as_str()).collect();
    assert_eq!(lines, vec!["x1", "x2", "x3", "x4"]);
    for pair in found.windows(2) {
        assert!(pair[0].anomaly.pos < pair[1].anomaly.pos);
    }
    for a in &found {
        assert!(a.before.len() <= CTX_DISTANCE && a.after.len() <= CTX_DISTANCE);
        assert!(a.anomaly.distance > THRESHOLD);
    }
    assert_eq!(found[0].after, strings(&["b", "c", "d"]));
    assert_eq!(found[1].before, strings(&["e"]));
    assert_eq!(found[2].after, strings(&["f"]));
    assert!(found[3].before.is_empty());
    assert_eq!(found[3].after, strings(&["g", "h", "i"]));
}

#[test]
fn duplicates_do_not_change_anomalies() {
    let plain = detect(&["ok"], &["ok", "bad", "ok", "worse"], false, same);
    let noisy = detect(&["ok"], &["ok", "ok", "ok", "bad", "ok", "ok", "worse", "ok"], false, same);
    let lines = |v: &Vec<AnomalyContext>| -> Vec<String> {
        v.iter().map(|a| a.anomaly.line.clone()).collect()
    };
    assert_eq!(lines(&plain), lines(&noisy));
}

#[test]
fn end_of_stream_searches_then_flushes() {
    let mut p = ChunkProcessor::new(false, KnownLines::new());
    assert_eq!(p.feed("odd".to_string(), 1, 3, "odd".to_string()), Feed::Continue);
    assert_eq!(p.end_of_stream(), Feed::Search);
    assert!(!p.finished);
    p.do_search_anomalies(&vec![1.0f32.to_bits()]);
    assert!(p.next_anomaly().is_none(), "the anomaly waits for its after-context");
    assert_eq!(p.end_of_stream(), Feed::Stopped);
    assert!(p.finished);
    let a = p.next_anomaly().unwrap();
    assert_eq!(a.anomaly.line, "odd");
    assert!(a.before.is_empty() && a.after.is_empty());
}

#[test]
fn after_context_is_not_kept_as_left_over() {
    let mut known = KnownLines::new();
    known.insert(&"a".to_string());
    let mut p = ChunkProcessor::new(false, known);
    assert_eq!(p.feed("X".to_string(), 1, 1, "X".to_string()), Feed::Continue);
    assert_eq!(p.feed("a".to_string(), 2, 1, "a".to_string()), Feed::Continue);
    p.do_search_anomalies(&vec![1.0f32.to_bits()]);
    assert!(p.left_overs.is_empty(), "the line after X is X's context");
    assert_eq!(p.feed("Y".to_string(), 3, 1, "Y".to_string()), Feed::Continue);
    p.do_search_anomalies(&vec![1.0f32.to_bits()]);
    let x = p.next_anomaly().unwrap();
    assert_eq!(x.anomaly.line, "X");
    assert_eq!(x.after, strings(&["a"]));
    assert_eq!(p.end_of_stream(), Feed::Stopped);
    let y = p.next_anomaly().unwrap();
    assert_eq!(y.anomaly.line, "Y");
    assert!(y.before.is_empty());
}

#[test]
fn duplicate_flood_crosses_chunk_boundary() {
    let mut target: Vec<&str> = vec!["regular"; 10 * CHUNK_SIZE + 1];
    target.push("oops");
    let found = detect(&["regular"], &target, false, same);
    assert_eq!(found.len(), 1);
    assert_eq!(found[0].before, strings(&["regular", "regular", "regular"]));
}

#[test]
fn buffer_bound_checked_on_fresh_lines() {
    let mut p = ChunkProcessor::new(false, KnownLines::new());
    let mut searches = 0;
    for i in 0..(10 * CHUNK_SIZE + 1) {
        let l = if i % 20 == 0 { format!("u{}", i) } else { "dup".to_string() };
        if p.feed(l.clone(), i + 1, l.len(), l) == Feed::Search {
            searches += 1;
            let d = vec![0u32; p.targets.len()];
            p.do_search_anomalies(&d);
        }
        assert!(p.buffer.len() <= 10 * CHUNK_SIZE);
    }
    assert_eq!(searches, 1);
}

#[test]
fn threshold_is_point_three() {
    assert_eq!(f32::from_bits(THRESHOLD), 0.3f32);
    assert!(0.31f32.to_bits() > THRESHOLD);
    assert!(0.3f32.to_bits() <= THRESHOLD);
}

#[test]
fn known_lines_detect_first_insertion() {
    let mut known = KnownLines::new();
    assert!(known.insert(&"a".to_string()));
    assert!(!known.insert(&"a".to_string()));
    assert!(known.insert(&"b".to_string()));
    assert_eq!(known.len(), 2);
    assert!(known.contains(&"b".to_string()));
    assert!(!known.contains(&"c".to_string()));
}

#[test]
fn trainer_counts_and_deduplicates() {
    let mut trainer = IndexTrainer::new(false);
    assert_eq!(trainer.add_line(5, "x".to_string()), Some("x".to_string()));
    assert_eq!(trainer.add_line(7, "x".to_string()), None);
    assert_eq!(trainer.line_count, 2);
    assert_eq!(trainer.byte_count, 12);
    assert_eq!(trainer.into_known_lines().len(), 1);
}

#[test]
fn byte_search_finds_marker() {
    let needle = b"TASK [run-logjuicer".to_vec();
    assert!(contains_bytes(b"2023 | TASK [run-logjuicer : x]", &needle));
    assert!(!contains_bytes(b"TASK [run-other]", &needle));
    assert!(contains_bytes(b"abc", &Vec::new()));
    assert!(!contains_bytes(b"ab", &b"abc".to_vec()));
}

#[test]
fn feed_reports_full_chunk() {
    let mut p = ChunkProcessor::new(false, KnownLines::new());
    for i in 0..CHUNK_SIZE - 1 {
        let l = format!("line {}", i);
        assert_eq!(p.feed(l.clone(), i + 1, l.len(), l), Feed::Continue);
    }
    let l = "last".to_string();
    assert_eq!(p.feed(l.clone(), CHUNK_SIZE, 4, l), Feed::Search);
    assert_eq!(p.targets.len(), CHUNK_SIZE);
    assert_eq!(p.coord, CHUNK_SIZE);
    let d = vec![0u32; CHUNK_SIZE];
    p.do_search_anomalies(&d);
    assert!(p.targets.is_empty() && p.buffer.is_empty());
    assert_eq!(p.left_overs, strings(&["line 509", "line 510", "last"]));
    assert!(p.next_anomaly().is_none());
}
