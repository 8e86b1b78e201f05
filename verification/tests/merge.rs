use line_merge::reader::{write_lines, LineReader};

fn split_into_lines(text: &str) -> Vec<String> {
    text.split_inclusive('\n').map(|line| line.to_string()).collect()
}

fn merge_texts(texts: &[&str]) -> String {
    let sources: Vec<Vec<String>> = texts.iter().map(|text| split_into_lines(text)).collect();
    let mut reader = LineReader::new(sources);
    let mut output = String::new();
    write_lines(&mut reader, &mut output);
    output
}

fn drain_lines(reader: &mut LineReader) -> Vec<String> {
    let mut lines = Vec::new();
    while let Some(line) = reader.get_next_line() {
        lines.push(line);
    }
    lines
}

#[test]
fn shorter_source_retires_and_survivor_continues() {
    assert_eq!(merge_texts(&["a\nb\n", "1\n2\n3\n"]), "a\n1\nb\n2\n3\n");
}

#[test]
fn no_sources_give_empty_output() {
    assert_eq!(merge_texts(&[]), "");
    let mut reader = LineReader::new(Vec::new());
    assert!(!reader.is_done());
    assert_eq!(reader.get_next_line(), None);
    assert!(reader.is_done());
}

#[test]
fn blank_line_source_merges_normally() {
    assert_eq!(merge_texts(&["\n", "x\n"]), "\nx\n");
}

#[test]
fn next_line_after_the_end_stays_none() {
    let mut reader = LineReader::new(vec![vec!["only\n".to_string()]]);
    assert_eq!(reader.get_next_line(), Some("only\n".to_string()));
    assert!(!reader.is_done());
    for _ in 0..5 {
        assert_eq!(reader.get_next_line(), None);
        assert!(reader.is_done());
    }
}

#[test]
fn every_line_comes_out_once_in_source_order() {
    let sources = vec![
        vec!["a0".to_string(), "a1".to_string(), "a2".to_string(), "a3".to_string()],
        vec![],
        vec!["b0".to_string()],
        vec!["c0".to_string(), "c1".to_string()],
    ];
    let mut reader = LineReader::new(sources.clone());
    let merged = drain_lines(&mut reader);
    assert_eq!(merged, vec!["a0", "b0", "c0", "a1", "c1", "a2", "a3"]);
    let total: usize = sources.iter().map(|source| source.len()).sum();
    assert_eq!(merged.len(), total);
    for (prefix, source) in ["a", "", "b", "c"].iter().zip(sources.iter()) {
        if prefix.is_empty() {
            continue;
        }
        let from_source: Vec<&String> =
            merged.iter().filter(|line| line.starts_with(prefix)).collect();
        let expected: Vec<&String> = source.iter().collect();
        assert_eq!(from_source, expected);
    }
}

#[test]
fn full_rounds_take_one_line_from_each_source() {
    let sources: Vec<Vec<String>> = (0..3)
        .map(|source| (0..4).map(|line| format!("{}:{}", source, line)).collect())
        .collect();
    let mut reader = LineReader::new(sources);
    let merged = drain_lines(&mut reader);
    assert_eq!(merged.len(), 12);
    for (at, line) in merged.iter().enumerate() {
        assert_eq!(line, &format!("{}:{}", at % 3, at / 3));
    }
    for start in 0..=(merged.len() - 3) {
        let mut seen = [0usize; 3];
        for line in &merged[start..start + 3] {
            let source: usize = line[..1].parse().unwrap();
            seen[source] += 1;
        }
        assert_eq!(seen, [1, 1, 1]);
    }
}

#[test]
fn source_empty_from_the_start_is_passed_over() {
    assert_eq!(merge_texts(&["", "x\n", "y\n"]), "x\ny\n");
    assert_eq!(merge_texts(&["x\n", "", "y\n"]), "x\ny\n");
    assert_eq!(merge_texts(&["x\n", "y\n", ""]), "x\ny\n");
    assert_eq!(merge_texts(&["", "", ""]), "");
}

#[test]
fn successor_of_a_retired_source_is_not_skipped() {
    assert_eq!(merge_texts(&["a1\n", "b1\nb2\n", "c1\nc2\n"]), "a1\nb1\nc1\nb2\nc2\n");
    assert_eq!(merge_texts(&["a1\na2\n", "b1\n", "c1\nc2\n"]), "a1\nb1\nc1\na2\nc2\n");
}

#[test]
fn retiring_the_last_position_wraps_to_the_first() {
    assert_eq!(merge_texts(&["a1\na2\na3\n", "b1\nb2\n", "c1\n"]), "a1\nb1\nc1\na2\nb2\na3\n");
}

#[test]
fn last_line_without_terminator_is_kept_as_it_is() {
    assert_eq!(merge_texts(&["a\nb", "1\n2\n"]), "a\n1\nb2\n");
}

#[test]
fn write_lines_appends_after_what_is_there() {
    let mut reader =
        LineReader::new(vec![vec!["a\n".to_string()], vec!["1\n".to_string(), "2".to_string()]]);
    let mut output = String::from("head:");
    write_lines(&mut reader, &mut output);
    assert_eq!(output, "head:a\n1\n2");
    assert!(reader.is_done());
    assert_eq!(reader.get_next_line(), None);
    write_lines(&mut reader, &mut output);
    assert_eq!(output, "head:a\n1\n2");
}

#[test]
fn reader_is_done_only_after_it_said_so() {
    let mut reader = LineReader::new(vec![vec!["a".to_string()], vec!["b".to_string()]]);
    assert_eq!(reader.get_next_line(), Some("a".to_string()));
    assert_eq!(reader.get_next_line(), Some("b".to_string()));
    assert!(!reader.is_done());
    assert_eq!(reader.get_next_line(), None);
    assert!(reader.is_done());
}

#[test]
fn live_sources_never_grow_and_reach_zero_at_the_end() {
    let sources = vec![
        vec!["a0".to_string(), "a1".to_string()],
        vec![],
        vec!["b0".to_string(), "b1".to_string(), "b2".to_string()],
    ];
    let mut reader = LineReader::new(sources);
    assert_eq!(reader.live_count(), 3);
    let mut counts = Vec::new();
    let mut last = reader.live_count();
    loop {
        let line = reader.get_next_line();
        assert!(reader.live_count() <= last);
        last = reader.live_count();
        counts.push(last);
        assert_eq!(reader.is_done(), last == 0);
        assert_eq!(line.is_none(), reader.is_done());
        if line.is_none() {
            break;
        }
    }
    assert_eq!(counts, vec![3, 2, 2, 2, 1, 0]);
}
