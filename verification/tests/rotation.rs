use line_merge::outcome::ReadOutcome;
use line_merge::rotation::Rotation;

fn say(text: &str) -> ReadOutcome {
    ReadOutcome::Line(text.to_string())
}

#[test]
fn fresh_rotation_starts_at_the_first_source() {
    let mut rotation = Rotation::new(3);
    assert_eq!(rotation.live_count(), 3);
    assert!(!rotation.is_done());
    assert_eq!(rotation.next_source(), Some(0));
    assert_eq!(rotation.next_source(), Some(0));
    assert_eq!(rotation.live_count(), 3);
}

#[test]
fn a_line_moves_the_turn_on_and_wraps() {
    let mut rotation = Rotation::new(3);
    let mut order = Vec::new();
    for _ in 0..7 {
        let source = rotation.next_source().unwrap();
        order.push(source);
        assert_eq!(rotation.accept(say("x")), Some("x".to_string()));
    }
    assert_eq!(order, vec![0, 1, 2, 0, 1, 2, 0]);
    assert_eq!(rotation.live_count(), 3);
}

#[test]
fn end_of_input_retires_the_source_and_keeps_the_turn_in_place() {
    let mut rotation = Rotation::new(3);
    assert_eq!(rotation.accept(say("a")), Some("a".to_string()));
    assert_eq!(rotation.next_source(), Some(1));
    assert_eq!(rotation.accept(ReadOutcome::EndOfInput), None);
    assert_eq!(rotation.live_count(), 2);
    assert_eq!(rotation.next_source(), Some(2));
    assert_eq!(rotation.accept(say("c")), Some("c".to_string()));
    assert_eq!(rotation.next_source(), Some(0));
    assert_eq!(rotation.accept(say("a")), Some("a".to_string()));
    assert_eq!(rotation.next_source(), Some(2));
}

#[test]
fn retiring_at_the_last_position_wraps_the_cursor() {
    let mut rotation = Rotation::new(2);
    assert_eq!(rotation.accept(say("a")), Some("a".to_string()));
    assert_eq!(rotation.next_source(), Some(1));
    assert_eq!(rotation.accept(ReadOutcome::EndOfInput), None);
    assert_eq!(rotation.next_source(), Some(0));
    assert_eq!(rotation.live_count(), 1);
}

#[test]
fn read_error_retires_the_source_and_the_merge_goes_on() {
    let scripts: Vec<Vec<Option<&str>>> = vec![
        vec![Some("a1\n"), Some("a2\n"), Some("a3\n")],
        vec![Some("b1\n"), None, Some("never\n")],
        vec![Some("c1\n"), Some("c2\n")],
    ];
    let mut position = vec![0usize; scripts.len()];
    let mut rotation = Rotation::new(scripts.len());
    let mut output = String::new();
    while let Some(source) = rotation.next_source() {
        let outcome = match scripts[source].get(position[source]) {
            Some(Some(line)) => ReadOutcome::classify(Some(line.len()), line.to_string()),
            Some(None) => ReadOutcome::classify(None, String::new()),
            None => ReadOutcome::classify(Some(0), String::new()),
        };
        position[source] += 1;
        if let Some(line) = rotation.accept(outcome) {
            output.push_str(&line);
        }
    }
    assert_eq!(output, "a1\nb1\nc1\na2\nc2\na3\n");
    assert!(rotation.is_done());
    assert_eq!(rotation.live_count(), 0);
}

#[test]
fn live_count_shrinks_to_zero_exactly_at_the_end() {
    let mut rotation = Rotation::new(3);
    let outcomes = vec![
        say("a"),
        ReadOutcome::Failed,
        say("c"),
        ReadOutcome::EndOfInput,
        say("c"),
        ReadOutcome::EndOfInput,
    ];
    let mut last = rotation.live_count();
    for outcome in outcomes {
        assert!(rotation.next_source().is_some());
        assert!(!rotation.is_done());
        rotation.accept(outcome);
        assert!(rotation.live_count() <= last);
        last = rotation.live_count();
    }
    assert_eq!(last, 0);
    assert!(!rotation.is_done());
    assert_eq!(rotation.next_source(), None);
    assert!(rotation.is_done());
}

#[test]
fn finished_rotation_stays_finished() {
    let mut rotation = Rotation::new(0);
    assert_eq!(rotation.live_count(), 0);
    assert!(!rotation.is_done());
    for _ in 0..4 {
        assert_eq!(rotation.next_source(), None);
        assert!(rotation.is_done());
        assert_eq!(rotation.accept(say("late")), None);
        assert_eq!(rotation.accept(ReadOutcome::EndOfInput), None);
        assert_eq!(rotation.live_count(), 0);
    }
}

#[test]
fn a_round_gives_every_live_source_one_turn() {
    let mut rotation = Rotation::new(5);
    rotation.accept(say("0"));
    rotation.accept(ReadOutcome::EndOfInput);
    rotation.accept(say("2"));
    let live = rotation.live_count();
    assert_eq!(live, 4);
    let start = rotation.next_source();
    let mut turns = vec![0usize; 5];
    for _ in 0..live {
        turns[rotation.next_source().unwrap()] += 1;
        rotation.accept(say("x"));
    }
    assert_eq!(turns, vec![1, 0, 1, 1, 1]);
    assert_eq!(rotation.next_source(), start);
}

#[test]
fn classify_reads_the_byte_count() {
    assert!(matches!(
        ReadOutcome::classify(Some(3), "ab\n".to_string()),
        ReadOutcome::Line(line) if line == "ab\n"
    ));
    assert!(matches!(
        ReadOutcome::classify(Some(1), "\n".to_string()),
        ReadOutcome::Line(line) if line == "\n"
    ));
    assert!(matches!(ReadOutcome::classify(Some(0), String::new()), ReadOutcome::EndOfInput));
    assert!(matches!(ReadOutcome::classify(None, "part".to_string()), ReadOutcome::Failed));
    assert_eq!(ReadOutcome::classify(Some(usize::MAX), "x".to_string()), say("x"));
    assert_eq!(ReadOutcome::classify(Some(0), "kept".to_string()), ReadOutcome::EndOfInput);
    assert!(ReadOutcome::classify(Some(2), "x\n".to_string()).is_line());
    assert!(!ReadOutcome::EndOfInput.is_line());
    assert!(!ReadOutcome::Failed.is_line());
}
