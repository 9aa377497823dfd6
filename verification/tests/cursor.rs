use jago::cursor::{Cursor, Direction, Lense};

const BUFFER: &str = "# Jago\n\n> `Canker` but communist.\n\n## Intro\n\nThe name Alec Thompson is one that most of us know for one reason or another. The same face might come to mind for each of us.\n\n## Canker\n\nCanker was founded by one of the Alec Thompsons.\n";

#[test]
fn forward_graphemes() {
    let buffer = BUFFER;

    let tests = vec![
        ((0, 0, 0), 1, (1, 0, 1), " "),
        ((1, 0, 1), 1, (2, 0, 2), "J"),
        ((2, 0, 2), 1, (3, 0, 3), "a"),
        ((3, 0, 3), 1, (4, 0, 4), "g"),
        ((4, 0, 4), 1, (5, 0, 5), "o"),
        ((5, 0, 5), 1, (0, 1, 7), "\n"),
        ((0, 0, 0), 1, (1, 0, 1), " "),
        ((1, 0, 1), 2, (3, 0, 3), "a"),
        ((3, 0, 3), 3, (0, 1, 7), "\n"),
        ((0, 1, 7), 4, (3, 2, 11), "C"),
        ((3, 2, 10), 5, (8, 2, 15), "e"),
    ];

    for (from, steps, to, want) in tests {
        let from: Cursor = from.into();
        let expect: Cursor = to.into();
        let got_cursor = from.forward_graphemes(buffer, steps);
        let got = got_cursor.current(buffer);
        assert_eq!(
            got_cursor, expect,
            "{:?} -> {} = got {:?} want {:?} {:?}",
            from, steps, got_cursor, to, got
        );
        assert_eq!(
            got, want,
            "{:?} -> {} = got {:?} want {:?}",
            from, steps, got, want
        );
    }
}

#[test]
fn backward_graphemes() {
    let buffer = BUFFER;

    let tests = vec![
        ((1, 0, 1), 1, (0, 0, 0), "#"),
        ((2, 0, 2), 1, (1, 0, 1), " "),
        ((3, 0, 3), 1, (2, 0, 2), "J"),
        ((4, 0, 4), 1, (3, 0, 3), "a"),
        ((5, 0, 5), 1, (4, 0, 4), "g"),
        ((0, 1, 7), 1, (5, 0, 5), "o"),
        ((1, 0, 1), 1, (0, 0, 0), "#"),
        ((3, 0, 3), 2, (1, 0, 1), " "),
        ((0, 1, 7), 3, (3, 0, 3), "a"),
        ((3, 2, 11), 4, (5, 0, 5), "o"),
        ((8, 2, 15), 5, (3, 2, 10), "`"),
    ];

    for (from, steps, to, want) in tests {
        println!("{:?} - {} = {:?} {:?}", from, steps, to, want);
        let from: Cursor = from.into();
        let expect: Cursor = to.into();
        let got_cursor = from.backward_graphemes(buffer, steps);
        let got = got_cursor.current(buffer);
        assert_eq!(
            got_cursor, expect,
            "{:?} - {}g = got {:?} {:?} want {:?} {:?}",
            from, steps, got_cursor, got, to, want
        );
        assert_eq!(
            got, want,
            "{:?} - {}g = got {:?} want {:?}",
            from, steps, got, want
        );
    }
}

#[test]
fn test_forward_lines() {
    let buffer = BUFFER;

    let tests = vec![
        ((0, 0, 0), 1, (0, 1, 7), "\n"),
        ((0, 0, 0), 2, (0, 2, 8), ">"),
        ((3, 0, 0), 1, (0, 1, 7), "\n"),
        ((3, 0, 0), 2, (3, 2, 11), "C"),
    ];

    for (from, steps, to, want) in tests {
        let from: Cursor = from.into();
        let expect: Cursor = to.into();
        let got_cursor = from.forward_lines(buffer, steps);
        let got = got_cursor.current(buffer);
        assert_eq!(
            got_cursor, expect,
            "{:?} -> {} = got {:?} want {:?}",
            from, steps, got_cursor, to
        );
        assert_eq!(
            got, want,
            "{:?} -> {} = got {:?} want {:?}",
            from, steps, got, want
        );
    }
}

#[test]
fn test_backward_lines() {
    let buffer = BUFFER;

    let tests = vec![
        ((0, 1, 7), 1, (0, 0, 0), "#"),
        ((0, 2, 8), 1, (0, 1, 7), "\n"),
        ((3, 2, 11), 1, (0, 1, 7), "\n"),
        ((3, 2, 11), 2, (3, 0, 3), "a"),
        ((5, 0, 5), 1, (5, 0, 5), "o"),
        ((5, 0, 5), 3, (5, 0, 5), "o"),
    ];

    for (from, steps, to, want) in tests {
        let from: Cursor = from.into();
        let expect: Cursor = to.into();
        let got_cursor = from.backward_lines(buffer, steps);
        let got = got_cursor.current(buffer);
        assert_eq!(
            got_cursor, expect,
            "{:?} <- {} = got {:?} want {:?}",
            from, steps, got_cursor, to
        );
        assert_eq!(
            got, want,
            "{:?} <- {} = got {:?} want {:?}",
            from, steps, got, want
        );
    }
}

#[test]
fn scenario_forward_into_blank_line() {
    let buffer = "# Jago\n\n> `Canker`";

    let start: Cursor = (0, 0, 0).into();
    let rest = start.forward_graphemes(buffer, 5);
    assert_eq!(rest, (5, 0, 5).into());
    assert_eq!(rest.current(buffer), "o");

    let past = rest.forward_graphemes(buffer, 1);
    assert_eq!(past, (0, 1, 7).into());
    assert_eq!(past.current(buffer), "\n");
}

#[test]
fn scenario_backward_over_line_break() {
    let buffer = "# Jago\n\n> `Canker`";

    let start: Cursor = (0, 1, 7).into();
    let back = start.backward_graphemes(buffer, 1);
    assert_eq!(back, (5, 0, 5).into());
    assert_eq!(back.current(buffer), "o");
}

#[test]
fn scenario_sticky_column_down_two_lines() {
    // Lines of length 6, 0 and 25.
    let buffer = "# Jago\n\n> Canker, but communists.";
    assert_eq!(buffer.len(), 8 + 25);

    let start: Cursor = (3, 0, 3).into();
    let down = start.forward_lines(buffer, 2);
    assert_eq!(down, (3, 2, 11).into());
}

#[test]
fn sticky_column_clamps_to_short_line() {
    let buffer = "a long first line\nab\nanother long line";

    let start: Cursor = (10, 0, 10).into();
    let down = start.forward_lines(buffer, 1);
    assert_eq!(down, (2, 1, 20).into());

    let up = down.backward_lines(buffer, 1);
    assert_eq!(up, (2, 0, 2).into());
}

#[test]
fn sticky_column_restored_on_wide_line() {
    let buffer = "a long first line\nanother long line";

    let start: Cursor = (10, 0, 10).into();
    let down = start.forward_lines(buffer, 1);
    assert_eq!(down, (10, 1, 28).into());

    let up = down.backward_lines(buffer, 1);
    assert_eq!(up, start);
}

#[test]
fn round_trip_within_a_line() {
    let buffer = BUFFER;

    let start: Cursor = (1, 0, 1).into();
    let there = start.forward_graphemes(buffer, 4);
    assert_eq!(there, (5, 0, 5).into());
    let back = there.backward_graphemes(buffer, 4);
    assert_eq!(back, start);
}

#[test]
fn round_trip_over_a_skipped_break() {
    let buffer = BUFFER;

    // The forward move counts `a`, `g`, `o` and then skips the line break;
    // the backward move re-crosses the break without counting it.
    let start: Cursor = (3, 0, 3).into();
    let there = start.forward_graphemes(buffer, 3);
    assert_eq!(there, (0, 1, 7).into());
    let back = there.backward_graphemes(buffer, 3);
    assert_eq!(back, start);
}

#[test]
fn round_trip_breaks_when_a_break_is_counted() {
    let buffer = BUFFER;

    // The forward move counts the line break as a step; the backward move
    // does not, so the trip ends one cluster short.
    let start: Cursor = (5, 0, 5).into();
    let there = start.forward_graphemes(buffer, 2);
    assert_eq!(there, (0, 2, 8).into());
    let back = there.backward_graphemes(buffer, 2);
    assert_eq!(back, (4, 0, 4).into());
}

#[test]
fn clamp_is_idempotent() {
    let buffer = BUFFER;

    let start: Cursor = (0, 0, 0).into();
    let once = start.forward_graphemes(buffer, usize::MAX);
    let twice = once.forward_graphemes(buffer, usize::MAX);
    assert_eq!(once, twice);
    assert_eq!(once.z(), buffer.len());
    assert_eq!(once.current(buffer), "");
}

#[test]
fn forward_counts_clusters_not_bytes() {
    // One three-byte cluster (a with a combining candrabindu), then one
    // two-byte cluster, then a flag pair of eight bytes.
    let buffer = "a\u{310}é🇷🇺!";

    let start: Cursor = (0, 0, 0).into();
    assert_eq!(start.current(buffer), "a\u{310}");
    let one = start.forward_graphemes(buffer, 1);
    assert_eq!(one, (3, 0, 3).into());
    assert_eq!(one.current(buffer), "é");

    let two = one.forward_graphemes(buffer, 1);
    assert_eq!(two, (5, 0, 5).into());
    assert_eq!(two.current(buffer), "🇷🇺");

    let three = two.forward_graphemes(buffer, 1);
    assert_eq!(three, (13, 0, 13).into());
    assert_eq!(three.current(buffer), "!");

    let back = three.backward_graphemes(buffer, 2);
    assert_eq!(back, one);
}

#[test]
fn step_dispatches_and_checks_the_position() {
    let buffer = "# Jago\n\n> `Canker`";

    let start: Cursor = (0, 0, 0).into();
    let moved = start
        .step(buffer, Direction::Forward, Lense::Graphemes, 5)
        .unwrap();
    assert_eq!(moved, (5, 0, 5).into());

    let back = moved
        .step(buffer, Direction::Backward, Lense::Graphemes, 5)
        .unwrap();
    assert_eq!(back, start);

    let down = start.step(buffer, Direction::Forward, Lense::Lines, 1).unwrap();
    assert_eq!(down, (0, 1, 7).into());

    // Words and sentences leave the position unchanged.
    assert_eq!(
        start.step(buffer, Direction::Forward, Lense::Words, 3),
        Some(start)
    );
    assert_eq!(
        start.step(buffer, Direction::Forward, Lense::Sentences, 3),
        Some(start)
    );

    // A byte offset inside a cluster is rejected.
    let broken: Cursor = (1, 0, 1).into();
    assert_eq!(
        broken.step("é!", Direction::Forward, Lense::Graphemes, 1),
        None
    );

    // A column that disagrees with the offset is rejected for graphemes.
    let skewed: Cursor = (3, 0, 1).into();
    assert_eq!(
        skewed.step(buffer, Direction::Forward, Lense::Graphemes, 1),
        None
    );

    // For line moves the column is only the sticky budget.
    let sticky: Cursor = (3, 0, 0).into();
    assert_eq!(
        sticky.step(buffer, Direction::Forward, Lense::Lines, 2),
        Some((3, 2, 11).into())
    );
}

#[test]
fn backward_leaves_the_past_end_state() {
    let buffer = "ab";

    let parked: Cursor = (2, 0, 2).into();
    assert_eq!(parked.current(buffer), "");

    let back = parked.backward_graphemes(buffer, 1);
    assert_eq!(back, (1, 0, 1).into());
    assert_eq!(back.current(buffer), "b");
}

#[test]
fn backward_clamps_at_the_start() {
    let buffer = "ab";

    let start: Cursor = (0, 0, 0).into();
    assert_eq!(start.backward_graphemes(buffer, 5), start);
}

#[test]
fn current_and_try_current() {
    let buffer = "é!";

    let start: Cursor = (0, 0, 0).into();
    assert_eq!(start.current(buffer), "é");
    assert_eq!(start.try_current(buffer), Some("é"));

    let end: Cursor = (3, 0, 3).into();
    assert_eq!(end.current(buffer), "");

    let mid: Cursor = (1, 0, 1).into();
    assert_eq!(mid.try_current(buffer), None);
}

#[test]
fn accessors_and_default() {
    let c: Cursor = (3, 2, 11).into();
    assert_eq!(c.x(), 3);
    assert_eq!(c.y(), 2);
    assert_eq!(c.z(), 11);

    let origin = Cursor::default();
    assert_eq!(origin, (0, 0, 0).into());
    assert_eq!(Lense::default(), Lense::Graphemes);
}
