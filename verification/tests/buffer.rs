use jago::buffer::Buffer;
use jago::cursor::Cursor;

#[test]
fn buffer_starts_at_the_origin() {
    let buffer = Buffer::new(String::from("# Jago\n\n> `Canker`"));
    assert_eq!(buffer.cursor(), (0, 0, 0).into());
    assert_eq!(buffer.current(), "#");
    assert!(!buffer.is_lines_mode());
}

#[test]
fn buffer_current_of_empty_text() {
    let buffer = Buffer::new(String::new());
    assert_eq!(buffer.current(), "");
}

#[test]
fn keys_move_the_cursor() {
    let mut buffer = Buffer::new(String::from("# Jago\n\n> `Canker`"));

    buffer.handle_key('l', false);
    assert_eq!(buffer.cursor(), (1, 0, 1).into());

    buffer.handle_key('j', false);
    assert_eq!(buffer.cursor(), (0, 1, 7).into());

    buffer.handle_key('h', false);
    buffer.handle_key('k', false);
    assert_eq!(buffer.cursor(), (0, 1, 7).into());

    // The first grapheme of the whole text, whatever the cursor.
    assert_eq!(buffer.current(), "#");
}

#[test]
fn digits_scale_the_next_movement() {
    let mut buffer = Buffer::new(String::from("# Jago\n\n> `Canker`"));

    buffer.handle_key('5', false);
    buffer.handle_key('l', false);
    assert_eq!(buffer.cursor(), (5, 0, 5).into());

    // The count is spent: the next movement is by one again.
    buffer.handle_key('l', false);
    assert_eq!(buffer.cursor(), (0, 1, 7).into());
}

#[test]
fn digits_accumulate_in_base_ten() {
    let mut buffer = Buffer::new(String::from("abcdefghijklmnopqrstuvwxyz"));

    buffer.handle_key('1', false);
    buffer.handle_key('2', false);
    buffer.handle_key('l', false);
    assert_eq!(buffer.cursor(), (12, 0, 12).into());
}

#[test]
fn any_movement_clears_the_pending_count() {
    let mut buffer = Buffer::new(String::from("abcdef"));

    buffer.handle_key('2', false);
    buffer.handle_key('h', false);
    buffer.handle_key('l', false);
    assert_eq!(buffer.cursor(), (1, 0, 1).into());
}

#[test]
fn control_n_toggles_the_mode() {
    let mut buffer = Buffer::new(String::from("abc"));

    assert!(!buffer.is_lines_mode());
    buffer.handle_key('n', true);
    assert!(buffer.is_lines_mode());
    buffer.handle_key('n', true);
    assert!(!buffer.is_lines_mode());

    // Plain `n` is not a digit and only clears the pending count.
    buffer.handle_key('n', false);
    assert!(!buffer.is_lines_mode());
}

#[test]
fn movement_clamps_at_the_end() {
    let mut buffer = Buffer::new(String::from("ab"));

    buffer.handle_key('9', false);
    buffer.handle_key('l', false);
    let parked = buffer.cursor();
    assert_eq!(parked, (2, 0, 2).into());

    buffer.handle_key('9', false);
    buffer.handle_key('l', false);
    assert_eq!(buffer.cursor(), parked);
}

#[test]
fn buffer_text_is_kept() {
    let buffer = Buffer::new(String::from("# Jago"));
    assert_eq!(buffer.as_str(), "# Jago");
    let _cursor: Cursor = buffer.cursor();
}
