use jago::document::ULineBounds;
use jago::unicode::split_line_bounds;

const BUFFER: &str = "# Jago\n\n> `Canker` but communist.\n\n## Intro\n\nThe name Alec Thompson is one that most of us know for one reason or another. The same face might come to mind for each of us.\n\n## Canker\n\nCanker was founded by one of the Alec Thompsons.\n";

#[test]
fn line_bounds() {
    let buffer = BUFFER;

    let blocks = split_line_bounds(buffer);
    let mut line_bounds = blocks.into_iter();

    assert_eq!(line_bounds.next(), Some("# Jago"));
    assert_eq!(line_bounds.next(), Some("\n"));
    assert_eq!(line_bounds.next(), Some("\n"));
    assert_eq!(line_bounds.next(), Some("> `Canker` but communist."));
    assert_eq!(line_bounds.next(), Some("\n"));
    assert_eq!(line_bounds.next(), Some("\n"));
    assert_eq!(line_bounds.next(), Some("## Intro"));
    assert_eq!(line_bounds.next(), Some("\n"));
    assert_eq!(line_bounds.next(), Some("\n"));
    assert_eq!(line_bounds.next(), Some("The name Alec Thompson is one that most of us know for one reason or another. The same face might come to mind for each of us."));
    assert_eq!(line_bounds.next(), Some("\n"));
    assert_eq!(line_bounds.next(), Some("\n"));
    assert_eq!(line_bounds.next(), Some("## Canker"));
    assert_eq!(line_bounds.next(), Some("\n"));
    assert_eq!(line_bounds.next(), Some("\n"));
    assert_eq!(
        line_bounds.next(),
        Some("Canker was founded by one of the Alec Thompsons.")
    );
    assert_eq!(line_bounds.next(), Some("\n"));
}

#[test]
fn test_unicode_lines() {
    let buffer = "Hello, world!\nHow are you?\nI'm fine.\n";

    let mut lines = ULineBounds::new(buffer);

    assert_eq!(lines.next(), Some("Hello, world!"));
    assert_eq!(lines.next(), Some("\n"));
    assert_eq!(lines.next(), Some("How are you?"));
    assert_eq!(lines.next(), Some("\n"));
    assert_eq!(lines.next(), Some("I'm fine."));
    assert_eq!(lines.next(), Some("\n"));
    assert_eq!(lines.next(), None);
}

#[test]
fn test_unicode_lines_backward() {
    let buffer = "Hello, world!\nHow are you?\nI'm fine.\n";

    let mut lines = ULineBounds::new(buffer);

    assert_eq!(lines.next_back(), Some("\n"));
    assert_eq!(lines.next_back(), Some("I'm fine."));
    assert_eq!(lines.next_back(), Some("\n"));
    assert_eq!(lines.next_back(), Some("How are you?"));
    assert_eq!(lines.next_back(), Some("\n"));
    assert_eq!(lines.next_back(), Some("Hello, world!"));
    assert_eq!(lines.next_back(), None);
}

#[test]
fn unicode_lines_from_both_ends() {
    let buffer = "one\ntwo\nthree";

    let mut lines = ULineBounds::new(buffer);

    assert_eq!(lines.next(), Some("one"));
    assert_eq!(lines.next_back(), Some("three"));
    assert_eq!(lines.next(), Some("\n"));
    assert_eq!(lines.next_back(), Some("\n"));
    assert_eq!(lines.next(), Some("two"));
    assert_eq!(lines.next(), None);
    assert_eq!(lines.next_back(), None);
}

#[test]
fn line_bounds_keeps_crlf_inside_a_block() {
    // A carriage return and line feed form one cluster, which is not the
    // line break the splitter looks for.
    let blocks = split_line_bounds("a\r\nb\nc");
    assert_eq!(blocks, vec!["a\r\nb", "\n", "c"]);
}

#[test]
fn line_bounds_of_empty_buffer() {
    let blocks = split_line_bounds("");
    assert!(blocks.is_empty());

    let mut lines = ULineBounds::new("");
    assert_eq!(lines.next(), None);
    assert_eq!(lines.next_back(), None);
}
