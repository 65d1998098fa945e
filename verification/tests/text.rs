use tiny_json::text::{char_width, first_char, str_eq, CharCursor};

#[test]
fn widths() {
    assert_eq!(char_width('a'), 1);
    assert_eq!(char_width('\u{7f}'), 1);
    assert_eq!(char_width('\u{80}'), 2);
    assert_eq!(char_width('é'), 2);
    assert_eq!(char_width('\u{7ff}'), 2);
    assert_eq!(char_width('\u{800}'), 3);
    assert_eq!(char_width('€'), 3);
    assert_eq!(char_width('\u{ffff}'), 3);
    assert_eq!(char_width('\u{10000}'), 4);
    assert_eq!(char_width('𝄞'), 4);
    for c in ['a', 'é', '€', '𝄞'] {
        assert_eq!(char_width(c), c.len_utf8());
    }
}

#[test]
fn cursor_walks_code_points() {
    let mut c = CharCursor::new("a€𝄞é");
    assert_eq!(c.offset(), 0);
    assert_eq!(c.peek(), Some((0, 'a')));
    assert_eq!(c.next(), Some((0, 'a')));
    assert_eq!(c.next(), Some((1, '€')));
    assert_eq!(c.peek(), Some((4, '𝄞')));
    assert_eq!(c.next(), Some((4, '𝄞')));
    assert_eq!(c.offset(), 8);
    assert_eq!(c.next(), Some((8, 'é')));
    assert_eq!(c.offset(), 10);
    assert_eq!(c.next(), None);
    assert_eq!(c.peek(), None);
    assert_eq!(c.offset(), 10);
}

#[test]
fn cursor_agrees_with_char_indices() {
    let text = "{\"k\": [1, \"héllo €\", 𝄞]}";
    let mut c = CharCursor::new(text);
    for expected in text.char_indices() {
        assert_eq!(c.next(), Some(expected));
    }
    assert_eq!(c.next(), None);
}

#[test]
fn equal_texts() {
    assert!(str_eq("", ""));
    assert!(str_eq("aé", "aé"));
    assert!(!str_eq("a", "b"));
    assert!(!str_eq("a", "ab"));
}

#[test]
fn first_code_point() {
    assert_eq!(first_char("éa"), Some('é'));
    assert_eq!(first_char(""), None);
}
