use goro::text_buffer::TextBuffer;

fn buffer(text: &str) -> TextBuffer {
    let mut b = TextBuffer::default();
    b.set_text(text);
    b
}

#[test]
fn typing_and_deleting() {
    let mut b = TextBuffer::default();
    b.insert("Fix bug");
    b.insert("\n\nBody");
    assert_eq!(b.text(), "Fix bug\n\nBody");
    b.backspace();
    assert_eq!(b.text(), "Fix bug\n\nBod");
    b.move_to(0);
    b.delete();
    assert_eq!(b.text(), "ix bug\n\nBod");
    b.backspace();
    assert_eq!(b.text(), "ix bug\n\nBod", "backspace at start is a no-op");
}

#[test]
fn graphemes_move_as_one() {
    let mut b = buffer("e\u{301}x👍🏽");
    b.backspace();
    assert_eq!(b.text(), "e\u{301}x", "emoji with skin tone deletes as one");
    b.left(false);
    assert_eq!(b.cursor(), "e\u{301}".len());
    b.left(false);
    assert_eq!(b.cursor(), 0, "combining accent moves with its base");
    b.right(false);
    assert_eq!(b.cursor(), "e\u{301}".len());
}

#[test]
fn vertical_movement_keeps_the_goal_column() {
    let mut b = buffer("long first line\nab\nthird line here");
    b.move_to(10);
    b.down(false);
    assert_eq!(b.cursor(), "long first line\nab".len(), "clamped to short line");
    b.down(false);
    assert_eq!(b.cursor(), "long first line\nab\n".len() + 10, "goal column restored");
    b.up(false);
    b.up(false);
    assert_eq!(b.cursor(), 10);
    b.up(false);
    assert_eq!(b.cursor(), 0, "up from the first line goes to the start");
}

#[test]
fn selection_extends_and_reverses() {
    let mut b = buffer("abc\ndef");
    b.move_to(5);
    b.left(true);
    b.left(true);
    assert_eq!(b.selection(), 3..5);
    assert!(b.is_reversed());
    b.up(true);
    assert_eq!(b.selection(), 0..5);
    b.insert("X");
    assert_eq!(b.text(), "Xef");
    b.select_all();
    b.line_end(false);
    assert_eq!(b.cursor(), 3);
}

#[test]
fn line_start_and_end() {
    let mut b = buffer("one\ntwo three");
    b.move_to(6);
    b.line_start(false);
    assert_eq!(b.cursor(), 4);
    b.line_end(true);
    assert_eq!(b.selection(), 4..13);
}

#[test]
fn utf16_round_trip() {
    let b = buffer("a👍b");
    assert_eq!(b.offset_to_utf16("a👍".len()), 3);
    assert_eq!(b.offset_from_utf16(3), "a👍".len());
    assert_eq!(b.range_from_utf16(&(1..3)), 1..5);
    assert_eq!(b.range_to_utf16(&(1..5)), 1..3);
    assert_eq!(b.offset_from_utf16(99), "a👍b".len());
}

#[test]
fn ime_marked_text_is_replaced() {
    let mut b = TextBuffer::default();
    b.insert("x");
    b.marked = Some(1..1);
    b.replace(1..1, "に");
    b.marked = Some(1..1 + "に".len());
    b.insert("日本");
    assert_eq!(b.text(), "x日本");
    assert_eq!(b.marked, None);
}

#[test]
fn lines_have_no_newlines() {
    let b = buffer("ab\n\ncd\n");
    assert_eq!(b.lines(), vec![0..2, 3..3, 4..6, 7..7]);
    assert_eq!(b.line_of(0), 0);
    assert_eq!(b.line_of(3), 1);
    assert_eq!(b.line_of(7), 3);
}

#[test]
fn deleting_a_selection() {
    let mut b = buffer("hello");
    b.move_to(1);
    b.select_to(3);
    b.delete();
    assert_eq!(b.text(), "hlo");
    assert_eq!(b.cursor(), 1);
    b.move_to(3);
    b.delete();
    assert_eq!(b.text(), "hlo", "delete at the end is a no-op");
    assert_eq!(b.next_boundary(1), 2);
    assert_eq!(b.previous_boundary(1), 0);
}

#[test]
fn down_from_the_last_line_goes_to_the_end() {
    let mut b = buffer("ab\ncd");
    b.move_to(4);
    b.down(false);
    assert_eq!(b.cursor(), 5);
    b.select_all();
    b.right(false);
    assert_eq!((b.selection(), b.is_reversed()), (5..5, false));
}

#[test]
fn boundaries_lead_back() {
    let b = buffer("e\u{301}x👍🏽\nz");
    let mut at = 0;
    while at < b.text().len() {
        let next = b.next_boundary(at);
        assert_eq!(b.previous_boundary(next), at);
        at = next;
    }
    assert_eq!(at, b.text().len());
}

#[test]
fn up_comes_back_from_a_shorter_line() {
    let mut b = buffer("long first\nab\nthird");
    b.move_to(7);
    b.down(false);
    assert_eq!(b.cursor(), "long first\nab".len());
    b.up(false);
    assert_eq!(b.cursor(), 7);
    b.up(false);
    assert_eq!(b.cursor(), 0);
}

#[test]
fn every_boundary_is_come_back_to_from_below() {
    for text in [
        "one\ntwo three\nx",
        "a\r\nb\r\n\r\nc",
        "🇷🇸🇮🇴🇷\n🇷🇸\n👨‍👩‍👧e\u{301}\n\u{301}x\nक्ष\nत",
        "\n\nlong line\n\n",
    ] {
        let mut b = buffer(text);
        let mut at = 0;
        loop {
            if b.line_of(at) + 1 < b.lines().len() {
                b.move_to(at);
                b.down(false);
                b.up(false);
                assert_eq!(b.cursor(), at, "{text:?} {at}");
                assert_eq!(b.selection(), at..at);
                assert_eq!(b.text(), text);
                if b.line_of(at) == 0 {
                    b.up(false);
                    assert_eq!(b.cursor(), 0);
                }
            }
            if at == text.len() {
                break;
            }
            at = b.next_boundary(at);
        }
    }
}
