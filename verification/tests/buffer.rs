//! Editing the text.
use herdr_scratchpad::buffer::{Buffer, PAGE_FALLBACK};

#[test]
fn new_buffer_has_one_empty_line() {
    let buf = Buffer::default();
    assert!(buf.is_empty());
    assert_eq!(buf.lines().len(), 1);
    assert_eq!(buf.cursor(), (0, 0));
}

#[test]
fn from_text_puts_cursor_at_end() {
    let buf = Buffer::from_text("un\ndeux");
    assert_eq!(buf.cursor(), (1, 4));
    assert_eq!(buf.text(), "un\ndeux");
}

#[test]
fn round_trips_text() {
    for text in ["", "a", "a\nb", "\n", "a\n\nb", "fin\n"] {
        assert_eq!(Buffer::from_text(text).text(), text);
    }
}

#[test]
fn inserts_multibyte_chars_correctly() {
    let mut buf = Buffer::from_text("éé");
    buf.left();
    buf.insert_char('à');
    assert_eq!(buf.text(), "éàé");
}

#[test]
fn backspace_removes_multibyte_char_not_byte() {
    let mut buf = Buffer::from_text("café");
    buf.backspace();
    assert_eq!(buf.text(), "caf");
}

#[test]
fn backspace_at_line_start_joins_previous_line() {
    let mut buf = Buffer::from_text("un\ndeux");
    buf.home();
    buf.backspace();
    assert_eq!(buf.text(), "undeux");
    assert_eq!(buf.cursor(), (0, 2));
}

#[test]
fn backspace_at_origin_is_a_noop() {
    let mut buf = Buffer::from_text("a");
    buf.up(usize::MAX);
    buf.home();
    buf.backspace();
    assert_eq!(buf.text(), "a");
}

#[test]
fn delete_at_line_end_joins_next_line() {
    let mut buf = Buffer::from_text("un\ndeux");
    buf.up(usize::MAX);
    buf.home();
    buf.end();
    buf.delete();
    assert_eq!(buf.text(), "undeux");
}

#[test]
fn delete_at_buffer_end_is_a_noop() {
    let mut buf = Buffer::from_text("a");
    buf.delete();
    assert_eq!(buf.text(), "a");
}

#[test]
fn newline_splits_the_line_at_the_cursor() {
    let mut buf = Buffer::from_text("undeux");
    buf.home();
    buf.right();
    buf.right();
    buf.insert_newline();
    assert_eq!(buf.text(), "un\ndeux");
    assert_eq!(buf.cursor(), (1, 0));
}

#[test]
fn paste_single_line_inserts_at_cursor() {
    let mut buf = Buffer::from_text("ab");
    buf.left();
    buf.insert_str("XY");
    assert_eq!(buf.text(), "aXYb");
    assert_eq!(buf.cursor(), (0, 3));
}

#[test]
fn paste_multiline_splits_and_lands_cursor_after_it() {
    let mut buf = Buffer::from_text("ab");
    buf.left();
    buf.insert_str("X\nY");
    assert_eq!(buf.text(), "aX\nYb");
    assert_eq!(buf.cursor(), (1, 1));
}

#[test]
fn paste_normalises_crlf_and_bare_cr() {
    let mut buf = Buffer::default();
    buf.insert_str("a\r\nb\rc");
    assert_eq!(buf.text(), "a\nb\nc");
}

#[test]
fn paste_of_empty_string_changes_nothing() {
    let mut buf = Buffer::from_text("a");
    buf.insert_str("");
    assert_eq!(buf.text(), "a");
    assert_eq!(buf.cursor(), (0, 1));
}

#[test]
fn vertical_move_clamps_column_to_shorter_line() {
    let mut buf = Buffer::from_text("long\nx");
    buf.up(1);
    buf.end();
    buf.down(1);
    assert_eq!(buf.cursor(), (1, 1));
}

#[test]
fn vertical_moves_saturate_at_the_edges() {
    let mut buf = Buffer::from_text("a\nb\nc");
    buf.up(999);
    assert_eq!(buf.cursor().0, 0);
    buf.down(999);
    assert_eq!(buf.cursor().0, 2);
}

#[test]
fn left_at_line_start_wraps_to_previous_line_end() {
    let mut buf = Buffer::from_text("un\ndeux");
    buf.home();
    buf.left();
    assert_eq!(buf.cursor(), (0, 2));
}

#[test]
fn right_at_line_end_wraps_to_next_line_start() {
    let mut buf = Buffer::from_text("un\ndeux");
    buf.up(usize::MAX);
    buf.home();
    buf.end();
    buf.right();
    assert_eq!(buf.cursor(), (1, 0));
}

#[test]
fn reload_clamps_cursor_when_text_shrinks() {
    let mut buf = Buffer::from_text("un\ndeux\ntrois");
    buf.replace_preserving_cursor("court");
    let (row, col) = buf.cursor();
    assert_eq!(row, 0);
    assert!(col <= 5);
}

#[test]
fn words_are_jumped_and_erased() {
    let mut buf = Buffer::from_text("un deux\n  trois");
    buf.word_left();
    assert_eq!(buf.cursor(), (1, 2));
    buf.word_left();
    assert_eq!(buf.cursor(), (0, 3));
    buf.word_right();
    assert_eq!(buf.cursor(), (0, 7));
    buf.word_right();
    assert_eq!(buf.cursor(), (1, 7));
    buf.delete_word_left();
    assert_eq!(buf.text(), "un deux\n  ");
    buf.delete_word_left();
    assert_eq!(buf.text(), "un ");
    assert_eq!(buf.cursor(), (0, 3));
}

#[test]
fn jumps_to_the_ends_of_the_text() {
    let mut buf = Buffer::from_text("un\ndeux");
    buf.cursor_to_start();
    assert_eq!(buf.cursor(), (0, 0));
    buf.word_left();
    assert_eq!(buf.cursor(), (0, 0));
    buf.cursor_to_end();
    assert_eq!(buf.cursor(), (1, 4));
    buf.word_right();
    assert_eq!(buf.cursor(), (1, 4));
}

#[test]
fn a_cursor_out_of_range_is_brought_back() {
    let mut buf = Buffer::from_text("un\ndeux");
    buf.set_cursor(0, 99);
    assert_eq!(buf.cursor(), (0, 2));
    buf.set_cursor(99, 1);
    assert_eq!(buf.cursor(), (1, 1));
    buf.set_cursor(usize::MAX, usize::MAX);
    assert_eq!(buf.cursor(), (1, 4));
}

#[test]
fn moving_down_by_any_amount_saturates() {
    let mut buf = Buffer::from_text("a\nb");
    buf.down(usize::MAX);
    buf.down(usize::MAX);
    assert_eq!(buf.cursor(), (1, 1));
}

#[test]
fn erasing_undoes_typing_everywhere() {
    let text = "é\n\nab";
    for c in ['x', '\n', '日'] {
        for steps in 0..5 {
            let mut buf = Buffer::from_text(text);
            for _ in 0..steps {
                buf.left();
            }
            let before = buf.clone();
            buf.insert_char(c);
            buf.backspace();
            assert_eq!(buf, before);
        }
    }
}

#[test]
fn pasting_is_the_same_as_typing() {
    let mut pasted = Buffer::from_text("ab");
    pasted.left();
    let mut typed = pasted.clone();
    pasted.insert_str("x\n\nyz");
    for c in "x\n\nyz".chars() {
        typed.insert_char(c);
    }
    assert_eq!(pasted, typed);
}

#[test]
fn left_and_right_walk_the_whole_text() {
    let mut buf = Buffer::from_text("a\n\nbc");
    let mut back = Vec::new();
    for _ in 0..5 {
        back.push(buf.cursor());
        buf.left();
    }
    assert_eq!(buf.cursor(), (0, 0));
    for at in back.iter().rev() {
        buf.right();
        assert_eq!(buf.cursor(), *at);
    }
}

#[test]
fn a_reload_keeps_the_cursor_where_it_can() {
    let mut buf = Buffer::from_text("un\ndeux\ntrois");
    buf.set_cursor(1, 3);
    buf.replace_preserving_cursor("a\nbcdef\ng");
    assert_eq!(buf.cursor(), (1, 3));
    buf.replace_preserving_cursor("a\nb");
    assert_eq!(buf.cursor(), (1, 1));
    assert_eq!(buf.text(), "a\nb");
}

#[test]
fn returns_in_a_row_are_as_many_breaks() {
    let mut buf = Buffer::default();
    buf.insert_str("a\r\r\nb\n\rc");
    assert_eq!(buf.text(), "a\n\nb\n\nc");
}

#[test]
fn the_page_has_a_default_height() {
    assert_eq!(PAGE_FALLBACK, 10);
}
