//! What the pane shows, and where.
use herdr_scratchpad::agents::Target;
use herdr_scratchpad::app::{Action, Command};
use herdr_scratchpad::ui::{
    cursor_visual_row, draw, lay_text, layout_bar, layout_measured, measure_lines,
    position_measured, position_to_cursor, selection_in_row, wrap, wrap_measured, BarContent,
    BarItem, Content, Picture, Position, Rect, Targets, TextRow, VisualRow, EMPTY_HINT,
};
use herdr_scratchpad::width::{columns, fitting, measure, sum};

fn body() -> Rect {
    Rect { x: 0, y: 0, width: 10, height: 3 }
}

fn at(x: u16, y: u16) -> Position {
    Position { x, y }
}

#[test]
fn the_empty_hint_fits_a_narrow_terminal() {
    assert!(
        columns(EMPTY_HINT) <= 80,
        "the hint takes {} columns",
        columns(EMPTY_HINT)
    );
}

#[test]
fn the_empty_hint_teaches_the_buttonless_keys() {
    assert!(
        EMPTY_HINT.contains("^S") && EMPTY_HINT.contains("Esc")
    );
}

#[test]
fn a_click_outside_the_text_area_designates_nothing() {
    let l = lines("abc");
    assert_eq!(
        position_to_cursor(&l, body(), 0, at(0, 9)),
        None
    );
}

#[test]
fn a_click_designates_the_targeted_line_and_column() {
    let l = lines("abc\ndef");
    assert_eq!(position_to_cursor(&l, body(), 0, at(2, 1)), Some((1, 2)));
}

#[test]
fn a_click_accounts_for_the_scroll() {
    let l = lines("a\nb\nc\nd");
    assert_eq!(
        position_to_cursor(&l, body(), 2, at(0, 0)),
        Some((2, 0))
    );
}

#[test]
fn a_click_right_of_the_text_lands_at_the_line_end() {
    let l = lines("abc");
    assert_eq!(position_to_cursor(&l, body(), 0, at(9, 0)), Some((0, 3)));
}

#[test]
fn a_click_below_the_last_line_falls_back_to_it() {
    let l = lines("abc");
    assert_eq!(
        position_to_cursor(&l, body(), 0, at(1, 2)),
        Some((0, 1))
    );
}

#[test]
fn a_click_on_a_wrapped_line_targets_the_right_logical_line() {
    let l = lines("abcdefghijklm");
    let rows = wrap(&l, 10);
    assert_eq!(rows.len(), 2);
    assert_eq!(
        position_to_cursor(&l, body(), 0, at(1, 1)),
        Some((0, 11))
    );
}

#[test]
fn a_click_counts_display_columns() {
    let l = lines("日本語");
    assert_eq!(
        position_to_cursor(&l, body(), 0, at(2, 0)),
        Some((0, 1))
    );
}

#[test]
fn a_click_on_the_second_column_of_a_wide_char_designates_that_char() {
    let l = lines("日本語");
    assert_eq!(position_to_cursor(&l, body(), 0, at(1, 0)), Some((0, 0)));
}

#[test]
fn a_click_on_an_empty_line_stays_at_column_zero() {
    let l = lines("\nb");
    assert_eq!(position_to_cursor(&l, body(), 0, at(7, 0)), Some((0, 0)));
}

fn lines(text: &str) -> Vec<String> {
    text.split('\n').map(str::to_owned).collect()
}

#[test]
fn short_lines_are_not_wrapped() {
    let rows = wrap(&lines("abc\nde"), 10);
    assert_eq!(rows.len(), 2);
    assert_eq!(rows[0], VisualRow { row: 0, start: 0, end: 3 });
    assert_eq!(rows[1], VisualRow { row: 1, start: 0, end: 2 });
}

#[test]
fn long_line_wraps_at_the_width() {
    let rows = wrap(&lines("abcdef"), 2);
    assert_eq!(rows.len(), 3);
    assert_eq!(rows[0], VisualRow { row: 0, start: 0, end: 2 });
    assert_eq!(rows[2], VisualRow { row: 0, start: 4, end: 6 });
}

#[test]
fn empty_line_still_produces_a_visual_row() {
    let rows = wrap(&lines("a\n\nb"), 10);
    assert_eq!(rows.len(), 3);
    assert_eq!(rows[1], VisualRow { row: 1, start: 0, end: 0 });
}

#[test]
fn wrapping_counts_display_columns_not_chars() {
    let rows = wrap(&lines("日本語"), 4);
    assert_eq!(rows.len(), 2);
    assert_eq!(rows[0].end, 2);
}

#[test]
fn a_char_wider_than_the_pane_does_not_loop() {
    let rows = wrap(&lines("日本"), 1);
    assert_eq!(rows.len(), 2);
}

#[test]
fn zero_width_is_treated_as_one() {
    let rows = wrap(&lines("ab"), 0);
    assert_eq!(rows.len(), 2);
}

#[test]
fn selection_inside_a_single_row_keeps_its_bounds() {
    let visual = VisualRow { row: 0, start: 0, end: 5 };
    assert_eq!(selection_in_row(visual, ((0, 1), (0, 3))), Some((1, 3)));
}

#[test]
fn selection_straddling_the_wrap_covers_both_chunks() {
    let sel = ((0, 1), (0, 3));
    assert_eq!(
        selection_in_row(VisualRow { row: 0, start: 0, end: 2 }, sel),
        Some((1, 2))
    );
    assert_eq!(
        selection_in_row(VisualRow { row: 0, start: 2, end: 4 }, sel),
        Some((2, 3))
    );
}

#[test]
fn a_middle_line_is_fully_covered() {
    let visual = VisualRow { row: 1, start: 0, end: 4 };
    assert_eq!(
        selection_in_row(visual, ((0, 2), (2, 1))),
        Some((0, 4))
    );
}

#[test]
fn an_empty_line_inside_the_selection_has_nothing_to_highlight() {
    let visual = VisualRow { row: 1, start: 0, end: 0 };
    assert_eq!(selection_in_row(visual, ((0, 0), (2, 1))), None);
}

#[test]
fn a_row_outside_the_selection_is_untouched() {
    let sel = ((1, 0), (1, 2));
    assert_eq!(selection_in_row(VisualRow { row: 0, start: 0, end: 4 }, sel), None);
    assert_eq!(selection_in_row(VisualRow { row: 2, start: 0, end: 4 }, sel), None);
}

#[test]
fn cursor_at_line_end_lands_on_the_last_chunk() {
    let rows = wrap(&lines("abcdef"), 2);
    assert_eq!(cursor_visual_row(&rows, (0, 6)), 2);
}

#[test]
fn cursor_inside_a_chunk_lands_on_that_chunk() {
    let rows = wrap(&lines("abcdef"), 2);
    assert_eq!(cursor_visual_row(&rows, (0, 3)), 1);
}

#[test]
fn cursor_on_an_empty_line_is_found() {
    let rows = wrap(&lines("a\n\nb"), 10);
    assert_eq!(cursor_visual_row(&rows, (1, 0)), 1);
}

fn target(agent: &str, pane_id: &str) -> Target {
    Target { pane_id: pane_id.into(), agent: agent.into() }
}

fn view(current: &Target, count: usize) -> Targets<'_> {
    Targets { current: Some(current), count }
}

fn bar(width: u16) -> Vec<BarItem> {
    let t = target("hermes", "w2:p1");
    layout_bar(Rect { x: 0, y: 0, width, height: 1 }, view(&t, 2))
}

fn actions(target_count: usize) -> Vec<Action> {
    let t = target("hermes", "w2:p1");
    layout_bar(Rect { x: 0, y: 0, width: 120, height: 1 }, view(&t, target_count))
        .iter()
        .map(|i| i.action)
        .collect()
}

fn fixed_rects(target_count: usize) -> Vec<Rect> {
    let t = target("hermes", "w2:p1");
    layout_bar(Rect { x: 0, y: 0, width: 120, height: 1 }, view(&t, target_count))
        .iter()
        .filter(|i| {
            matches!(
                i.action,
                Action::Command(Command::Copy)
                    | Action::Command(Command::Clear)
                    | Action::Command(Command::Undo)
            )
        })
        .map(|i| i.rect)
        .collect()
}

#[test]
fn buttons_are_laid_out_left_to_right_without_overlap() {
    let t = target("hermes", "w2:p1");
    let items = layout_bar(Rect { x: 0, y: 9, width: 120, height: 1 }, view(&t, 2));
    assert_eq!(items.len(), 5);
    for pair in items.windows(2) {
        assert!(
            pair[0].rect.x + pair[0].rect.width < pair[1].rect.x
        );
    }
    assert!(items.iter().all(|i| i.rect.y == 9 && i.rect.height == 1));
}

#[test]
fn buttons_that_do_not_fit_are_dropped() {
    let items = bar(12);
    assert_eq!(items.len(), 1);

    assert!(bar(3).is_empty());
}

#[test]
fn entries_that_do_not_fit_are_dropped_at_the_largest_coordinates() {
    let t = target("hermes", "w2:p1");
    let place = |x, width| {
        layout_bar(Rect { x, y: 0, width, height: 1 }, view(&t, 2))
            .iter()
            .map(|i| (i.rect.x, i.rect.width))
            .collect::<Vec<_>>()
    };
    assert_eq!(place(65528, 7), vec![(65528, 7)]);
    assert_eq!(place(65528, 100), vec![(65528, 7)]);
    assert_eq!(place(65529, 6), vec![]);
    assert_eq!(place(65519, 16), vec![(65519, 7), (65527, 8)]);
    assert_eq!(place(65520, 15), vec![(65520, 7)]);
    assert_eq!(place(u16::MAX, u16::MAX), vec![]);
}

#[test]
fn each_rect_matches_the_width_of_its_own_label() {
    for item in bar(120) {
        assert_eq!(item.rect.width as usize, columns(&item.label), "{}", item.label);
    }
}

#[test]
fn buttons_respect_a_non_zero_origin() {
    let t = target("hermes", "w2:p1");
    let items = layout_bar(Rect { x: 5, y: 0, width: 120, height: 1 }, view(&t, 2));
    assert_eq!(items[0].rect.x, 5);
}

#[test]
fn button_order_matches_the_declared_one() {
    assert_eq!(
        actions(2),
        vec![
            Action::Command(Command::Copy),
            Action::Command(Command::Clear),
            Action::Command(Command::Undo),
            Action::Command(Command::Send),
            Action::CycleTarget,
        ]
    );
}

#[test]
fn without_an_agent_neither_send_nor_target_area_are_in_the_bar() {
    assert_eq!(
        actions(0),
        vec![
            Action::Command(Command::Copy),
            Action::Command(Command::Clear),
            Action::Command(Command::Undo),
        ]
    );
}

#[test]
fn with_one_agent_send_is_there_but_not_the_target_area() {
    assert_eq!(
        actions(1),
        vec![
            Action::Command(Command::Copy),
            Action::Command(Command::Clear),
            Action::Command(Command::Undo),
            Action::Command(Command::Send),
        ]
    );
}

#[test]
fn with_two_agents_send_and_the_target_area_are_both_there() {
    assert!(actions(2).contains(&Action::Command(Command::Send)));
    assert!(actions(2).contains(&Action::CycleTarget));
}

#[test]
fn the_fixed_commands_do_not_move_with_the_agent_count() {
    assert_eq!(fixed_rects(0), fixed_rects(1));
    assert_eq!(fixed_rects(1), fixed_rects(2));
}

#[test]
fn the_fixed_commands_survive_a_narrow_bar() {
    let items = bar(30);
    let actions: Vec<_> = items.iter().map(|i| i.action).collect();
    assert!(actions.starts_with(&[
        Action::Command(Command::Copy),
        Action::Command(Command::Clear),
        Action::Command(Command::Undo),
    ]));
    assert!(!actions.contains(&Action::CycleTarget));
}

#[test]
fn export_has_no_button_in_any_of_the_three_shapes() {
    for count in 0..=2 {
        assert!(
            !actions(count).contains(&Action::Command(Command::Export)),
            "{count} agent(s)"
        );
    }
}

#[test]
fn an_endless_agent_name_does_not_eat_the_bar() {
    let long = target(&"a".repeat(200), "w2:p1");
    let items = layout_bar(Rect { x: 0, y: 0, width: 120, height: 1 }, view(&long, 2));
    assert_eq!(items.len(), 5);
}

#[test]
fn the_bar_still_lays_out_without_a_selected_target() {
    let items = layout_bar(
        Rect { x: 0, y: 0, width: 120, height: 1 },
        Targets { current: None, count: 2 },
    );
    assert_eq!(items.len(), 4);
    assert!(!items.iter().any(|i| i.action == Action::CycleTarget));
}

fn area(width: u16, height: u16) -> Rect {
    Rect { x: 0, y: 0, width, height }
}

fn plain(row: &TextRow) -> String {
    match row {
        TextRow::Plain(s) => s.clone(),
        TextRow::Marked { before, inside, after } => format!("{before}[{inside}]{after}"),
    }
}

fn picture(
    text: &str,
    cursor: (usize, usize),
    selection: Option<((usize, usize), (usize, usize))>,
    size: Rect,
    scroll: &mut usize,
) -> Picture {
    let l = lines(text);
    draw(size, Content { lines: &l, cursor, selection }, scroll, None, text.is_empty(), Targets::default())
}

#[test]
fn the_picture_shows_text_bar_and_cursor() {
    let mut scroll = 0;
    let p = picture("abc\nde", (1, 1), None, area(40, 5), &mut scroll);
    let rows: Vec<String> = p.rows.iter().map(plain).collect();
    assert_eq!(rows, vec!["abc", "de"]);
    assert_eq!(p.cursor, Some(at(1, 1)));
    assert!(!p.hint);
    assert_eq!(p.bar_area, Rect { x: 0, y: 4, width: 40, height: 1 });
    assert_eq!(p.geometry.body, area(40, 4));
    assert_eq!(p.geometry.total_rows, 2);
    assert_eq!(
        p.geometry.buttons,
        vec![
            (Action::Command(Command::Copy), Rect { x: 0, y: 4, width: 7, height: 1 }),
            (Action::Command(Command::Clear), Rect { x: 8, y: 4, width: 8, height: 1 }),
            (Action::Command(Command::Undo), Rect { x: 17, y: 4, width: 7, height: 1 }),
        ]
    );
    assert!(matches!(p.bar, BarContent::Buttons(_)));
}

#[test]
fn a_pane_of_one_line_has_no_bar() {
    let mut scroll = 0;
    let p = picture("abc", (0, 0), None, area(40, 1), &mut scroll);
    assert!(matches!(p.bar, BarContent::Hidden));
    assert!(p.geometry.buttons.is_empty());
    assert_eq!(p.rows.len(), 1);
}

#[test]
fn a_pane_without_height_shows_nothing() {
    let mut scroll = 7;
    let p = picture("abc", (0, 0), None, area(40, 0), &mut scroll);
    assert!(p.rows.is_empty());
    assert_eq!(p.cursor, None);
    assert_eq!(scroll, 0);
}

#[test]
fn a_message_takes_the_place_of_the_buttons() {
    let l = lines("x");
    let mut scroll = 0;
    let content = Content { lines: &l, cursor: (0, 0), selection: None };
    let p = draw(area(40, 3), content, &mut scroll, Some("copied"), false, Targets::default());
    assert!(matches!(p.bar, BarContent::Message(ref m) if m == "copied"));
    assert!(p.geometry.buttons.is_empty());
}

#[test]
fn the_hint_shows_in_an_empty_pane_only() {
    let mut scroll = 0;
    assert!(picture("", (0, 0), None, area(80, 3), &mut scroll).hint);
    assert!(!picture("a", (0, 0), None, area(80, 3), &mut scroll).hint);
    // A first line without columns leaves the hint its place.
    for (first, shown) in [("", true), ("x", false), ("日", false)] {
        let l = vec![first.to_owned(), "y".to_owned()];
        let content = Content { lines: &l, cursor: (0, 0), selection: None };
        let p = draw(area(80, 3), content, &mut scroll, None, true, Targets::default());
        assert_eq!(p.hint, shown, "{first}");
    }
}

#[test]
fn the_hint_gives_way_to_a_selection() {
    let l = lines("ab");
    let mut scroll = 0;
    let content = Content { lines: &l, cursor: (0, 0), selection: Some(((0, 0), (0, 1))) };
    assert!(!draw(area(80, 3), content, &mut scroll, None, true, Targets::default()).hint);
}

#[test]
fn the_selection_is_cut_out_of_each_row() {
    let mut scroll = 0;
    let p = picture("abcdef\ng", (0, 0), Some(((0, 1), (1, 1))), area(4, 5), &mut scroll);
    let rows: Vec<String> = p.rows.iter().map(plain).collect();
    assert_eq!(rows, vec!["a[bcd]", "[ef]", "[g]"]);
    let p = picture("abc", (0, 0), Some(((0, 1), (0, 2))), area(4, 5), &mut scroll);
    assert_eq!(plain(&p.rows[0]), "a[b]c");
}

#[test]
fn scrolling_follows_the_cursor_and_stays_in_the_text() {
    let text = "a\nb\nc\nd\ne\nf";
    let mut scroll = 99;
    let p = picture(text, (5, 0), None, area(10, 4), &mut scroll);
    assert_eq!(scroll, 3);
    assert_eq!(p.cursor, Some(at(0, 2)));
    let p = picture(text, (0, 0), None, area(10, 4), &mut scroll);
    assert_eq!(scroll, 0);
    assert_eq!(p.cursor, Some(at(0, 0)));
    picture(text, (4, 0), None, area(10, 4), &mut scroll);
    assert_eq!(scroll, 2);
    picture(text, (3, 0), None, area(10, 4), &mut scroll);
    assert_eq!(scroll, 2);
}

#[test]
fn the_cursor_stands_at_its_display_column() {
    let mut scroll = 0;
    let size = Rect { x: 3, y: 2, width: 10, height: 4 };
    let p = picture("日本é", (0, 2), None, size, &mut scroll);
    assert_eq!(p.cursor, Some(at(7, 2)));
    let p = picture("abcdefghij", (0, 10), None, size, &mut scroll);
    assert_eq!(p.cursor, Some(at(12, 2)));
}

#[test]
fn a_click_on_the_drawn_cursor_finds_it_again() {
    let text = "ab日cd本efgh\n\nxyz";
    let l = lines(text);
    let size = area(5, 4);
    for (row, line) in l.iter().enumerate() {
        for col in 0..=line.chars().count() {
            let mut scroll = 0;
            let p = picture(text, (row, col), None, size, &mut scroll);
            let pos = p.cursor.unwrap();
            // At the right edge of a full row the cursor shares the last column.
            if pos.x + 1 < size.width {
                let found = position_to_cursor(&l, p.geometry.body, scroll, pos);
                assert_eq!(found, Some((row, col)));
            }
        }
    }
}

#[test]
fn every_character_is_shown_exactly_once() {
    let l = lines("日本語abcdé\n\nxyzw日");
    for width in 0..8 {
        let rows = wrap(&l, width);
        let mut shown = Vec::new();
        for v in &rows {
            for col in v.start..v.end {
                shown.push((v.row, col));
            }
        }
        let all: Vec<(usize, usize)> = l
            .iter()
            .enumerate()
            .flat_map(|(r, s)| (0..s.chars().count()).map(move |c| (r, c)))
            .collect();
        assert_eq!(shown, all);
    }
}

#[test]
fn wrapping_goes_by_the_widths_it_is_given() {
    let rows = wrap_measured(&[vec![1, 5, 0, 2, 2], vec![]], 3);
    assert_eq!(
        rows,
        vec![
            VisualRow { row: 0, start: 0, end: 1 },
            VisualRow { row: 0, start: 1, end: 2 },
            VisualRow { row: 0, start: 2, end: 4 },
            VisualRow { row: 0, start: 4, end: 5 },
            VisualRow { row: 1, start: 0, end: 0 },
        ]
    );
    let rows = wrap_measured(&[vec![usize::MAX, usize::MAX]], usize::MAX);
    assert_eq!(rows.len(), 2);
}

#[test]
fn a_click_goes_by_the_widths_it_is_given() {
    assert_eq!(position_measured(&[vec![3, 3]], body(), 0, at(2, 0)), Some((0, 0)));
    assert_eq!(position_measured(&[vec![3, 3]], body(), 0, at(3, 0)), Some((0, 1)));
    assert_eq!(position_measured(&[vec![3, 3]], body(), usize::MAX, at(9, 2)), Some((0, 2)));
    assert_eq!(position_measured(&[], body(), 0, at(0, 0)), None);
}

#[test]
fn a_text_is_laid_out_by_the_widths_it_is_given() {
    let l = lines("abc");
    let content = Content { lines: &l, cursor: (0, 2), selection: None };
    let mut scroll = 0;
    let sheet = lay_text(area(4, 2), &content, &[vec![2, 2, 2]], &mut scroll);
    let rows: Vec<String> = sheet.rows.iter().map(plain).collect();
    assert_eq!(rows, vec!["ab", "c"]);
    assert_eq!(sheet.cursor, Some(at(0, 1)));
    assert_eq!(sheet.total_rows, 2);
}

#[test]
fn a_bar_is_laid_out_by_the_widths_it_is_given() {
    let entries = vec![
        (Action::CycleTarget, "a".to_owned()),
        (Action::Command(Command::Copy), "b".to_owned()),
        (Action::Command(Command::Clear), "c".to_owned()),
    ];
    let items = layout_measured(Rect { x: 2, y: 1, width: 10, height: 1 }, entries, &[4, 5, 1]);
    let rects: Vec<Rect> = items.iter().map(|i| i.rect).collect();
    assert_eq!(
        rects,
        vec![Rect { x: 2, y: 1, width: 4, height: 1 }, Rect { x: 7, y: 1, width: 5, height: 1 }]
    );
    assert_eq!(items[1].label, "b");
}

#[test]
fn a_cursor_on_a_missing_line_falls_back_to_the_first_row() {
    let rows = wrap(&lines("ab\ncd"), 10);
    assert_eq!(cursor_visual_row(&rows, (7, 0)), 0);
    assert_eq!(cursor_visual_row(&rows, (1, 9)), 1);
    assert_eq!(cursor_visual_row(&[], (0, 0)), 0);
}

#[test]
fn a_rectangle_holds_its_edges_but_not_the_last() {
    let r = Rect { x: 2, y: 3, width: 4, height: 1 };
    assert!(r.contains(at(2, 3)) && r.contains(at(5, 3)));
    assert!(!r.contains(at(6, 3)) && !r.contains(at(1, 3)) && !r.contains(at(2, 4)));
    let edge = Rect { x: u16::MAX - 1, y: 0, width: 9, height: 1 };
    assert!(edge.contains(at(u16::MAX - 1, 0)));
    assert!(!edge.contains(at(u16::MAX, 0)));
    assert_eq!(Rect::default(), area(0, 0));
}

#[test]
fn columns_of_ordinary_and_unusual_characters() {
    assert_eq!(columns("abc ~"), 5);
    assert_eq!(columns("日本"), 4);
    assert_eq!(columns("e\u{301}"), 1);
    assert_eq!(columns("\t\u{7f}\u{85}"), 0);
    assert_eq!(columns("\u{17d8}"), 3);
    assert_eq!(measure("a日\u{301}\n"), vec![1, 2, 0, 0]);
    assert_eq!(sum(&[1, 2, 3]), 6);
    assert_eq!(fitting(&[1, 2, 3], 5), 2);
    assert_eq!(fitting(&[usize::MAX, 1], usize::MAX), 1);
    assert_eq!(measure_lines(&lines("a\n日")), vec![vec![1], vec![2]]);
}

/// No character takes more columns than bytes, nor more than three.
#[test]
fn no_character_is_wider_than_its_bytes() {
    for c in '\0'..=char::MAX {
        let n = columns(&c.to_string());
        assert!(n <= 3 && n <= c.len_utf8());
        if (' '..='~').contains(&c) {
            assert_eq!(n, 1);
        }
        if c < ' ' || ('\u{7f}'..'\u{a0}').contains(&c) {
            assert_eq!(n, 0);
        }
    }
}
