use watchxy::components::tab_picker::{
    popup_area, title_segments, PickerAction, PickerArea, PickerEffect,
    PickerKey, PickerKeyCode, PickerKeyKind, TabPicker, TitleSegment, KEY_MODIFIER_CONTROL, KEY_MODIFIER_SHIFT,
};
use watchxy::store::RuntimeConfig;

fn sample_picker() -> TabPicker {
    TabPicker::new(RuntimeConfig {
        interval: 2000,
        command: "git status".to_string(),
        commands: vec![
            vec!["git".into(), "status".into()],
            vec!["df".into(), "-h".into()],
            vec!["uptime".into()],
        ],
        active_command_index: 1,
    })
}

fn key(c: char) -> PickerAction {
    PickerAction::KeyEventForTabPicker(PickerKey { code: PickerKeyCode::Char(c), modifiers: 0, kind: PickerKeyKind::Press })
}

fn seg(text: &str, highlighted: bool) -> TitleSegment {
    TitleSegment { text: text.to_string(), highlighted }
}

#[test]
fn entering_opens_an_empty_picker() {
    let mut picker = sample_picker();
    assert!(!picker.is_active());
    let effects = picker.update(PickerAction::EnterTabPickerMode);
    assert_eq!(effects, vec![PickerEffect::SetTabPickerQuery(String::new())]);
    assert!(picker.is_active());
    assert_eq!(picker.query(), "");
    assert_eq!(picker.filtered_indices(), vec![0, 1, 2]);
}

#[test]
fn typing_filters_and_confirm_activates_the_selected_command() {
    let mut picker = sample_picker();
    picker.update(PickerAction::EnterTabPickerMode);
    assert_eq!(picker.update(key('u')), vec![PickerEffect::SetTabPickerQuery("u".to_string())]);
    assert_eq!(
        picker.update(PickerAction::KeyEventForTabPicker(PickerKey {
            code: PickerKeyCode::Char('P'),
            modifiers: KEY_MODIFIER_SHIFT,
            kind: PickerKeyKind::Press,
        })),
        vec![PickerEffect::SetTabPickerQuery("uP".to_string())]
    );
    assert_eq!(picker.filtered_indices(), vec![2]);
    assert_eq!(picker.filtered_selection_index(), Some(2));
    assert_eq!(
        picker.update(PickerAction::ConfirmTabPicker),
        vec![PickerEffect::ActivateCommandIndex(2), PickerEffect::ExitTabPickerMode]
    );
}

#[test]
fn movement_keys_wrap_around() {
    let mut picker = sample_picker();
    picker.update(PickerAction::EnterTabPickerMode);
    assert!(picker.update(key('k')).is_empty());
    assert_eq!(picker.selection(), 2);
    assert!(picker.update(key('j')).is_empty());
    assert_eq!(picker.selection(), 0);
    picker.update(PickerAction::TabPickerMoveDown);
    picker.update(PickerAction::KeyEventForTabPicker(PickerKey {
        code: PickerKeyCode::Down,
        modifiers: 0,
        kind: PickerKeyKind::Press,
    }));
    assert_eq!(picker.selection(), 2);
    picker.update(PickerAction::TabPickerMoveUp);
    assert_eq!(picker.selection(), 1);
    // `k` and `j` move; they are not typed into the query.
    assert_eq!(picker.query(), "");
}

#[test]
fn backspace_and_control_u_edit_the_query() {
    let mut picker = sample_picker();
    picker.update(PickerAction::EnterTabPickerMode);
    picker.update(key('d'));
    picker.update(key('f'));
    picker.update(PickerAction::TabPickerMoveDown);
    assert_eq!(picker.query(), "df");
    let effects = picker.update(PickerAction::KeyEventForTabPicker(PickerKey {
        code: PickerKeyCode::Backspace,
        modifiers: 0,
        kind: PickerKeyKind::Press,
    }));
    assert_eq!(effects, vec![PickerEffect::SetTabPickerQuery("d".to_string())]);
    assert_eq!(picker.selection(), 0);
    let effects = picker.update(PickerAction::KeyEventForTabPicker(PickerKey {
        code: PickerKeyCode::Char('u'),
        modifiers: KEY_MODIFIER_CONTROL,
        kind: PickerKeyKind::Press,
    }));
    assert_eq!(effects, vec![PickerEffect::SetTabPickerQuery(String::new())]);
    assert_eq!(picker.query(), "");
}

#[test]
fn confirm_with_no_match_does_nothing_and_exit_clears() {
    let mut picker = sample_picker();
    picker.update(PickerAction::EnterTabPickerMode);
    picker.update(key('z'));
    assert!(picker.filtered_indices().is_empty());
    assert_eq!(picker.filtered_selection_index(), None);
    assert!(picker.update(PickerAction::ConfirmTabPicker).is_empty());
    assert!(picker.update(PickerAction::Other).is_empty());
    let effects = picker.update(PickerAction::ExitTabPickerMode);
    assert_eq!(effects, vec![PickerEffect::SetTabPickerQuery(String::new())]);
    assert!(!picker.is_active());
}

#[test]
fn rows_mark_active_and_selected_commands() {
    let mut picker = sample_picker();
    picker.update(PickerAction::EnterTabPickerMode);
    picker.update(key('t'));
    let rows = picker.rows().unwrap();
    assert_eq!(rows.len(), 2);
    assert_eq!(rows[0].command_index, 0);
    assert!(rows[0].is_selected);
    assert!(!rows[0].is_active_command);
    assert_eq!(
        rows[0].segments,
        vec![
            seg("gi", false),
            seg("t", true),
            seg(" s", false),
            seg("t", true),
            seg("a", false),
            seg("t", true),
            seg("us", false),
        ]
    );
    assert_eq!(rows[1].command_index, 2);
    assert!(!rows[1].is_selected);
    picker.update(PickerAction::SetActiveCommandIndex(2));
    assert!(picker.rows().unwrap()[1].is_active_command);
}

#[test]
fn title_segments_highlight_case_insensitive_matches() {
    assert_eq!(title_segments("Git Status", ""), Some(vec![seg("Git Status", false)]));
    assert_eq!(
        title_segments("Git Status", " st "),
        Some(vec![seg("Git ", false), seg("St", true), seg("atus", false)])
    );
    assert_eq!(title_segments("aaa", "aa"), Some(vec![seg("aa", true), seg("a", false)]));
    assert_eq!(title_segments("abc", "x"), Some(vec![seg("abc", false)]));
    assert_eq!(title_segments("", "x"), Some(vec![seg("", false)]));
}

#[test]
fn title_segments_cut_at_the_byte_offsets_of_the_lowercased_title() {
    // U+0130 lower-cases to three bytes: the cut runs past the end of the title.
    assert_eq!(title_segments("\u{130}x", "x"), None);
    // The Kelvin sign lower-cases to a one-byte 'k': the cut falls inside it.
    assert_eq!(title_segments("\u{212a}", "k"), None);
    // Same widths: the cut falls where the match is.
    assert_eq!(
        title_segments("ÉCOLE", "co"),
        Some(vec![seg("É", false), seg("CO", true), seg("LE", false)])
    );
    // U+023A lower-cases to three bytes, as long as the query: the highlight
    // takes the whole title.
    assert_eq!(title_segments("\u{23a}B", "\u{2c65}"), Some(vec![seg("\u{23a}B", true)]));
}

#[test]
fn popup_is_centred_near_the_bottom() {
    let area = PickerArea { x: 0, y: 0, width: 80, height: 24 };
    assert_eq!(popup_area(area, 3), PickerArea { x: 2, y: 17, width: 76, height: 5 });
    assert_eq!(popup_area(area, 0), PickerArea { x: 2, y: 19, width: 76, height: 3 });
    assert_eq!(popup_area(area, 100), PickerArea { x: 2, y: 12, width: 76, height: 10 });
    let small = PickerArea { x: 5, y: 3, width: 10, height: 4 };
    assert_eq!(popup_area(small, 5), PickerArea { x: 5, y: 3, width: 20, height: 2 });
}

#[test]
fn title_segments_read_back_as_the_title() {
    for (title, query) in [("git status", "t"), ("Uptime", "UP"), ("aaaa", "a"), ("x", "")] {
        let text: String = title_segments(title, query).unwrap().into_iter().map(|s| s.text).collect();
        assert_eq!(text, title);
    }
}

#[test]
fn moving_down_then_up_returns_to_the_same_row() {
    let mut picker = sample_picker();
    picker.update(PickerAction::EnterTabPickerMode);
    for start in 0..3 {
        while picker.selection() != start {
            picker.update(PickerAction::TabPickerMoveDown);
        }
        picker.update(PickerAction::TabPickerMoveDown);
        picker.update(PickerAction::TabPickerMoveUp);
        assert_eq!(picker.selection(), start);
    }
}

#[test]
fn key_releases_do_not_edit_the_query_but_still_move() {
    let mut picker = sample_picker();
    picker.update(PickerAction::EnterTabPickerMode);
    picker.update(key('u'));
    let effects = picker.update(PickerAction::KeyEventForTabPicker(PickerKey {
        code: PickerKeyCode::Char('p'),
        modifiers: 0,
        kind: PickerKeyKind::Release,
    }));
    assert_eq!(effects, vec![PickerEffect::SetTabPickerQuery("u".to_string())]);
    assert_eq!(picker.query(), "u");
    picker.update(PickerAction::KeyEventForTabPicker(PickerKey {
        code: PickerKeyCode::Down,
        modifiers: 0,
        kind: PickerKeyKind::Release,
    }));
    assert_eq!(picker.selection(), 1);
    let effects = picker.update(PickerAction::KeyEventForTabPicker(PickerKey {
        code: PickerKeyCode::Char('x'),
        modifiers: 0,
        kind: PickerKeyKind::Repeat,
    }));
    assert_eq!(effects, vec![PickerEffect::SetTabPickerQuery("ux".to_string())]);
}

#[test]
fn ascii_titles_always_split_and_plain_characters_append() {
    let mut picker = sample_picker();
    picker.update(PickerAction::EnterTabPickerMode);
    for c in ['S', 'T', ' ', '-'] {
        let before = picker.query().to_string();
        picker.update(PickerAction::KeyEventForTabPicker(PickerKey {
            code: PickerKeyCode::Char(c),
            modifiers: KEY_MODIFIER_SHIFT,
            kind: PickerKeyKind::Repeat,
        }));
        assert_eq!(picker.query(), format!("{before}{c}"));
        assert!(picker.rows().is_some());
    }
    assert_eq!(title_segments("UPTIME", "pt"), Some(vec![seg("U", false), seg("PT", true), seg("IME", false)]));
}
