use cce_fonts::pages::browse::BrowseNavigation;
use cce_fonts::pages::FontEntry;
use cce_fonts::text::{chars_of, decimal_string, is_whitespace_char};
use cce_fonts::viewer::{
    dispatch_order, enlarge_font_size, font_argument, pointer_request, select_mode_requested,
    shrink_font_size, style_look, window_config, Control, KeyAction, KeyKind, PointerRequest,
    RowClick, Shortcut, StyleLook, ViewerMessage, ViewerState,
};

fn entry(family: &str, style: &str, file: &str) -> FontEntry {
    FontEntry { family: family.into(), style: style.into(), file: file.into() }
}

fn fonts() -> Vec<FontEntry> {
    vec![
        entry("Arial", "Bold", "/usr/share/fonts/arial-bold.ttf"),
        entry("Arial", "Regular", "/usr/share/fonts/arial.ttf"),
        entry("Courier", "Italic", "/home/me/.fonts/courier-i.ttf"),
        entry("Arial Black", "Regular", "/usr/share/fonts/ab.ttf"),
    ]
}

#[test]
fn viewer_starts_on_first_family() {
    let (state, query) = ViewerState::new(false, fonts(), None);
    assert_eq!(state.families, vec!["Arial", "Arial Black", "Courier"]);
    assert_eq!(state.filtered, state.families);
    assert_eq!(state.selected_idx, Some(0));
    assert_eq!(state.selected_family.as_deref(), Some("Arial"));
    assert_eq!(state.family_styles, vec!["Bold", "Regular"]);
    assert_eq!(state.style_index, 1);
    assert_eq!(state.selected_style.as_deref(), Some("Regular"));
    assert_eq!(state.selected_file.as_deref(), Some("/usr/share/fonts/arial.ttf"));
    assert_eq!(query.as_deref(), Some("/usr/share/fonts/arial.ttf"));
    assert!(!state.is_user_font);
}

#[test]
fn viewer_starts_on_preselected_family_in_any_case() {
    let (state, query) = ViewerState::new(true, fonts(), Some("COURIER"));
    assert!(state.select_mode);
    assert_eq!(state.selected_idx, Some(2));
    assert_eq!(state.selected_style.as_deref(), Some("Italic"));
    assert_eq!(query.as_deref(), Some("/home/me/.fonts/courier-i.ttf"));
    assert!(state.is_user_font);
    let (state, _) = ViewerState::new(true, fonts(), Some("Nope"));
    assert_eq!(state.selected_idx, Some(0));
}

#[test]
fn viewer_without_fonts_selects_nothing() {
    let (state, query) = ViewerState::new(false, Vec::new(), None);
    assert_eq!(state.selected_idx, None);
    assert_eq!(state.charset_str, "0");
    assert!(query.is_none());
}

#[test]
fn viewer_search_selects_first_match() {
    let (mut state, _) = ViewerState::new(false, fonts(), None);
    let cmd = state.update(ViewerMessage::SearchChanged("COUR".into()));
    assert_eq!(state.filtered, vec!["Courier"]);
    assert_eq!(state.selected_idx, Some(0));
    assert_eq!(state.selected_family.as_deref(), Some("Courier"));
    assert_eq!(cmd.query_charset.as_deref(), Some("/home/me/.fonts/courier-i.ttf"));
    assert!(cmd.rebuild);
    let cmd = state.update(ViewerMessage::SearchChanged("zzz".into()));
    assert!(state.filtered.is_empty());
    assert_eq!(state.selected_idx, None);
    assert_eq!(state.selected_family, None);
    assert_eq!(state.charset_str, "0");
    assert!(cmd.query_charset.is_none());
}

#[test]
fn viewer_select_family_and_style() {
    let (mut state, _) = ViewerState::new(false, fonts(), None);
    let cmd = state.update(ViewerMessage::SelectFamily(1));
    assert_eq!(cmd.scroll_to, Some(1));
    assert_eq!(state.selected_family.as_deref(), Some("Arial Black"));
    let cmd = state.update(ViewerMessage::SelectFamily(7));
    assert!(!cmd.rebuild);
    assert_eq!(state.selected_idx, Some(1));
    state.update(ViewerMessage::SelectFamily(0));
    let cmd = state.update(ViewerMessage::SelectStyle(0));
    assert_eq!(state.selected_style.as_deref(), Some("Bold"));
    assert_eq!(cmd.query_charset.as_deref(), Some("/usr/share/fonts/arial-bold.ttf"));
    assert_eq!(state.style_index, 0);
    assert!(state.charset_loaded(Some("20-7e")));
    assert_eq!(state.charset_count, 95);
    assert_eq!(state.charset_str, "95");
    assert!(!state.charset_loaded(Some("7e-20")));
    assert_eq!(state.charset_count, 95);
}

#[test]
fn viewer_remove_and_open_folder() {
    let (mut state, _) = ViewerState::new(false, fonts(), None);
    let cmd = state.update(ViewerMessage::RemoveFont);
    assert!(cmd.trash.is_none() && !cmd.reload);
    let cmd = state.update(ViewerMessage::OpenFolder);
    assert_eq!(cmd.open_folder.as_deref(), Some("/usr/share/fonts/arial.ttf"));
    state.update(ViewerMessage::SelectFamily(2));
    let cmd = state.update(ViewerMessage::RemoveFont);
    assert_eq!(cmd.trash.as_deref(), Some("/home/me/.fonts/courier-i.ttf"));
    assert!(cmd.reload);
    assert!(state.update(ViewerMessage::Exit).exit);
    assert!(state.update(ViewerMessage::RefreshFonts).reload);
}

#[test]
fn viewer_reload_keeps_or_drops_selection() {
    let (mut state, _) = ViewerState::new(false, fonts(), None);
    state.update(ViewerMessage::SelectFamily(2));
    let q = state.fonts_reloaded(vec![entry("Zeta", "Regular", "/z.ttf")], "");
    assert_eq!(state.selected_idx, None);
    assert_eq!(state.selected_family, None);
    assert!(q.is_none());
    state.update(ViewerMessage::SelectFamily(0));
    let q = state.fonts_reloaded(vec![entry("Alpha", "Book", "/a.ttf"), entry("Zeta", "Regular", "/z.ttf")], "");
    assert_eq!(state.selected_idx, Some(0));
    assert_eq!(state.selected_family.as_deref(), Some("Alpha"));
    assert_eq!(q.as_deref(), Some("/a.ttf"));
}

#[test]
fn viewer_keys() {
    let (state, _) = ViewerState::new(false, fonts(), None);
    assert!(matches!(
        state.key_action(Some(Shortcut::Refresh), KeyKind::Other, true, false),
        KeyAction::Send(ViewerMessage::RefreshFonts)
    ));
    assert!(matches!(state.key_action(Some(Shortcut::Refresh), KeyKind::Other, false, false), KeyAction::PassOn));
    assert!(matches!(state.key_action(None, KeyKind::Plus, true, false), KeyAction::EnlargeFont));
    assert!(matches!(state.key_action(None, KeyKind::Minus, true, false), KeyAction::ShrinkFont));
    assert!(matches!(
        state.key_action(None, KeyKind::ArrowDown, true, false),
        KeyAction::Send(ViewerMessage::SelectFamily(1))
    ));
    assert!(matches!(
        state.key_action(None, KeyKind::ArrowUp, true, false),
        KeyAction::Send(ViewerMessage::SelectFamily(0))
    ));
    assert!(matches!(state.key_action(None, KeyKind::ArrowUp, true, true), KeyAction::PassOn));
    assert_eq!(state.family_step(BrowseNavigation::Down), Some(1));
    let (empty, _) = ViewerState::new(false, Vec::new(), None);
    assert!(matches!(empty.key_action(None, KeyKind::Plus, true, false), KeyAction::PassOn));
    assert!(matches!(empty.key_action(None, KeyKind::ArrowDown, true, false), KeyAction::PassOn));
}

#[test]
fn viewer_double_click_confirms_in_select_mode() {
    let (mut state, _) = ViewerState::new(true, fonts(), None);
    assert!(matches!(state.row_clicked(1, true), RowClick::Select(1)));
    match state.row_clicked(1, true) {
        RowClick::Confirm(f) => assert_eq!(f, "Arial Black"),
        other => panic!("unexpected {:?}", other),
    }
    assert!(matches!(state.row_clicked(1, false), RowClick::Select(1)));
    let (mut plain, _) = ViewerState::new(false, fonts(), None);
    plain.row_clicked(0, true);
    assert!(matches!(plain.row_clicked(0, true), RowClick::Select(0)));
    assert_eq!(plain.confirmed_family(), "Arial");
}

#[test]
fn font_size_steps() {
    assert_eq!(enlarge_font_size(32, 120), 34);
    assert_eq!(enlarge_font_size(119, 120), 120);
    assert_eq!(shrink_font_size(32, 8), 30);
    assert_eq!(shrink_font_size(9, 8), 8);
}

#[test]
fn style_looks() {
    assert_eq!(style_look(None), StyleLook { italic: false, weight: None });
    assert_eq!(style_look(Some("Bold Italic")), StyleLook { italic: true, weight: Some(700) });
    assert_eq!(style_look(Some("LIGHT OBLIQUE")), StyleLook { italic: true, weight: Some(300) });
    assert_eq!(style_look(Some("Medium")), StyleLook { italic: false, weight: Some(500) });
    assert_eq!(style_look(Some("Regular")), StyleLook { italic: false, weight: None });
}

#[test]
fn window_configs() {
    let w = window_config(true);
    assert_eq!((w.title.as_str(), w.app_id.as_str(), w.width, w.height), ("Select Font", "cce-fonts-select", 900, 500));
    assert_eq!((w.min_width, w.min_height), (800, 400));
    let w = window_config(false);
    assert_eq!((w.title.as_str(), w.app_id.as_str(), w.width, w.height), ("CCE Fonts", "cce-fonts", 1200, 720));
    assert_eq!((w.min_width, w.min_height), (800, 500));
}

#[test]
fn arguments() {
    let args: Vec<String> = vec!["/usr/bin/cce-fonts".into(), "--select".into(), "Fira Code 12".into()];
    assert!(select_mode_requested(&args));
    assert_eq!(font_argument(&args).as_deref(), Some("Fira Code 12"));
    let args: Vec<String> = vec!["/usr/bin/cce-fonts".into()];
    assert!(!select_mode_requested(&args));
    assert_eq!(font_argument(&args), None);
}

#[test]
fn event_order() {
    let v = dispatch_order(&[true, false, true], true, false, true);
    assert_eq!(
        v,
        vec![
            Control::SearchBox,
            Control::FamilyRow(0),
            Control::FamilyRow(2),
            Control::OpenFolderButton,
            Control::RemoveFontButton,
            Control::StyleList,
            Control::SizeBox,
            Control::PreviewText,
        ]
    );
    let v = dispatch_order(&[true], false, true, false);
    assert_eq!(
        v,
        vec![Control::SelectButton, Control::CancelButton, Control::FamilyRow(0), Control::SearchBox]
    );
}

#[test]
fn text_helpers() {
    assert_eq!(decimal_string(0), "0");
    assert_eq!(decimal_string(1234567), "1234567");
    assert_eq!(chars_of("añb"), vec!['a', 'ñ', 'b']);
    assert!(is_whitespace_char('\u{3000}'));
    assert!(!is_whitespace_char('x'));
}

#[test]
fn selecting_a_style_keeps_the_charset_text_until_it_is_counted() {
    let (mut state, _) = ViewerState::new(false, fonts(), None);
    assert!(state.charset_loaded(Some("41-5a")));
    assert_eq!(state.charset_str, "26");
    state.update(ViewerMessage::SelectStyle(1));
    assert_eq!(state.charset_str, "26");
    assert_eq!(state.charset_count, 26);
}

#[test]
fn pointer_requests_take_the_strongest_press() {
    assert_eq!(pointer_request(Some(1), Some(2), true, true, true), Some(PointerRequest::RemoveFont));
    assert_eq!(pointer_request(Some(1), Some(2), true, true, false), Some(PointerRequest::OpenFolder));
    assert_eq!(pointer_request(Some(1), Some(2), true, false, false), Some(PointerRequest::FontSizeChanged));
    assert_eq!(pointer_request(Some(1), Some(2), false, false, false), Some(PointerRequest::SelectFamily(2)));
    assert_eq!(pointer_request(Some(1), None, false, false, false), Some(PointerRequest::SelectStyle(1)));
    assert_eq!(pointer_request(None, None, false, false, false), None);
}

#[test]
fn decimal_text_of_large_numbers() {
    assert_eq!(decimal_string(0), "0");
    assert_eq!(decimal_string(1234567890), "1234567890");
}

#[test]
fn a_click_past_the_rows_only_selects() {
    let (mut state, _) = ViewerState::new(true, fonts(), None);
    match state.row_clicked(9, false) {
        RowClick::Select(i) => assert_eq!(i, 9),
        RowClick::Confirm(_) => panic!("a single click does not confirm"),
    }
    assert_eq!(state.last_click_idx, Some(9));
    assert_eq!(state.selected_idx, Some(0));
}
