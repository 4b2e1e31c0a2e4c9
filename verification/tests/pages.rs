use cce_fonts::pages::details::{self, charset_loaded, DetailsCommand, DetailsMessage, DetailsState};
use cce_fonts::pages::keybindings::KeybindingsState;
use cce_fonts::pages::preview::{self, PreviewMessage, PreviewState};
use cce_fonts::pages::FontEntry;

fn entry(family: &str, style: &str, file: &str) -> FontEntry {
    FontEntry { family: family.into(), style: style.into(), file: file.into() }
}

#[test]
fn details_take_a_new_font() {
    let mut state = DetailsState::default();
    let cmd = details::update(
        &mut state,
        DetailsMessage::SetFont {
            family: "Fira Code".into(),
            style: "Light".into(),
            file: "/home/me/.fonts/FiraCode-Light.ttf".into(),
        },
    );
    assert_eq!(state.family, "Fira Code");
    assert_eq!(state.style, "Light");
    assert_eq!(state.full_name, "Fira Code Light");
    assert!(state.is_user_font);
    match cmd {
        DetailsCommand::QueryCharset(f) => assert_eq!(f, "/home/me/.fonts/FiraCode-Light.ttf"),
        other => panic!("unexpected {:?}", other),
    }
    assert!(charset_loaded(&mut state, Some("32-126 160")));
    assert_eq!(state.charset_count, 96);
    assert_eq!(state.charset_str, "96");
}

#[test]
fn details_charset_without_listing_is_zero() {
    let mut state = DetailsState::default();
    state.charset_count = 5;
    assert!(charset_loaded(&mut state, None));
    assert_eq!(state.charset_count, 0);
    assert_eq!(state.charset_str, "0");
}

#[test]
fn details_charset_that_cannot_be_counted_changes_nothing() {
    let mut state = DetailsState::default();
    state.charset_count = 7;
    state.charset_str = "7".into();
    assert!(!charset_loaded(&mut state, Some("9-3")));
    assert_eq!(state.charset_count, 7);
    assert_eq!(state.charset_str, "7");
}

#[test]
fn details_remove_only_user_fonts() {
    let mut state = DetailsState::default();
    assert!(matches!(details::update(&mut state, DetailsMessage::RemoveFont), DetailsCommand::Nothing));
    assert!(matches!(details::update(&mut state, DetailsMessage::OpenFolder), DetailsCommand::Nothing));
    details::update(
        &mut state,
        DetailsMessage::SetFont { family: "A".into(), style: "B".into(), file: "/usr/share/fonts/a.ttf".into() },
    );
    assert!(matches!(details::update(&mut state, DetailsMessage::RemoveFont), DetailsCommand::Nothing));
    match details::update(&mut state, DetailsMessage::OpenFolder) {
        DetailsCommand::OpenFolder(f) => assert_eq!(f, "/usr/share/fonts/a.ttf"),
        other => panic!("unexpected {:?}", other),
    }
    details::update(
        &mut state,
        DetailsMessage::SetFont { family: "A".into(), style: "B".into(), file: "/home/x/a.ttf".into() },
    );
    match details::update(&mut state, DetailsMessage::RemoveFont) {
        DetailsCommand::TrashFont(f) => assert_eq!(f, "/home/x/a.ttf"),
        other => panic!("unexpected {:?}", other),
    }
}

#[test]
fn preview_starts_with_pangram() {
    let state = PreviewState::new();
    assert_eq!(state.preview_text, "The quick brown fox jumps over the lazy dog");
    assert!(state.family.is_empty());
    assert!(state.styles.is_empty());
}

#[test]
fn preview_family_opens_on_regular() {
    let fonts = vec![
        entry("Sans", "Bold", "/b.ttf"),
        entry("Serif", "Regular", "/s.ttf"),
        entry("Sans", "Regular", "/r.ttf"),
        entry("Sans", "Regular", "/r2.ttf"),
    ];
    let mut state = PreviewState::new();
    preview::update(&mut state, PreviewMessage::SetFamily { family: "Sans".into() }, &fonts);
    assert_eq!(state.family, "Sans");
    assert_eq!(state.styles, vec!["Bold", "Regular", "Regular"]);
    assert_eq!(state.family_entries.len(), 3);
    assert_eq!(state.style, "Regular");
    assert_eq!(state.file, "/r.ttf");
    preview::update(&mut state, PreviewMessage::StyleSelected("Bold".into()), &fonts);
    assert_eq!(state.style, "Bold");
    assert_eq!(state.file, "/b.ttf");
    preview::update(&mut state, PreviewMessage::StyleSelected("Oblique".into()), &fonts);
    assert_eq!(state.style, "Oblique");
    assert_eq!(state.file, "");
    preview::update(&mut state, PreviewMessage::PreviewTextChanged("Hi".into()), &fonts);
    assert_eq!(state.preview_text, "Hi");
    assert_eq!(state.family, "Sans");
}

#[test]
fn preview_family_without_regular_opens_on_first_style() {
    let fonts = vec![entry("Mono", "Bold", "/mb.ttf"), entry("Mono", "Italic", "/mi.ttf")];
    let mut state = PreviewState::new();
    preview::update(&mut state, PreviewMessage::SetFamily { family: "Mono".into() }, &fonts);
    assert_eq!(state.style, "Bold");
    assert_eq!(state.file, "/mb.ttf");
    preview::update(&mut state, PreviewMessage::SetFamily { family: "Gone".into() }, &fonts);
    assert_eq!(state.style, "");
    assert_eq!(state.file, "");
    assert!(state.family_entries.is_empty());
}

#[test]
fn keybindings_state_is_empty() {
    let _state = KeybindingsState::default();
}
