use cce_fonts::pages::browse::{
    entries_for_family, extract_families, filter_families, next_selection_index, update,
    BrowseCommand, BrowseMessage, BrowseNavigation, BrowseState, FontEntry,
};

fn state_with_count(count: usize) -> BrowseState {
    BrowseState {
        filtered: (0..count).map(|i| format!("Family {i}")).collect(),
        ..BrowseState::default()
    }
}

fn entry(family: &str, style: &str, file: &str) -> FontEntry {
    FontEntry { family: family.into(), style: style.into(), file: file.into() }
}

#[test]
fn down_from_none_selects_first_entry() {
    let state = state_with_count(3);
    assert_eq!(next_selection_index(&state, BrowseNavigation::Down), Some(0));
}

#[test]
fn up_from_none_selects_last_entry() {
    let state = state_with_count(3);
    assert_eq!(next_selection_index(&state, BrowseNavigation::Up), Some(2));
}

#[test]
fn navigation_stays_in_bounds() {
    let mut state = state_with_count(3);

    state.selected = Some(0);
    assert_eq!(next_selection_index(&state, BrowseNavigation::Up), Some(0));

    state.selected = Some(2);
    assert_eq!(next_selection_index(&state, BrowseNavigation::Down), Some(2));
}

#[test]
fn extract_families_deduplicates() {
    let fonts = vec![
        FontEntry { family: "Arial".into(), style: "Regular".into(), file: "/a.ttf".into() },
        FontEntry { family: "Arial".into(), style: "Bold".into(), file: "/ab.ttf".into() },
        FontEntry { family: "Courier".into(), style: "Regular".into(), file: "/c.ttf".into() },
    ];
    let families = extract_families(&fonts);
    assert_eq!(families, vec!["Arial", "Courier"]);
}

#[test]
fn filter_families_matches_substring() {
    let families = vec!["Arial".into(), "Courier".into(), "Arial Black".into()];
    let filtered = filter_families(&families, "arial");
    assert_eq!(filtered, vec!["Arial", "Arial Black"]);
}

#[test]
fn navigation_moves_one_row() {
    let mut state = state_with_count(5);
    state.selected = Some(2);
    assert_eq!(next_selection_index(&state, BrowseNavigation::Up), Some(1));
    assert_eq!(next_selection_index(&state, BrowseNavigation::Down), Some(3));
}

#[test]
fn navigation_in_empty_list_goes_nowhere() {
    let mut state = state_with_count(0);
    assert_eq!(next_selection_index(&state, BrowseNavigation::Down), None);
    state.selected = Some(4);
    assert_eq!(next_selection_index(&state, BrowseNavigation::Up), None);
}

#[test]
fn extract_families_sorts_by_code_point() {
    let fonts = vec![
        entry("b", "Regular", "/1"),
        entry("Zed", "Regular", "/2"),
        entry("a", "Regular", "/3"),
        entry("Zed", "Bold", "/4"),
        entry("Ä", "Regular", "/5"),
        entry("", "Regular", "/6"),
    ];
    let families = extract_families(&fonts);
    assert_eq!(families, vec!["", "Zed", "a", "b", "Ä"]);
}

#[test]
fn extract_families_of_nothing_is_empty() {
    let families = extract_families(&[]);
    assert!(families.is_empty());
}

#[test]
fn empty_search_shows_every_family() {
    let families: Vec<String> = vec!["B".into(), "a".into(), "B".into()];
    assert_eq!(filter_families(&families, ""), vec!["B", "a", "B"]);
}

#[test]
fn search_ignores_case_of_query_and_name() {
    let families: Vec<String> = vec!["DejaVu Sans".into(), "Noto Serif".into(), "SANSATION".into()];
    assert_eq!(filter_families(&families, "SaNs"), vec!["DejaVu Sans", "SANSATION"]);
    assert_eq!(filter_families(&families, "mono"), Vec::<String>::new());
}

#[test]
fn search_twice_changes_nothing() {
    let families: Vec<String> = vec!["Arial".into(), "Courier".into(), "Arial Black".into()];
    let once = filter_families(&families, "ar");
    let twice = filter_families(&once, "ar");
    assert_eq!(once, twice);
}

#[test]
fn entries_for_family_keeps_order() {
    let fonts = vec![
        entry("Arial", "Regular", "/a.ttf"),
        entry("Courier", "Regular", "/c.ttf"),
        entry("Arial", "Bold", "/ab.ttf"),
        entry("arial", "Italic", "/ai.ttf"),
    ];
    let found = entries_for_family(&fonts, "Arial");
    let files: Vec<&str> = found.iter().map(|e| e.file.as_str()).collect();
    assert_eq!(files, vec!["/a.ttf", "/ab.ttf"]);
}

#[test]
fn update_search_refilters_and_clears_selection() {
    let mut state = BrowseState::default();
    state.families = vec!["Arial".into(), "Courier".into()];
    state.filtered = state.families.clone();
    state.selected = Some(1);
    let cmd = update(&mut state, BrowseMessage::SearchChanged("cour".into()));
    assert_eq!(cmd, BrowseCommand::Nothing);
    assert_eq!(state.search, "cour");
    assert_eq!(state.filtered, vec!["Courier"]);
    assert_eq!(state.selected, None);
}

#[test]
fn update_fonts_loaded_rebuilds_families_under_search() {
    let mut state = BrowseState::default();
    update(&mut state, BrowseMessage::SearchChanged("a".into()));
    update(&mut state, BrowseMessage::SelectFamily(0));
    let fonts = vec![
        entry("Courier", "Regular", "/c.ttf"),
        entry("Arial", "Regular", "/a.ttf"),
        entry("Mono", "Regular", "/m.ttf"),
    ];
    let cmd = update(&mut state, BrowseMessage::FontsLoaded(fonts));
    assert_eq!(cmd, BrowseCommand::Nothing);
    assert_eq!(state.families, vec!["Arial", "Courier", "Mono"]);
    assert_eq!(state.filtered, vec!["Arial"]);
    assert_eq!(state.all_fonts.len(), 3);
    assert_eq!(state.selected, Some(0));
}

#[test]
fn update_tick_asks_for_fonts() {
    let mut state = state_with_count(2);
    assert_eq!(update(&mut state, BrowseMessage::Tick), BrowseCommand::LoadFonts);
    assert_eq!(state.filtered.len(), 2);
}

#[test]
fn fonts_loaded_clears_a_highlight_past_the_end() {
    let mut state = BrowseState::default();
    update(&mut state, BrowseMessage::FontsLoaded(vec![entry("Arial", "Regular", "/a.ttf")]));
    update(&mut state, BrowseMessage::SelectFamily(0));
    assert_eq!(state.selected, Some(0));
    update(&mut state, BrowseMessage::FontsLoaded(Vec::new()));
    assert!(state.filtered.is_empty());
    assert_eq!(state.selected, None);
}

#[test]
fn fonts_loaded_keeps_a_highlight_in_range() {
    let mut state = BrowseState::default();
    update(
        &mut state,
        BrowseMessage::FontsLoaded(vec![entry("Arial", "Regular", "/a.ttf"), entry("Courier", "Regular", "/c.ttf")]),
    );
    update(&mut state, BrowseMessage::SelectFamily(1));
    update(&mut state, BrowseMessage::FontsLoaded(vec![entry("Arial", "Bold", "/ab.ttf"), entry("Dejavu", "Book", "/d.ttf")]));
    assert_eq!(state.filtered, vec!["Arial", "Dejavu"]);
    assert_eq!(state.selected, Some(1));
}

#[test]
fn up_from_the_largest_index_steps_back() {
    let mut state = state_with_count(3);
    state.selected = Some(usize::MAX);
    assert_eq!(next_selection_index(&state, BrowseNavigation::Up), Some(usize::MAX - 1));
    let mut empty = state_with_count(0);
    empty.selected = Some(usize::MAX);
    assert_eq!(next_selection_index(&empty, BrowseNavigation::Down), None);
    assert_eq!(next_selection_index(&empty, BrowseNavigation::Up), None);
}

#[test]
fn narrower_search_shows_part_of_the_wider_one() {
    let families: Vec<String> =
        vec!["Arial".into(), "Arial Black".into(), "Courier".into(), "Garamond".into()];
    let wide = filter_families(&families, "ar");
    let narrow = filter_families(&families, "ARIAL");
    assert_eq!(wide, vec!["Arial", "Arial Black", "Garamond"]);
    assert_eq!(narrow, vec!["Arial", "Arial Black"]);
    assert_eq!(filter_families(&wide, "ARIAL"), narrow);
}

#[test]
fn family_entry_lists_split_the_font_list() {
    let fonts = vec![
        entry("Arial", "Regular", "/a.ttf"),
        entry("Courier", "Regular", "/c.ttf"),
        entry("Arial", "Bold", "/ab.ttf"),
        entry("Courier", "Bold", "/cb.ttf"),
        entry("Garamond", "Regular", "/g.ttf"),
    ];
    let families = extract_families(&fonts);
    let total: usize = families.iter().map(|f| entries_for_family(&fonts, f).len()).sum();
    assert_eq!(total, fonts.len());
    assert!(families.iter().all(|f| !entries_for_family(&fonts, f).is_empty()));
    assert!(entries_for_family(&fonts, "Helvetica").is_empty());
}

