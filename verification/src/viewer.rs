//! The font viewer's selection state: the family list and its filter, the
//! selected family with its styles and files, and the decisions the viewer
//! takes on messages, keys and clicks.

use vstd::prelude::*;
use crate::pages::browse::{
    extract_families, family_entries, family_names, filter_families, filtered_families,
    next_index, step_index, strictly_sorted, texts, BrowseNavigation,
};
use crate::pages::preview::{default_style, style_names};
use crate::pages::{charset_size, count_charset, faces, is_user_font, user_font_path, FontEntry, FontFace};
use crate::text::{
    chars_of, contains_chars, decimal, decimal_string, ends_with_chars, has_substring, has_suffix,
    lowercase, lowercase_chars, same_chars,
};

verus! {

/// The file of every face.
pub open spec fn file_names(fs: Seq<FontFace>) -> Seq<Seq<char>> {
    fs.map_values(|f: FontFace| f.file)
}

/// The index of the first `Regular` style, or 0 when there is none.
pub open spec fn regular_index(styles: Seq<Seq<char>>) -> int
    decreases styles.len(),
{
    if styles.len() == 0 {
        0
    } else if styles[0] == "Regular"@ {
        0
    } else if styles.drop_first().contains("Regular"@) {
        1 + regular_index(styles.drop_first())
    } else {
        0
    }
}

/// The viewer's state apart from its widgets.
#[derive(Debug)]
pub struct ViewerState {
    /// Whether the viewer runs as a font chooser for another program.
    pub select_mode: bool,
    pub all_fonts: Vec<FontEntry>,
    pub families: Vec<String>,
    pub filtered: Vec<String>,
    /// Index into `filtered` of the selected family.
    pub selected_idx: Option<usize>,
    pub selected_family: Option<String>,
    pub selected_style: Option<String>,
    pub selected_file: Option<String>,
    /// The styles of the selected family and their files, entry by entry.
    pub family_styles: Vec<String>,
    pub family_files: Vec<String>,
    /// Index into `family_styles` of the style chosen in the style list.
    pub style_index: usize,
    pub charset_count: usize,
    pub charset_str: String,
    pub is_user_font: bool,
    /// The family row that was clicked last.
    pub last_click_idx: Option<usize>,
}

/// What the viewer asks of its host after a message.
#[derive(Debug, Clone)]
pub struct ViewerCommand {
    /// Close the viewer.
    pub exit: bool,
    /// Ask fc-query for the charset of this file and hand the listing to
    /// `ViewerState::charset_loaded`.
    pub query_charset: Option<String>,
    /// Scroll the family list so that this row shows.
    pub scroll_to: Option<usize>,
    /// Open the folder that holds this file.
    pub open_folder: Option<String>,
    /// Move this user font file to the trash and refresh the font cache.
    pub trash: Option<String>,
    /// Read the font list again and hand it to `ViewerState::fonts_reloaded`.
    pub reload: bool,
    /// The view changed and must be laid out again.
    pub rebuild: bool,
}

/// A command that asks for nothing.
pub open spec fn no_command(c: ViewerCommand) -> bool {
    &&& !c.exit
    &&& c.query_charset is None
    &&& c.scroll_to is None
    &&& c.open_folder is None
    &&& c.trash is None
    &&& !c.reload
    &&& !c.rebuild
}

fn nothing() -> (c: ViewerCommand)
    ensures
        no_command(c),
{
    ViewerCommand {
        exit: false,
        query_charset: None,
        scroll_to: None,
        open_folder: None,
        trash: None,
        reload: false,
        rebuild: false,
    }
}

/// What the viewer reacts to.
#[derive(Debug, Clone)]
pub enum ViewerMessage {
    Exit,
    /// A click or a key chose this row of the family list.
    SelectFamily(usize),
    /// This style was chosen in the style list.
    SelectStyle(usize),
    /// The search text is now this.
    SearchChanged(String),
    OpenFolder,
    RemoveFont,
    RefreshFonts,
}

/// What a click on a family row means.
#[derive(Debug, Clone)]
pub enum RowClick {
    /// In select mode, the second click of a double click on a row: the
    /// viewer answers with this family and closes.
    Confirm(String),
    /// Select this row.
    Select(usize),
}

/// What a press of the pointer asks for, once the widgets have taken it.
#[derive(Debug, Clone, Copy, PartialEq, Eq)]
pub enum PointerRequest {
    SelectStyle(usize),
    SelectFamily(usize),
    FontSizeChanged,
    OpenFolder,
    RemoveFont,
}

/// The one request a pointer press makes when several widgets report at
/// once: removing the font comes first, then opening its folder, then a new
/// font size, then a family row, then a style.
pub fn pointer_request(
    style: Option<usize>,
    family: Option<usize>,
    size_changed: bool,
    open_folder: bool,
    remove_font: bool,
) -> (r: Option<PointerRequest>)
    ensures
        r == if remove_font {
            Some(PointerRequest::RemoveFont)
        } else if open_folder {
            Some(PointerRequest::OpenFolder)
        } else if size_changed {
            Some(PointerRequest::FontSizeChanged)
        } else if family is Some {
            Some(PointerRequest::SelectFamily(family->0))
        } else if style is Some {
            Some(PointerRequest::SelectStyle(style->0))
        } else {
            None
        },
{
    if remove_font {
        Some(PointerRequest::RemoveFont)
    } else if open_folder {
        Some(PointerRequest::OpenFolder)
    } else if size_changed {
        Some(PointerRequest::FontSizeChanged)
    } else {
        match family {
            Some(i) => Some(PointerRequest::SelectFamily(i)),
            None => match style {
                Some(i) => Some(PointerRequest::SelectStyle(i)),
                None => None,
            },
        }
    }
}

/// What each key does. A pressed shortcut always does its own thing:
/// refresh reads the font list again, the search shortcut focuses the
/// search box, the preview shortcut focuses the sample text, and the folder
/// and removal shortcuts act on the selected font. Without a shortcut, a
/// pressed `+` or `-` steps the font size when a family is selected, and a
/// pressed arrow (with the style list closed and rows to move over) selects
/// the row above or below, the last or the first from no selection, held
/// at the ends of the list. A key that is not pressed is handed on.
pub proof fn law_keys(
    shortcut: Option<Shortcut>,
    key: KeyKind,
    pressed: bool,
    style_list_open: bool,
    family_selected: bool,
    rows: nat,
    selected: Option<usize>,
)
    requires
        selected matches Some(i) ==> i < rows,
    ensures
        ({
            let a = key_decision(shortcut, key, pressed, style_list_open, family_selected, rows, selected);
            &&& pressed && shortcut == Some(Shortcut::Refresh) ==> a == KeyAction::Send(
                ViewerMessage::RefreshFonts,
            )
            &&& pressed && shortcut == Some(Shortcut::OpenSearch) ==> a == KeyAction::FocusSearch
            &&& pressed && shortcut == Some(Shortcut::FocusPreview) ==> a == KeyAction::FocusPreview
            &&& pressed && shortcut == Some(Shortcut::OpenFolder) ==> a == KeyAction::Send(
                ViewerMessage::OpenFolder,
            )
            &&& pressed && shortcut == Some(Shortcut::RemoveFont) ==> a == KeyAction::Send(
                ViewerMessage::RemoveFont,
            )
            &&& pressed && shortcut is None && key == KeyKind::Plus && family_selected ==> a
                == KeyAction::EnlargeFont
            &&& pressed && shortcut is None && key == KeyKind::Minus && family_selected ==> a
                == KeyAction::ShrinkFont
            &&& pressed && shortcut is None && !style_list_open && rows > 0 && key == KeyKind::ArrowDown
                ==> a == KeyAction::Send(
                ViewerMessage::SelectFamily(
                    match selected {
                        Some(i) => if i + 1 < rows { (i + 1) as usize } else { i },
                        None => 0usize,
                    },
                ),
            )
            &&& pressed && shortcut is None && !style_list_open && rows > 0 && key == KeyKind::ArrowUp
                ==> a == KeyAction::Send(
                ViewerMessage::SelectFamily(
                    match selected {
                        Some(i) => if i > 0 { (i - 1) as usize } else { 0usize },
                        None => (rows - 1) as usize,
                    },
                ),
            )
            &&& !pressed ==> a == KeyAction::PassOn
        }),
{
}

/// The viewer's own keyboard shortcuts, as configured.
#[derive(Debug, Clone, Copy, PartialEq, Eq)]
pub enum Shortcut {
    Refresh,
    OpenSearch,
    FocusPreview,
    OpenFolder,
    RemoveFont,
}

/// The keys the viewer tells apart beyond its shortcuts.
#[derive(Debug, Clone, Copy, PartialEq, Eq)]
pub enum KeyKind {
    /// `+` or `=`.
    Plus,
    Minus,
    ArrowUp,
    ArrowDown,
    Other,
}

/// What the viewer does with a key.
#[derive(Debug, Clone)]
pub enum KeyAction {
    Send(ViewerMessage),
    FocusSearch,
    FocusPreview,
    /// Step the font size up (see `enlarge_font_size`).
    EnlargeFont,
    /// Step the font size down (see `shrink_font_size`).
    ShrinkFont,
    /// Hand the key on to the focused widget and the scroll regions.
    PassOn,
}

/// The decision `ViewerState::key_action` takes.
pub open spec fn key_decision(
    shortcut: Option<Shortcut>,
    key: KeyKind,
    pressed: bool,
    style_list_open: bool,
    family_selected: bool,
    rows: nat,
    selected: Option<usize>,
) -> KeyAction {
    if pressed && shortcut is Some {
        match shortcut->0 {
            Shortcut::Refresh => KeyAction::Send(ViewerMessage::RefreshFonts),
            Shortcut::OpenSearch => KeyAction::FocusSearch,
            Shortcut::FocusPreview => KeyAction::FocusPreview,
            Shortcut::OpenFolder => KeyAction::Send(ViewerMessage::OpenFolder),
            Shortcut::RemoveFont => KeyAction::Send(ViewerMessage::RemoveFont),
        }
    } else if pressed && key == KeyKind::Plus && family_selected {
        KeyAction::EnlargeFont
    } else if pressed && key == KeyKind::Minus && family_selected {
        KeyAction::ShrinkFont
    } else if pressed && !style_list_open && rows > 0 && (key == KeyKind::ArrowUp || key
        == KeyKind::ArrowDown) {
        KeyAction::Send(
            ViewerMessage::SelectFamily(
                next_index(
                    rows,
                    selected,
                    if key == KeyKind::ArrowUp {
                        BrowseNavigation::Up
                    } else {
                        BrowseNavigation::Down
                    },
                )->0 as usize,
            ),
        )
    } else {
        KeyAction::PassOn
    }
}

/// The weight and slant the alphabet preview draws a style with.
#[derive(Debug, Clone, Copy, PartialEq, Eq)]
pub struct StyleLook {
    pub italic: bool,
    pub weight: Option<u16>,
}

/// The size and title of the viewer's window.
#[derive(Debug, Clone)]
pub struct WindowConfig {
    pub title: String,
    pub app_id: String,
    pub width: u32,
    pub height: u32,
    pub min_width: u32,
    pub min_height: u32,
}

impl ViewerState {
    /// The selection is consistent: a selected row names the selected
    /// family, and every listed style has its file.
    pub open spec fn wf(&self) -> bool {
        &&& self.family_styles@.len() == self.family_files@.len()
        &&& self.selected_idx matches Some(i) ==> {
            &&& i < self.filtered@.len()
            &&& self.selected_family matches Some(f) && f@ == self.filtered@[i as int]@
        }
    }

    /// `family` is selected: its entries give the styles and files, the
    /// `Regular` style (else the first) is chosen, and its file with it.
    pub open spec fn shows_family(&self, family: Seq<char>) -> bool {
        let entries = family_entries(faces(self.all_fonts@), family);
        let styles = style_names(entries);
        let files = file_names(entries);
        let k = regular_index(styles);
        &&& self.selected_family matches Some(f) && f@ == family
        &&& texts(self.family_styles@) == styles
        &&& texts(self.family_files@) == files
        &&& self.style_index == k
        &&& if entries.len() > 0 {
            &&& self.selected_style matches Some(s) && s@ == styles[k]
            &&& self.selected_file matches Some(f) && f@ == files[k]
            &&& self.is_user_font == user_font_path(files[k])
        } else {
            &&& self.selected_style is None
            &&& self.selected_file is None
            &&& self.charset_count == 0
            &&& self.charset_str@ == "0"@
            &&& !self.is_user_font
        }
    }

    /// Nothing is selected.
    pub open spec fn shows_nothing(&self) -> bool {
        &&& self.selected_idx is None
        &&& self.selected_family is None
        &&& self.selected_style is None
        &&& self.selected_file is None
        &&& self.family_styles@.len() == 0
        &&& self.family_files@.len() == 0
        &&& self.style_index == 0
        &&& self.charset_count == 0
        &&& self.charset_str@ == "0"@
        &&& !self.is_user_font
    }

    /// The file whose charset a selection of `family` asks for: that of its
    /// chosen style, if it has any entry.
    pub open spec fn charset_query_for(&self, family: Seq<char>, q: Option<String>) -> bool {
        let entries = family_entries(faces(self.all_fonts@), family);
        if entries.len() > 0 {
            q matches Some(f) && f@ == file_names(entries)[regular_index(style_names(entries))]
        } else {
            q is None
        }
    }

    /// Clears the selection.
    fn clear_selection(&mut self)
        ensures
            final(self).shows_nothing(),
            final(self).select_mode == old(self).select_mode,
            final(self).all_fonts@ == old(self).all_fonts@,
            final(self).families@ == old(self).families@,
            final(self).filtered@ == old(self).filtered@,
            final(self).last_click_idx == old(self).last_click_idx,
    {
        self.selected_idx = None;
        self.selected_family = None;
        self.selected_style = None;
        self.selected_file = None;
        self.family_styles = Vec::new();
        self.family_files = Vec::new();
        self.style_index = 0;
        self.charset_count = 0;
        self.charset_str = String::from_str("0");
        self.is_user_font = false;
    }

    /// Selects `family`: its styles and files, the `Regular` style or the
    /// first, that style's file and whether it is a user font. Returns the
    /// file whose charset is to be counted; a family without entries counts
    /// none.
    pub fn select_family(&mut self, family: String) -> (query: Option<String>)
        ensures
            final(self).shows_family(family@),
            final(self).charset_query_for(family@, query),
            final(self).select_mode == old(self).select_mode,
            final(self).all_fonts@ == old(self).all_fonts@,
            final(self).families@ == old(self).families@,
            final(self).filtered@ == old(self).filtered@,
            final(self).selected_idx == old(self).selected_idx,
            final(self).last_click_idx == old(self).last_click_idx,
            final(self).family_styles@.len() == final(self).family_files@.len(),
    {
        let fam = chars_of(family.as_str());
        let ghost fs = faces(self.all_fonts@);
        let ghost entries = family_entries(fs, family@);
        let ghost pred = |f: FontFace| f.family == family@;
        let mut styles: Vec<String> = Vec::new();
        let mut files: Vec<String> = Vec::new();
        let mut i: usize = 0;
        while i < self.all_fonts.len()
            invariant
                i <= self.all_fonts@.len(),
                fs == faces(self.all_fonts@),
                fam@ == family@,
                entries == family_entries(fs, family@),
                pred == (|f: FontFace| f.family == family@),
                texts(styles@) == style_names(fs.take(i as int).filter(pred)),
                texts(files@) == file_names(fs.take(i as int).filter(pred)),
            decreases self.all_fonts@.len() - i,
        {
            let name = chars_of(self.all_fonts[i].family.as_str());
            proof {
                assert(fs.take(i + 1) =~= fs.take(i as int).push(fs[i as int]));
                fs.take(i as int).lemma_filter_push(fs[i as int], pred);
            }
            if same_chars(name.as_slice(), fam.as_slice()) {
                let st = self.all_fonts[i].style.clone();
                let fl = self.all_fonts[i].file.clone();
                let ghost bs = styles@;
                let ghost bf = files@;
                styles.push(st);
                files.push(fl);
                proof {
                    let old_f = fs.take(i as int).filter(pred);
                    assert(texts(styles@) =~= texts(bs).push(st@));
                    assert(texts(files@) =~= texts(bf).push(fl@));
                    assert(style_names(old_f.push(fs[i as int])) =~= style_names(old_f).push(st@));
                    assert(file_names(old_f.push(fs[i as int])) =~= file_names(old_f).push(fl@));
                }
            }
            i = i + 1;
        }
        proof {
            assert(fs.take(self.all_fonts@.len() as int) =~= fs);
        }
        let k = regular_position(&styles);
        let query;
        if styles.len() > 0 {
            let st = styles[k].clone();
            let fl = files[k].clone();
            let user = is_user_font(fl.as_str());
            query = Some(files[k].clone());
            self.selected_style = Some(st);
            self.selected_file = Some(fl);
            self.is_user_font = user;
        } else {
            query = None;
            self.selected_style = None;
            self.selected_file = None;
            self.charset_count = 0;
            self.charset_str = String::from_str("0");
            self.is_user_font = false;
        }
        self.selected_family = Some(family);
        self.family_styles = styles;
        self.family_files = files;
        self.style_index = k;
        query
    }

    /// Takes the charset that fc-query printed for the selected file
    /// (`None` when the query could not be run): its hexadecimal code points
    /// and ranges are counted, no listing counting as none. Returns `false`,
    /// changing nothing, where the count cannot be taken.
    pub fn charset_loaded(&mut self, listing: Option<&str>) -> (ok: bool)
        ensures
            ok == (match listing {
                Some(t) => charset_size(t@, 16) is Some,
                None => true,
            }),
            ok ==> final(self).charset_count == (match listing {
                Some(t) => charset_size(t@, 16).unwrap(),
                None => 0,
            }),
            ok ==> final(self).charset_str@ == decimal(final(self).charset_count as nat),
            !ok ==> *final(self) == *old(self),
            final(self).select_mode == old(self).select_mode,
            final(self).all_fonts@ == old(self).all_fonts@,
            final(self).families@ == old(self).families@,
            final(self).filtered@ == old(self).filtered@,
            final(self).selected_idx == old(self).selected_idx,
            final(self).selected_family == old(self).selected_family,
            final(self).selected_style == old(self).selected_style,
            final(self).selected_file == old(self).selected_file,
            final(self).family_styles@ == old(self).family_styles@,
            final(self).family_files@ == old(self).family_files@,
            final(self).style_index == old(self).style_index,
            final(self).is_user_font == old(self).is_user_font,
            final(self).last_click_idx == old(self).last_click_idx,
    {
        let count = match listing {
            Some(t) => match count_charset(t, 16) {
                Some(n) => n,
                None => {
                    return false;
                },
            },
            None => 0,
        };
        self.charset_count = count;
        self.charset_str = decimal_string(count);
        true
    }

    /// Takes a freshly read font list: the families and, under the search
    /// `query`, the rows are rebuilt; a selected row past the new end clears
    /// the selection, any other selected row selects the family it now
    /// shows. Returns the file whose charset is to be counted.
    pub fn fonts_reloaded(&mut self, fonts: Vec<FontEntry>, query: &str) -> (q: Option<String>)
        requires
            old(self).wf(),
        ensures
            final(self).wf(),
            final(self).all_fonts@ == fonts@,
            strictly_sorted(texts(final(self).families@)),
            texts(final(self).families@).to_set() == family_names(faces(fonts@)).to_set(),
            texts(final(self).filtered@) == filtered_families(texts(final(self).families@), query@),
            final(self).select_mode == old(self).select_mode,
            final(self).last_click_idx == old(self).last_click_idx,
            match old(self).selected_idx {
                Some(i) => if i < final(self).filtered@.len() {
                    &&& final(self).selected_idx == Some(i)
                    &&& final(self).shows_family(final(self).filtered@[i as int]@)
                    &&& final(self).charset_query_for(final(self).filtered@[i as int]@, q)
                } else {
                    &&& final(self).shows_nothing()
                    &&& q is None
                },
                None => {
                    &&& final(self).selected_idx is None
                    &&& final(self).selected_family == old(self).selected_family
                    &&& final(self).selected_style == old(self).selected_style
                    &&& final(self).selected_file == old(self).selected_file
                    &&& final(self).family_styles@ == old(self).family_styles@
                    &&& final(self).family_files@ == old(self).family_files@
                    &&& final(self).style_index == old(self).style_index
                    &&& final(self).charset_count == old(self).charset_count
                    &&& final(self).charset_str@ == old(self).charset_str@
                    &&& final(self).is_user_font == old(self).is_user_font
                    &&& q is None
                },
            },
    {
        let families = extract_families(fonts.as_slice());
        let filtered = filter_families(families.as_slice(), query);
        self.all_fonts = fonts;
        self.families = families;
        self.filtered = filtered;
        match self.selected_idx {
            Some(sel) => {
                if sel >= self.filtered.len() {
                    self.clear_selection();
                    None
                } else {
                    let family = self.filtered[sel].clone();
                    self.select_family(family)
                }
            },
            None => None,
        }
    }

    /// Applies a message. A row in range is selected, scrolled to and its
    /// charset asked for; a style in range is chosen with its file; a new
    /// search refilters the rows and selects the first, if any; opening a
    /// folder and removing a font act on the selected file, removal only on
    /// a user font, and then read the font list again, as a refresh does.
    pub fn update(&mut self, msg: ViewerMessage) -> (cmd: ViewerCommand)
        requires
            old(self).wf(),
        ensures
            final(self).wf(),
            final(self).select_mode == old(self).select_mode,
            final(self).all_fonts@ == old(self).all_fonts@,
            final(self).families@ == old(self).families@,
            final(self).last_click_idx == old(self).last_click_idx,
            match msg {
                ViewerMessage::Exit => {
                    &&& *final(self) == *old(self)
                    &&& cmd.exit
                    &&& cmd.query_charset is None && cmd.scroll_to is None
                    &&& cmd.open_folder is None && cmd.trash is None && !cmd.reload && !cmd.rebuild
                },
                ViewerMessage::SelectFamily(idx) => if idx < old(self).filtered@.len() {
                    let family = old(self).filtered@[idx as int]@;
                    &&& final(self).filtered@ == old(self).filtered@
                    &&& final(self).selected_idx == Some(idx)
                    &&& final(self).shows_family(family)
                    &&& final(self).charset_query_for(family, cmd.query_charset)
                    &&& cmd.scroll_to == Some(idx)
                    &&& cmd.rebuild
                    &&& !cmd.exit && cmd.open_folder is None && cmd.trash is None && !cmd.reload
                } else {
                    &&& *final(self) == *old(self)
                    &&& no_command(cmd)
                },
                ViewerMessage::SelectStyle(idx) => if idx < old(self).family_styles@.len() {
                    let file = old(self).family_files@[idx as int]@;
                    &&& final(self).style_index == idx
                    &&& final(self).selected_style matches Some(s) && s@ == old(self).family_styles@[idx as int]@
                    &&& final(self).selected_file matches Some(f) && f@ == file
                    &&& final(self).is_user_font == user_font_path(file)
                    &&& cmd.query_charset matches Some(f) && f@ == file
                    &&& cmd.rebuild
                    &&& final(self).filtered@ == old(self).filtered@
                    &&& final(self).selected_idx == old(self).selected_idx
                    &&& final(self).selected_family == old(self).selected_family
                    &&& final(self).family_styles@ == old(self).family_styles@
                    &&& final(self).family_files@ == old(self).family_files@
                    &&& final(self).charset_count == old(self).charset_count
                    &&& final(self).charset_str@ == old(self).charset_str@
                    &&& !cmd.exit && cmd.scroll_to is None && cmd.open_folder is None
                    &&& cmd.trash is None && !cmd.reload
                } else {
                    &&& *final(self) == *old(self)
                    &&& no_command(cmd)
                },
                ViewerMessage::SearchChanged(q) => {
                    &&& texts(final(self).filtered@) == filtered_families(texts(old(self).families@), q@)
                    &&& if final(self).filtered@.len() > 0 {
                        &&& final(self).selected_idx == Some(0usize)
                        &&& final(self).shows_family(final(self).filtered@[0]@)
                        &&& final(self).charset_query_for(final(self).filtered@[0]@, cmd.query_charset)
                    } else {
                        &&& final(self).shows_nothing()
                        &&& cmd.query_charset is None
                    }
                    &&& cmd.rebuild
                    &&& !cmd.exit && cmd.scroll_to is None && cmd.open_folder is None
                    &&& cmd.trash is None && !cmd.reload
                },
                ViewerMessage::OpenFolder => {
                    &&& *final(self) == *old(self)
                    &&& cmd.open_folder == old(self).selected_file
                    &&& !cmd.exit && cmd.query_charset is None && cmd.scroll_to is None
                    &&& cmd.trash is None && !cmd.reload && !cmd.rebuild
                },
                ViewerMessage::RemoveFont => {
                    &&& *final(self) == *old(self)
                    &&& if old(self).selected_file is Some && old(self).is_user_font {
                        &&& cmd.trash == old(self).selected_file
                        &&& cmd.reload
                        &&& cmd.rebuild
                    } else {
                        &&& cmd.trash is None
                        &&& !cmd.reload
                        &&& !cmd.rebuild
                    }
                    &&& !cmd.exit && cmd.query_charset is None && cmd.scroll_to is None
                    &&& cmd.open_folder is None
                },
                ViewerMessage::RefreshFonts => {
                    &&& *final(self) == *old(self)
                    &&& cmd.reload
                    &&& cmd.rebuild
                    &&& !cmd.exit && cmd.query_charset is None && cmd.scroll_to is None
                    &&& cmd.open_folder is None && cmd.trash is None
                },
            },
    {
        let mut cmd = nothing();
        match msg {
            ViewerMessage::Exit => {
                cmd.exit = true;
            },
            ViewerMessage::SelectFamily(idx) => {
                if idx < self.filtered.len() {
                    self.selected_idx = Some(idx);
                    let family = self.filtered[idx].clone();
                    cmd.query_charset = self.select_family(family);
                    cmd.scroll_to = Some(idx);
                    cmd.rebuild = true;
                }
            },
            ViewerMessage::SelectStyle(idx) => {
                if idx < self.family_styles.len() {
                    self.style_index = idx;
                    let style = self.family_styles[idx].clone();
                    let file = self.family_files[idx].clone();
                    let user = is_user_font(file.as_str());
                    cmd.query_charset = Some(file.clone());
                    self.selected_style = Some(style);
                    self.selected_file = Some(file);
                    self.is_user_font = user;
                    cmd.rebuild = true;
                }
            },
            ViewerMessage::SearchChanged(q) => {
                self.filtered = filter_families(self.families.as_slice(), q.as_str());
                self.clear_selection();
                if self.filtered.len() > 0 {
                    self.selected_idx = Some(0);
                    let family = self.filtered[0].clone();
                    cmd.query_charset = self.select_family(family);
                }
                cmd.rebuild = true;
            },
            ViewerMessage::OpenFolder => {
                cmd.open_folder = self.selected_file.clone();
            },
            ViewerMessage::RemoveFont => {
                if self.selected_file.is_some() && self.is_user_font {
                    cmd.trash = self.selected_file.clone();
                    cmd.reload = true;
                    cmd.rebuild = true;
                }
            },
            ViewerMessage::RefreshFonts => {
                cmd.reload = true;
                cmd.rebuild = true;
            },
        }
        cmd
    }

    /// The viewer on a freshly read font list: every family shown (the
    /// search is empty) and, if there is any, the `preselected` family
    /// selected when a row names it in any case, else the first row.
    /// Returns the file whose charset is to be counted.
    pub fn new(select_mode: bool, fonts: Vec<FontEntry>, preselected: Option<&str>) -> (r: (
        ViewerState,
        Option<String>,
    ))
        ensures
            r.0.wf(),
            r.0.select_mode == select_mode,
            r.0.all_fonts@ == fonts@,
            strictly_sorted(texts(r.0.families@)),
            texts(r.0.families@).to_set() == family_names(faces(fonts@)).to_set(),
            texts(r.0.filtered@) == texts(r.0.families@),
            r.0.last_click_idx is None,
            if r.0.filtered@.len() > 0 {
                let k = preselect_index(
                    texts(r.0.filtered@),
                    match preselected {
                        Some(p) => Some(p@),
                        None => None,
                    },
                );
                &&& r.0.selected_idx == Some(k as usize)
                &&& r.0.shows_family(r.0.filtered@[k]@)
                &&& r.0.charset_query_for(r.0.filtered@[k]@, r.1)
            } else {
                &&& r.0.shows_nothing()
                &&& r.1 is None
            },
    {
        let families = extract_families(fonts.as_slice());
        let filtered = filter_families(families.as_slice(), "");
        proof {
            reveal_strlit("");
        }
        let mut state = ViewerState {
            select_mode,
            all_fonts: fonts,
            families,
            filtered,
            selected_idx: None,
            selected_family: None,
            selected_style: None,
            selected_file: None,
            family_styles: Vec::new(),
            family_files: Vec::new(),
            style_index: 0,
            charset_count: 0,
            charset_str: String::from_str("0"),
            is_user_font: false,
            last_click_idx: None,
        };
        let mut query = None;
        if state.filtered.len() > 0 {
            let k = preselect_position(&state.filtered, preselected);
            state.selected_idx = Some(k);
            let family = state.filtered[k].clone();
            query = state.select_family(family);
        }
        (state, query)
    }

    /// The row an arrow key moves the selection to (see `next_index`).
    pub fn family_step(&self, direction: BrowseNavigation) -> (r: Option<usize>)
        requires
            self.wf(),
        ensures
            r matches Some(i) ==> next_index(self.filtered@.len(), self.selected_idx, direction)
                == Some(i as int),
            r is None ==> next_index(self.filtered@.len(), self.selected_idx, direction) is None,
    {
        step_index(self.filtered.len(), self.selected_idx, direction)
    }

    /// A click on family row `idx` (that `double` follows the last click
    /// closely enough): in select mode the second click on the same row
    /// confirms its family, which must be a row of the list; otherwise the
    /// row is remembered and selected.
    pub fn row_clicked(&mut self, idx: usize, double: bool) -> (r: RowClick)
        requires
            old(self).select_mode && old(self).last_click_idx == Some(idx) && double ==> idx
                < old(self).filtered@.len(),
        ensures
            if old(self).select_mode && old(self).last_click_idx == Some(idx) && double {
                &&& r matches RowClick::Confirm(f) && f@ == old(self).filtered@[idx as int]@
                &&& *final(self) == *old(self)
            } else {
                &&& r matches RowClick::Select(i) && i == idx
                &&& final(self).last_click_idx == Some(idx)
                &&& final(self).select_mode == old(self).select_mode
                &&& final(self).all_fonts@ == old(self).all_fonts@
                &&& final(self).families@ == old(self).families@
                &&& final(self).filtered@ == old(self).filtered@
                &&& final(self).selected_idx == old(self).selected_idx
                &&& final(self).selected_family == old(self).selected_family
                &&& final(self).selected_style == old(self).selected_style
                &&& final(self).selected_file == old(self).selected_file
                &&& final(self).family_styles@ == old(self).family_styles@
                &&& final(self).family_files@ == old(self).family_files@
                &&& final(self).style_index == old(self).style_index
                &&& final(self).charset_count == old(self).charset_count
                &&& final(self).charset_str == old(self).charset_str
                &&& final(self).is_user_font == old(self).is_user_font
            },
    {
        if self.select_mode && self.last_click_idx == Some(idx) && double {
            return RowClick::Confirm(self.filtered[idx].clone());
        }
        self.last_click_idx = Some(idx);
        RowClick::Select(idx)
    }

    /// The family the chooser answers with: the selected one, or nothing.
    pub fn confirmed_family(&self) -> (f: String)
        ensures
            f@ == match self.selected_family {
                Some(s) => s@,
                None => Seq::<char>::empty(),
            },
    {
        match &self.selected_family {
            Some(s) => s.clone(),
            None => String::new(),
        }
    }

    /// What a key does. A pressed shortcut acts first: refresh, focus the
    /// search or the preview text, open the folder, remove the font. Then,
    /// with a family selected, `+` (or `=`) and `-` step the font size. Then,
    /// unless the style list is open, a pressed arrow moves the selection
    /// over a non-empty family list. Anything else goes on to the widgets.
    pub fn key_action(
        &self,
        shortcut: Option<Shortcut>,
        key: KeyKind,
        pressed: bool,
        style_list_open: bool,
    ) -> (a: KeyAction)
        requires
            self.wf(),
        ensures
            a == key_decision(
                shortcut,
                key,
                pressed,
                style_list_open,
                self.selected_family is Some,
                self.filtered@.len(),
                self.selected_idx,
            ),
    {
        if pressed {
            match shortcut {
                Some(Shortcut::Refresh) => {
                    return KeyAction::Send(ViewerMessage::RefreshFonts);
                },
                Some(Shortcut::OpenSearch) => {
                    return KeyAction::FocusSearch;
                },
                Some(Shortcut::FocusPreview) => {
                    return KeyAction::FocusPreview;
                },
                Some(Shortcut::OpenFolder) => {
                    return KeyAction::Send(ViewerMessage::OpenFolder);
                },
                Some(Shortcut::RemoveFont) => {
                    return KeyAction::Send(ViewerMessage::RemoveFont);
                },
                None => {},
            }
            match key {
                KeyKind::Plus => {
                    if self.selected_family.is_some() {
                        return KeyAction::EnlargeFont;
                    }
                },
                KeyKind::Minus => {
                    if self.selected_family.is_some() {
                        return KeyAction::ShrinkFont;
                    }
                },
                _ => {},
            }
        }
        if !style_list_open && pressed {
            let dir = match key {
                KeyKind::ArrowUp => Some(BrowseNavigation::Up),
                KeyKind::ArrowDown => Some(BrowseNavigation::Down),
                _ => None,
            };
            match dir {
                Some(d) => {
                    match self.family_step(d) {
                        Some(i) => {
                            return KeyAction::Send(ViewerMessage::SelectFamily(i));
                        },
                        None => {},
                    }
                },
                None => {},
            }
        }
        KeyAction::PassOn
    }
}

/// The index of the first `Regular` style, or 0.
fn regular_position(styles: &Vec<String>) -> (k: usize)
    ensures
        k == regular_index(texts(styles@)),
        styles@.len() > 0 ==> k < styles@.len(),
{
    let ghost ts = texts(styles@);
    let regular = chars_of("Regular");
    let mut i: usize = 0;
    while i < styles.len()
        invariant
            i <= styles@.len(),
            ts == texts(styles@),
            regular@ == "Regular"@,
            forall|m: int| 0 <= m < i ==> ts[m] != "Regular"@,
        decreases styles@.len() - i,
    {
        let c = chars_of(styles[i].as_str());
        if same_chars(c.as_slice(), regular.as_slice()) {
            proof {
                lemma_regular_index(ts, i as int);
            }
            return i;
        }
        i = i + 1;
    }
    proof {
        lemma_regular_index_absent(ts);
    }
    0
}

proof fn lemma_regular_index(ts: Seq<Seq<char>>, i: int)
    requires
        0 <= i < ts.len(),
        ts[i] == "Regular"@,
        forall|m: int| 0 <= m < i ==> ts[m] != "Regular"@,
    ensures
        regular_index(ts) == i,
    decreases i,
{
    if i > 0 {
        assert(ts.drop_first()[i - 1] == ts[i]);
        assert(ts.drop_first().contains("Regular"@));
        lemma_regular_index(ts.drop_first(), i - 1);
    }
}

proof fn lemma_regular_index_present(ts: Seq<Seq<char>>)
    requires
        ts.contains("Regular"@),
    ensures
        0 <= regular_index(ts) < ts.len(),
        ts[regular_index(ts)] == "Regular"@,
    decreases ts.len(),
{
    if ts[0] != "Regular"@ {
        let m = choose|m: int| 0 <= m < ts.len() && ts[m] == "Regular"@;
        assert(ts.drop_first()[m - 1] == "Regular"@);
        lemma_regular_index_present(ts.drop_first());
    }
}

/// A family opens on its `Regular` style: where a style is `Regular`, the
/// first such style is chosen; where none is, the first style is. The style
/// the preview page opens with is the one the viewer chooses.
pub proof fn law_regular_style_opens(styles: Seq<Seq<char>>, i: int)
    ensures
        0 <= i < styles.len() && styles[i] == "Regular"@ && (forall|m: int|
            0 <= m < i ==> styles[m] != "Regular"@) ==> regular_index(styles) == i,
        (forall|m: int| 0 <= m < styles.len() ==> styles[m] != "Regular"@) ==> regular_index(styles)
            == 0,
        styles.len() > 0 ==> default_style(styles) == styles[regular_index(styles)],
        styles.len() == 0 ==> default_style(styles).len() == 0,
{
    if 0 <= i < styles.len() && styles[i] == "Regular"@ && (forall|m: int|
        0 <= m < i ==> styles[m] != "Regular"@) {
        lemma_regular_index(styles, i);
    }
    if forall|m: int| 0 <= m < styles.len() ==> styles[m] != "Regular"@ {
        lemma_regular_index_absent(styles);
    }
    if styles.contains("Regular"@) {
        lemma_regular_index_present(styles);
    } else if styles.len() > 0 {
        assert forall|m: int| 0 <= m < styles.len() implies styles[m] != "Regular"@ by {
            if styles[m] == "Regular"@ {
                assert(styles.contains("Regular"@));
            }
        }
        lemma_regular_index_absent(styles);
    }
}

proof fn lemma_regular_index_absent(ts: Seq<Seq<char>>)
    requires
        forall|m: int| 0 <= m < ts.len() ==> ts[m] != "Regular"@,
    ensures
        regular_index(ts) == 0,
{
    if ts.len() > 0 {
        assert(!ts.drop_first().contains("Regular"@)) by {
            if ts.drop_first().contains("Regular"@) {
                let m = choose|m: int| 0 <= m < ts.drop_first().len() && ts.drop_first()[m] == "Regular"@;
                assert(ts[m + 1] == "Regular"@);
            }
        }
    }
}

/// The row a preselected family starts on: the first whose lowercase name
/// equals the lowercase preselection, else the first row.
pub open spec fn preselect_index(rows: Seq<Seq<char>>, pre: Option<Seq<char>>) -> int {
    match pre {
        Some(p) => lowercase_match(rows, lowercase(p)),
        None => 0,
    }
}

/// The first row whose lowercase name is `low`, or 0 when there is none.
pub open spec fn lowercase_match(rows: Seq<Seq<char>>, low: Seq<char>) -> int
    decreases rows.len(),
{
    if rows.len() == 0 {
        0
    } else if lowercase(rows[0]) == low {
        0
    } else if exists|m: int| 0 <= m < rows.drop_first().len() && lowercase(rows.drop_first()[m]) == low {
        1 + lowercase_match(rows.drop_first(), low)
    } else {
        0
    }
}

proof fn lemma_lowercase_match(rows: Seq<Seq<char>>, low: Seq<char>, i: int)
    requires
        0 <= i < rows.len(),
        lowercase(rows[i]) == low,
        forall|m: int| 0 <= m < i ==> lowercase(#[trigger] rows[m]) != low,
    ensures
        lowercase_match(rows, low) == i,
    decreases i,
{
    if i > 0 {
        assert(rows.drop_first()[i - 1] == rows[i]);
        lemma_lowercase_match(rows.drop_first(), low, i - 1);
    }
}

proof fn lemma_lowercase_match_absent(rows: Seq<Seq<char>>, low: Seq<char>)
    requires
        forall|m: int| 0 <= m < rows.len() ==> lowercase(#[trigger] rows[m]) != low,
    ensures
        lowercase_match(rows, low) == 0,
{
    if rows.len() > 0 {
        assert(!(exists|m: int| 0 <= m < rows.drop_first().len() && lowercase(rows.drop_first()[m]) == low)) by {
            assert forall|m: int| 0 <= m < rows.drop_first().len() implies lowercase(rows.drop_first()[m]) != low by {
                assert(rows.drop_first()[m] == rows[m + 1]);
            }
        }
    }
}

/// The row a preselected family starts on.
fn preselect_position(rows: &Vec<String>, pre: Option<&str>) -> (k: usize)
    requires
        rows@.len() > 0,
    ensures
        k == preselect_index(texts(rows@), match pre {
            Some(p) => Some(p@),
            None => None,
        }),
        k < rows@.len(),
{
    let ghost ts = texts(rows@);
    match pre {
        None => 0,
        Some(p) => {
            let low = lowercase_chars(p);
            let mut i: usize = 0;
            while i < rows.len()
                invariant
                    i <= rows@.len(),
                    ts == texts(rows@),
                    low@ == lowercase(p@),
                    pre == Some(p),
                    forall|m: int| 0 <= m < i ==> lowercase(#[trigger] ts[m]) != low@,
                decreases rows@.len() - i,
            {
                let c = lowercase_chars(rows[i].as_str());
                if same_chars(c.as_slice(), low.as_slice()) {
                    proof {
                        lemma_lowercase_match(ts, low@, i as int);
                    }
                    return i;
                }
                i = i + 1;
            }
            proof {
                lemma_lowercase_match_absent(ts, low@);
            }
            0
        },
    }
}

/// The preselected family is the first row that equals it in any case
/// (their lowercase forms agree); with no such row, or none asked for, the
/// first row.
pub proof fn law_preselect_ignores_case(rows: Seq<Seq<char>>, p: Seq<char>, i: int)
    ensures
        0 <= i < rows.len() && lowercase(rows[i]) == lowercase(p) && (forall|m: int|
            0 <= m < i ==> lowercase(#[trigger] rows[m]) != lowercase(p)) ==> preselect_index(
            rows,
            Some(p),
        ) == i,
        (forall|m: int| 0 <= m < rows.len() ==> lowercase(#[trigger] rows[m]) != lowercase(p))
            ==> preselect_index(rows, Some(p)) == 0,
        preselect_index(rows, None) == 0,
{
    if 0 <= i < rows.len() && lowercase(rows[i]) == lowercase(p) && (forall|m: int|
        0 <= m < i ==> lowercase(#[trigger] rows[m]) != lowercase(p)) {
        lemma_lowercase_match(rows, lowercase(p), i);
    }
    if forall|m: int| 0 <= m < rows.len() ==> lowercase(#[trigger] rows[m]) != lowercase(p) {
        lemma_lowercase_match_absent(rows, lowercase(p));
    }
}

/// Whether the viewer was started as a font chooser (`--select`).
pub fn select_mode_requested(args: &[String]) -> (b: bool)
    ensures
        b == exists|m: int| 0 <= m < args@.len() && args@[m]@ == "--select"@,
{
    let flag = chars_of("--select");
    let mut i: usize = 0;
    while i < args.len()
        invariant
            i <= args@.len(),
            flag@ == "--select"@,
            forall|m: int| 0 <= m < i ==> args@[m]@ != "--select"@,
        decreases args@.len() - i,
    {
        let a = chars_of(args[i].as_str());
        if same_chars(a.as_slice(), flag.as_slice()) {
            return true;
        }
        i = i + 1;
    }
    false
}

/// An argument that names the font to start on: neither the `--select`
/// flag nor the program itself (ending in `cce-fonts`).
pub open spec fn font_argument_candidate(a: Seq<char>) -> bool {
    a != "--select"@ && !has_suffix(a, "cce-fonts"@)
}

/// The first argument that names a font to start on, if any.
pub fn font_argument(args: &[String]) -> (r: Option<String>)
    ensures
        r matches Some(a) ==> exists|m: int|
            0 <= m < args@.len() && args@[m]@ == a@ && font_argument_candidate(a@) && forall|j: int|
                0 <= j < m ==> !font_argument_candidate(#[trigger] args@[j]@),
        r is None ==> forall|m: int| 0 <= m < args@.len() ==> !font_argument_candidate(#[trigger] args@[m]@),
{
    let flag = chars_of("--select");
    let program = chars_of("cce-fonts");
    let mut i: usize = 0;
    while i < args.len()
        invariant
            i <= args@.len(),
            flag@ == "--select"@,
            program@ == "cce-fonts"@,
            forall|m: int| 0 <= m < i ==> !font_argument_candidate(#[trigger] args@[m]@),
        decreases args@.len() - i,
    {
        let a = chars_of(args[i].as_str());
        if !same_chars(a.as_slice(), flag.as_slice()) && !ends_with_chars(a.as_slice(), program.as_slice()) {
            let r = args[i].clone();
            assert(args@[i as int]@ == r@);
            return Some(r);
        }
        i = i + 1;
    }
    None
}

/// The font named on the command line is never the `--select` flag nor the
/// program itself: no argument that ends in `cce-fonts` (the bare program
/// name or any path to it) is taken, and any other argument is.
pub proof fn law_font_argument_is_no_program(a: Seq<char>, path: Seq<char>)
    ensures
        font_argument_candidate(a) <==> a != "--select"@ && !has_suffix(a, "cce-fonts"@),
        !font_argument_candidate(path + "cce-fonts"@),
        !font_argument_candidate("--select"@),
{
    let p = path + "cce-fonts"@;
    assert(p.subrange(p.len() - "cce-fonts"@.len(), p.len() as int) =~= "cce-fonts"@);
}

/// One font size step up (`+`), held at `max`.
pub fn enlarge_font_size(value: i32, max: i32) -> (r: i32)
    requires
        value <= i32::MAX - 2,
    ensures
        r == if value + 2 < max { value + 2 } else { max as int },
{
    let v = value + 2;
    if v < max {
        v
    } else {
        max
    }
}

/// One font size step down (`-`), held at `min`.
pub fn shrink_font_size(value: i32, min: i32) -> (r: i32)
    requires
        value >= i32::MIN + 2,
    ensures
        r == if value - 2 > min { value - 2 } else { min as int },
{
    let v = value - 2;
    if v > min {
        v
    } else {
        min
    }
}

/// How the alphabet preview draws a style: italic for an italic or oblique
/// style, weight 700 for bold, else 300 for light, else 500 for medium,
/// each tested on the lowercase style name.
pub open spec fn look_of(style: Option<Seq<char>>) -> StyleLook {
    match style {
        Some(s) => {
            let l = lowercase(s);
            StyleLook {
                italic: has_substring(l, "italic"@) || has_substring(l, "oblique"@),
                weight: if has_substring(l, "bold"@) {
                    Some(700u16)
                } else if has_substring(l, "light"@) {
                    Some(300u16)
                } else if has_substring(l, "medium"@) {
                    Some(500u16)
                } else {
                    None
                },
            }
        },
        None => StyleLook { italic: false, weight: None },
    }
}

/// How a style is drawn: slanted exactly when its lowercase name holds
/// `italic` or `oblique`; at weight 700 when it holds `bold`, else 300 when
/// it holds `light`, else 500 when it holds `medium`, else at the font's
/// own weight. Without a style, upright at the font's own weight.
pub proof fn law_style_look(s: Seq<char>)
    ensures
        look_of(Some(s)).italic <==> has_substring(lowercase(s), "italic"@) || has_substring(
            lowercase(s),
            "oblique"@,
        ),
        has_substring(lowercase(s), "bold"@) ==> look_of(Some(s)).weight == Some(700u16),
        !has_substring(lowercase(s), "bold"@) && has_substring(lowercase(s), "light"@) ==> look_of(
            Some(s),
        ).weight == Some(300u16),
        !has_substring(lowercase(s), "bold"@) && !has_substring(lowercase(s), "light"@)
            && has_substring(lowercase(s), "medium"@) ==> look_of(Some(s)).weight == Some(500u16),
        !has_substring(lowercase(s), "bold"@) && !has_substring(lowercase(s), "light"@)
            && !has_substring(lowercase(s), "medium"@) ==> look_of(Some(s)).weight is None,
        !look_of(None).italic && look_of(None).weight is None,
{
}

/// How the alphabet preview draws the selected style.
pub fn style_look(style: Option<&str>) -> (r: StyleLook)
    ensures
        r == look_of(match style {
            Some(s) => Some(s@),
            None => None,
        }),
{
    match style {
        None => StyleLook { italic: false, weight: None },
        Some(s) => {
            let l = lowercase_chars(s);
            let italic = chars_of("italic");
            let oblique = chars_of("oblique");
            let bold = chars_of("bold");
            let light = chars_of("light");
            let medium = chars_of("medium");
            let is_italic = contains_chars(l.as_slice(), italic.as_slice()) || contains_chars(
                l.as_slice(),
                oblique.as_slice(),
            );
            let weight = if contains_chars(l.as_slice(), bold.as_slice()) {
                Some(700u16)
            } else if contains_chars(l.as_slice(), light.as_slice()) {
                Some(300u16)
            } else if contains_chars(l.as_slice(), medium.as_slice()) {
                Some(500u16)
            } else {
                None
            };
            StyleLook { italic: is_italic, weight }
        },
    }
}

/// The window: `Select Font`, 900 by 500 (at least 800 by 400) for the
/// chooser, `CCE Fonts`, 1200 by 720 (at least 800 by 500) otherwise.
pub fn window_config(select_mode: bool) -> (w: WindowConfig)
    ensures
        select_mode ==> w.title@ == "Select Font"@ && w.app_id@ == "cce-fonts-select"@
            && w.width == 900 && w.height == 500 && w.min_width == 800 && w.min_height == 400,
        !select_mode ==> w.title@ == "CCE Fonts"@ && w.app_id@ == "cce-fonts"@ && w.width == 1200
            && w.height == 720 && w.min_width == 800 && w.min_height == 500,
{
    if select_mode {
        WindowConfig {
            title: String::from_str("Select Font"),
            app_id: String::from_str("cce-fonts-select"),
            width: 900,
            height: 500,
            min_width: 800,
            min_height: 400,
        }
    } else {
        WindowConfig {
            title: String::from_str("CCE Fonts"),
            app_id: String::from_str("cce-fonts"),
            width: 1200,
            height: 720,
            min_width: 800,
            min_height: 500,
        }
    }
}

/// The controls that take pointer and key events.
#[derive(Debug, Clone, Copy, PartialEq, Eq)]
pub enum Control {
    SearchBox,
    /// A row of the family list.
    FamilyRow(usize),
    OpenFolderButton,
    RemoveFontButton,
    StyleList,
    SizeBox,
    PreviewText,
    CancelButton,
    SelectButton,
}

/// The family rows among the first `shown.len()`, those on screen.
pub open spec fn shown_rows(shown: Seq<bool>) -> Seq<Control>
    decreases shown.len(),
{
    if shown.len() == 0 {
        seq![]
    } else if shown.last() {
        shown_rows(shown.drop_last()).push(Control::FamilyRow((shown.len() - 1) as usize))
    } else {
        shown_rows(shown.drop_last())
    }
}

/// The controls in event order: the search box, the family rows on
/// screen, the preview controls while a family is selected, and the
/// chooser's buttons in select mode; reversed for the order in which a
/// press is offered.
pub open spec fn event_order(
    shown: Seq<bool>,
    family_selected: bool,
    select_mode: bool,
    forward: bool,
) -> Seq<Control> {
    let order = seq![Control::SearchBox] + shown_rows(shown) + (if family_selected {
        seq![
            Control::OpenFolderButton,
            Control::RemoveFontButton,
            Control::StyleList,
            Control::SizeBox,
            Control::PreviewText,
        ]
    } else {
        seq![]
    }) + (if select_mode {
        seq![Control::CancelButton, Control::SelectButton]
    } else {
        seq![]
    });
    if forward {
        order
    } else {
        order.reverse()
    }
}

/// The controls in event order, given which family rows are on screen.
pub fn dispatch_order(
    shown: &[bool],
    family_selected: bool,
    select_mode: bool,
    forward: bool,
) -> (v: Vec<Control>)
    ensures
        v@ == event_order(shown@, family_selected, select_mode, forward),
{
    let mut v: Vec<Control> = Vec::new();
    v.push(Control::SearchBox);
    let mut i: usize = 0;
    while i < shown.len()
        invariant
            i <= shown@.len(),
            v@ == seq![Control::SearchBox] + shown_rows(shown@.take(i as int)),
        decreases shown@.len() - i,
    {
        proof {
            assert(shown@.take(i + 1).drop_last() =~= shown@.take(i as int));
        }
        if shown[i] {
            v.push(Control::FamilyRow(i));
        }
        i = i + 1;
    }
    assert(shown@.take(shown@.len() as int) =~= shown@);
    let ghost base = v@;
    if family_selected {
        v.push(Control::OpenFolderButton);
        v.push(Control::RemoveFontButton);
        v.push(Control::StyleList);
        v.push(Control::SizeBox);
        v.push(Control::PreviewText);
    }
    let ghost mid = v@;
    if select_mode {
        v.push(Control::CancelButton);
        v.push(Control::SelectButton);
    }
    let ghost order = v@;
    assert(order =~= event_order(shown@, family_selected, select_mode, true));
    if !forward {
        let mut r: Vec<Control> = Vec::new();
        let mut j = v.len();
        while j > 0
            invariant
                j <= order.len(),
                v@ == order,
                r@ == order.reverse().take(order.len() - j),
            decreases j,
        {
            j = j - 1;
            r.push(v[j]);
            assert(r@ =~= order.reverse().take(order.len() - j));
        }
        assert(order.reverse().take(order.len() as int) =~= order.reverse());
        return r;
    }
    v
}

} // verus!
