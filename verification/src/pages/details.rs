//! The details page: what is known of the selected font face, and the
//! actions on its file.

use vstd::prelude::*;
use crate::pages::{charset_size, count_charset, is_user_font, user_font_path};
use crate::text::decimal;
use crate::text::decimal_string;

verus! {

/// The face shown on the details page.
#[derive(Debug, Clone)]
pub struct DetailsState {
    pub family: String,
    pub style: String,
    pub file: String,
    pub full_name: String,
    pub charset_count: usize,
    pub charset_str: String,
    pub is_user_font: bool,
}

impl Default for DetailsState {
    fn default() -> (s: Self)
        ensures
            s.family@.len() == 0,
            s.style@.len() == 0,
            s.file@.len() == 0,
            s.full_name@.len() == 0,
            s.charset_count == 0,
            s.charset_str@.len() == 0,
            !s.is_user_font,
    {
        DetailsState {
            family: String::new(),
            style: String::new(),
            file: String::new(),
            full_name: String::new(),
            charset_count: 0,
            charset_str: String::new(),
            is_user_font: false,
        }
    }
}

/// What the details page reacts to.
#[derive(Debug, Clone)]
pub enum DetailsMessage {
    SetFont { family: String, style: String, file: String },
    RemoveFont,
    OpenFolder,
}

/// What the page asks of its host after an update.
#[derive(Debug, Clone)]
pub enum DetailsCommand {
    Nothing,
    /// Ask fc-query for the charset of this file and hand the listing to
    /// `charset_loaded`.
    QueryCharset(String),
    /// Move this user font file to the trash and refresh the font cache.
    TrashFont(String),
    /// Open the folder that holds this file.
    OpenFolder(String),
}

/// Applies a message: a new face takes its names and file, its full name
/// `family style` and whether it is a user font, and its characters are to
/// be counted; removing asks to trash the file when it is a user font;
/// opening the folder asks for the file's folder. Neither acts without a
/// file.
pub fn update(state: &mut DetailsState, msg: DetailsMessage) -> (cmd: DetailsCommand)
    ensures
        match msg {
            DetailsMessage::SetFont { family, style, file } => {
                &&& final(state).family@ == family@
                &&& final(state).style@ == style@
                &&& final(state).file@ == file@
                &&& final(state).full_name@ == family@ + " "@ + style@
                &&& final(state).is_user_font == user_font_path(file@)
                &&& final(state).charset_count == old(state).charset_count
                &&& final(state).charset_str@ == old(state).charset_str@
                &&& cmd matches DetailsCommand::QueryCharset(f) && f@ == file@
            },
            DetailsMessage::RemoveFont => {
                &&& *final(state) == *old(state)
                &&& if old(state).file@.len() > 0 && old(state).is_user_font {
                    cmd matches DetailsCommand::TrashFont(f) && f@ == old(state).file@
                } else {
                    cmd is Nothing
                }
            },
            DetailsMessage::OpenFolder => {
                &&& *final(state) == *old(state)
                &&& if old(state).file@.len() > 0 {
                    cmd matches DetailsCommand::OpenFolder(f) && f@ == old(state).file@
                } else {
                    cmd is Nothing
                }
            },
        },
{
    match msg {
        DetailsMessage::SetFont { family, style, file } => {
            let is_user = is_user_font(file.as_str());
            let query = file.clone();
            let mut full_name = family.clone();
            full_name.append(" ");
            full_name.append(style.as_str());
            state.family = family;
            state.style = style;
            state.file = file;
            state.full_name = full_name;
            state.is_user_font = is_user;
            DetailsCommand::QueryCharset(query)
        },
        DetailsMessage::RemoveFont => {
            if !state.file.as_str().is_empty() && state.is_user_font {
                DetailsCommand::TrashFont(state.file.clone())
            } else {
                DetailsCommand::Nothing
            }
        },
        DetailsMessage::OpenFolder => {
            if !state.file.as_str().is_empty() {
                DetailsCommand::OpenFolder(state.file.clone())
            } else {
                DetailsCommand::Nothing
            }
        },
    }
}

/// Takes the charset that fc-query printed for the face (`None` when the
/// query could not be run): its decimal code points and ranges are counted,
/// no listing counting as none. Returns `false`, changing nothing, where the
/// count cannot be taken (see `count_charset`).
pub fn charset_loaded(state: &mut DetailsState, listing: Option<&str>) -> (ok: bool)
    ensures
        ok == (match listing {
            Some(t) => charset_size(t@, 10) is Some,
            None => true,
        }),
        ok ==> final(state).charset_count == (match listing {
            Some(t) => charset_size(t@, 10).unwrap(),
            None => 0,
        }),
        ok ==> final(state).charset_str@ == decimal(final(state).charset_count as nat),
        !ok ==> *final(state) == *old(state),
        final(state).family == old(state).family,
        final(state).style == old(state).style,
        final(state).file == old(state).file,
        final(state).full_name == old(state).full_name,
        final(state).is_user_font == old(state).is_user_font,
{
    let count = match listing {
        Some(t) => match count_charset(t, 10) {
            Some(n) => n,
            None => {
                return false;
            },
        },
        None => 0,
    };
    state.charset_count = count;
    state.charset_str = decimal_string(count);
    true
}

} // verus!
