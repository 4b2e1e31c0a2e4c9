//! The preview page: the selected family, its styles, and the face a style
//! picks.

use vstd::prelude::*;
use crate::pages::browse::{entries_for_family, family_entries, texts};
use crate::pages::{copy_entry, faces, FontEntry, FontFace};
use crate::text::{chars_of, same_chars};

verus! {

/// The style of every face.
pub open spec fn style_names(fs: Seq<FontFace>) -> Seq<Seq<char>> {
    fs.map_values(|f: FontFace| f.style)
}

/// The style a family opens with: `Regular` when it has one, else its
/// first style, else none.
pub open spec fn default_style(styles: Seq<Seq<char>>) -> Seq<char> {
    if styles.contains("Regular"@) {
        "Regular"@
    } else if styles.len() > 0 {
        styles[0]
    } else {
        Seq::empty()
    }
}

/// The file of the first face in `fs` with style `style`, or nothing.
pub open spec fn file_of_style(fs: Seq<FontFace>, style: Seq<char>) -> Seq<char>
    decreases fs.len(),
{
    if fs.len() == 0 {
        Seq::empty()
    } else if fs[0].style == style {
        fs[0].file
    } else {
        file_of_style(fs.drop_first(), style)
    }
}

/// What the preview page holds: the family and its faces, the chosen style
/// and its file, and the sample text.
#[derive(Debug, Clone)]
pub struct PreviewState {
    pub family: String,
    pub style: String,
    pub file: String,
    pub preview_text: String,
    /// All entries of the selected family.
    pub family_entries: Vec<FontEntry>,
    /// The styles offered for the family, one per entry.
    pub styles: Vec<String>,
}

impl PreviewState {
    /// No family, and the pangram as the sample text.
    pub fn new() -> (s: Self)
        ensures
            s.family@.len() == 0,
            s.style@.len() == 0,
            s.file@.len() == 0,
            s.preview_text@ == "The quick brown fox jumps over the lazy dog"@,
            s.family_entries@.len() == 0,
            s.styles@.len() == 0,
    {
        PreviewState {
            family: String::new(),
            style: String::new(),
            file: String::new(),
            preview_text: String::from_str("The quick brown fox jumps over the lazy dog"),
            family_entries: Vec::new(),
            styles: Vec::new(),
        }
    }
}

/// What the preview page reacts to.
#[derive(Debug, Clone)]
pub enum PreviewMessage {
    SetFamily { family: String },
    StyleSelected(String),
    PreviewTextChanged(String),
}

/// The file of the first entry in `entries` with style `style`, or an
/// empty string.
fn file_for_style(entries: &Vec<FontEntry>, style: &str) -> (file: String)
    ensures
        file@ == file_of_style(faces(entries@), style@),
{
    let st = chars_of(style);
    let ghost fs = faces(entries@);
    let mut i: usize = 0;
    assert(fs.skip(0) =~= fs);
    while i < entries.len()
        invariant
            i <= entries@.len(),
            fs == faces(entries@),
            st@ == style@,
            file_of_style(fs, style@) == file_of_style(fs.skip(i as int), style@),
        decreases entries@.len() - i,
    {
        let s = chars_of(entries[i].style.as_str());
        proof {
            assert(fs.skip(i as int)[0] == fs[i as int]);
            assert(fs.skip(i as int).drop_first() =~= fs.skip(i + 1));
        }
        if same_chars(s.as_slice(), st.as_slice()) {
            return entries[i].file.clone();
        }
        i = i + 1;
    }
    proof {
        assert(fs.skip(i as int).len() == 0);
    }
    String::new()
}

/// The style a family opens with.
fn pick_default_style(styles: &Vec<String>) -> (s: String)
    ensures
        s@ == default_style(texts(styles@)),
{
    let ghost ts = texts(styles@);
    let regular = chars_of("Regular");
    let mut i: usize = 0;
    while i < styles.len()
        invariant
            i <= styles@.len(),
            ts == texts(styles@),
            regular@ == "Regular"@,
            forall|m: int| 0 <= m < i ==> ts[m] != "Regular"@,
        decreases styles@.len() - i,
    {
        let c = chars_of(styles[i].as_str());
        if same_chars(c.as_slice(), regular.as_slice()) {
            assert(ts[i as int] == "Regular"@);
            return styles[i].clone();
        }
        i = i + 1;
    }
    assert(!ts.contains("Regular"@));
    if styles.len() > 0 {
        styles[0].clone()
    } else {
        String::new()
    }
}

/// Applies a message: a family takes its entries from `all_fonts`, offers
/// their styles, opens on its default style and that style's file; a chosen
/// style takes the file of its first entry; new sample text replaces the old.
pub fn update(state: &mut PreviewState, msg: PreviewMessage, all_fonts: &[FontEntry])
    ensures
        match msg {
            PreviewMessage::SetFamily { family } => {
                let entries = family_entries(faces(all_fonts@), family@);
                &&& final(state).family@ == family@
                &&& faces(final(state).family_entries@) == entries
                &&& texts(final(state).styles@) == style_names(entries)
                &&& final(state).style@ == default_style(style_names(entries))
                &&& final(state).file@ == file_of_style(entries, final(state).style@)
                &&& final(state).preview_text == old(state).preview_text
            },
            PreviewMessage::StyleSelected(style) => {
                &&& final(state).style@ == style@
                &&& final(state).file@ == file_of_style(
                    faces(old(state).family_entries@),
                    style@,
                )
                &&& final(state).family == old(state).family
                &&& final(state).family_entries@ == old(state).family_entries@
                &&& final(state).styles@ == old(state).styles@
                &&& final(state).preview_text == old(state).preview_text
            },
            PreviewMessage::PreviewTextChanged(t) => {
                &&& final(state).preview_text@ == t@
                &&& final(state).family == old(state).family
                &&& final(state).style == old(state).style
                &&& final(state).file == old(state).file
                &&& final(state).family_entries@ == old(state).family_entries@
                &&& final(state).styles@ == old(state).styles@
            },
        },
{
    match msg {
        PreviewMessage::SetFamily { family } => {
            let refs = entries_for_family(all_fonts, family.as_str());
            let ghost entries = family_entries(faces(all_fonts@), family@);
            let mut owned: Vec<FontEntry> = Vec::new();
            let mut styles: Vec<String> = Vec::new();
            let mut i: usize = 0;
            while i < refs.len()
                invariant
                    i <= refs@.len(),
                    refs@.map_values(|e: &FontEntry| e@) == entries,
                    faces(owned@) == entries.take(i as int),
                    texts(styles@) == style_names(entries.take(i as int)),
                decreases refs@.len() - i,
            {
                let e = copy_entry(refs[i]);
                let st = e.style.clone();
                let ghost before_o = owned@;
                let ghost before_s = styles@;
                owned.push(e);
                styles.push(st);
                proof {
                    assert(entries[i as int] == refs@[i as int]@);
                    assert(entries.take(i + 1) =~= entries.take(i as int).push(entries[i as int]));
                    assert(faces(owned@) =~= faces(before_o).push(e@));
                    assert(texts(styles@) =~= texts(before_s).push(st@));
                    assert(style_names(entries.take(i + 1)) =~= style_names(entries.take(i as int)).push(
                        entries[i as int].style,
                    ));
                }
                i = i + 1;
            }
            proof {
                assert(entries.take(refs@.len() as int) =~= entries);
            }
            let style = pick_default_style(&styles);
            let file = file_for_style(&owned, style.as_str());
            state.family = family;
            state.family_entries = owned;
            state.styles = styles;
            state.style = style;
            state.file = file;
        },
        PreviewMessage::StyleSelected(style) => {
            let file = file_for_style(&state.family_entries, style.as_str());
            state.style = style;
            state.file = file;
        },
        PreviewMessage::PreviewTextChanged(t) => {
            state.preview_text = t;
        },
    }
}

/// A chosen style picks the file of the first face whose style is exactly
/// that style, and no file when the family has no face of that style.
pub proof fn law_style_picks_the_file_of_its_own_face(fs: Seq<FontFace>, style: Seq<char>)
    ensures
        (exists|i: int| 0 <= i < fs.len() && fs[i].style == style) ==> exists|i: int|
            0 <= i < fs.len() && #[trigger] fs[i].style == style && file_of_style(fs, style)
                == fs[i].file && forall|j: int| 0 <= j < i ==> (#[trigger] fs[j]).style != style,
        (forall|i: int| 0 <= i < fs.len() ==> (#[trigger] fs[i]).style != style) ==> file_of_style(
            fs,
            style,
        ).len() == 0,
    decreases fs.len(),
{
    if fs.len() > 0 {
        let rest = fs.drop_first();
        law_style_picks_the_file_of_its_own_face(rest, style);
        if fs[0].style != style {
            if exists|i: int| 0 <= i < fs.len() && fs[i].style == style {
                let i = choose|i: int| 0 <= i < fs.len() && fs[i].style == style;
                assert(rest[i - 1].style == style);
                let k = choose|k: int|
                    0 <= k < rest.len() && #[trigger] rest[k].style == style && file_of_style(rest, style)
                        == rest[k].file && forall|j: int| 0 <= j < k ==> (#[trigger] rest[j]).style != style;
                assert(fs[k + 1] == rest[k]);
                assert forall|j: int| 0 <= j < k + 1 implies (#[trigger] fs[j]).style != style by {
                    if j > 0 {
                        assert(fs[j] == rest[j - 1]);
                    }
                }
            }
            if forall|i: int| 0 <= i < fs.len() ==> (#[trigger] fs[i]).style != style {
                assert forall|i: int| 0 <= i < rest.len() implies (#[trigger] rest[i]).style != style by {
                    assert(rest[i] == fs[i + 1]);
                }
            }
        }
    }
}

} // verus!
