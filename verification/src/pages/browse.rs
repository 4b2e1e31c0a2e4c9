//! The browse page: the family list, its search filter and keyboard
//! navigation.

use vstd::prelude::*;
use crate::pages::{faces, FontFace};
use crate::text::{
    chars_of, contains_chars, has_substring, lemma_empty_substring, lemma_substring_transitive,
    lemma_text_lt_asymmetric,
    lemma_text_lt_irreflexive,
    lemma_text_lt_total, lemma_text_lt_transitive, lowercase, lowercase_chars, same_chars,
    text_less, text_lt,
};

pub use crate::pages::FontEntry;

verus! {

/// The characters of each string.
pub open spec fn texts(v: Seq<String>) -> Seq<Seq<char>> {
    v.map_values(|s: String| s@)
}

/// Every text comes strictly before the ones after it.
pub open spec fn strictly_sorted(s: Seq<Seq<char>>) -> bool {
    forall|a: int, b: int| 0 <= a < b < s.len() ==> text_lt(#[trigger] s[a], #[trigger] s[b])
}

/// The family of every face.
pub open spec fn family_names(fs: Seq<FontFace>) -> Seq<Seq<char>> {
    fs.map_values(|f: FontFace| f.family)
}

/// The family names of `fonts`, each once, in the order of `String`
/// (what collecting them into a `BTreeSet` gives).
pub fn extract_families(fonts: &[FontEntry]) -> (r: Vec<String>)
    ensures
        strictly_sorted(texts(r@)),
        texts(r@).to_set() == family_names(faces(fonts@)).to_set(),
{
    let mut r: Vec<String> = Vec::new();
    let mut keys: Vec<Vec<char>> = Vec::new();
    let ghost names = family_names(faces(fonts@));
    let mut i: usize = 0;
    while i < fonts.len()
        invariant
            i <= fonts@.len(),
            names == family_names(faces(fonts@)),
            keys@.len() == r@.len(),
            forall|m: int| 0 <= m < r@.len() ==> #[trigger] keys@[m]@ == r@[m]@,
            strictly_sorted(texts(r@)),
            texts(r@).to_set() == names.take(i as int).to_set(),
        decreases fonts@.len() - i,
    {
        let f = chars_of(fonts[i].family.as_str());
        let ghost name = f@;
        assert(name == names[i as int]);
        let mut j: usize = 0;
        while j < keys.len() && text_less(keys[j].as_slice(), f.as_slice())
            invariant
                j <= keys@.len(),
                keys@.len() == r@.len(),
                forall|m: int| 0 <= m < r@.len() ==> #[trigger] keys@[m]@ == r@[m]@,
                forall|m: int| 0 <= m < j ==> text_lt(#[trigger] keys@[m]@, name),
                f@ == name,
            decreases keys@.len() - j,
        {
            j = j + 1;
        }
        let ghost old_r = r@;
        let ghost old_keys = keys@;
        let ghost old_texts = texts(r@);
        assert(names.take(i + 1) =~= names.take(i as int).push(name));
        proof {
            names.take(i as int).lemma_push_to_set_commute(name);
        }
        if j < keys.len() && same_chars(keys[j].as_slice(), f.as_slice()) {
            proof {
                assert(old_texts[j as int] == name);
                assert(old_texts.to_set().contains(name));
                assert(old_texts.to_set().insert(name) =~= old_texts.to_set());
            }
        } else {
            proof {
                if j < keys@.len() {
                    lemma_text_lt_total(name, old_texts[j as int]);
                    assert(!text_lt(old_texts[j as int], name));
                    assert(text_lt(name, old_texts[j as int]));
                }
            }
            let s = fonts[i].family.clone();
            r.insert(j, s);
            keys.insert(j, f);
            proof {
                let nt = texts(r@);
                assert(nt =~= old_texts.insert(j as int, name));
                assert forall|m: int| 0 <= m < r@.len() implies #[trigger] keys@[m]@ == r@[m]@ by {
                    if m < j {
                        assert(keys@[m] == old_keys[m]);
                        assert(r@[m] == old_r[m]);
                    } else if m > j {
                        assert(keys@[m] == old_keys[m - 1]);
                        assert(r@[m] == old_r[m - 1]);
                    }
                }
                assert forall|a: int, b: int| 0 <= a < b < nt.len() implies text_lt(
                    #[trigger] nt[a],
                    #[trigger] nt[b],
                ) by {
                    if b < j {
                        assert(text_lt(old_texts[a], old_texts[b]));
                    } else if b == j {
                        assert(text_lt(old_keys[a]@, name));
                    } else if a == j {
                        assert(nt[b] == old_texts[b - 1]);
                        if b - 1 > j {
                            assert(text_lt(old_texts[j as int], old_texts[b - 1]));
                            lemma_text_lt_transitive(name, old_texts[j as int], old_texts[b - 1]);
                        }
                    } else if a < j {
                        assert(nt[b] == old_texts[b - 1]);
                        assert(text_lt(old_texts[a], old_texts[b - 1]));
                    } else {
                        assert(text_lt(old_texts[a - 1], old_texts[b - 1]));
                    }
                }
                assert(nt.to_set() =~= old_texts.to_set().insert(name)) by {
                    assert forall|x: Seq<char>| nt.to_set().contains(x) implies old_texts.to_set().insert(name).contains(x) by {
                        let m = choose|m: int| 0 <= m < nt.len() && nt[m] == x;
                        if m < j {
                            assert(old_texts[m] == x);
                        } else if m > j {
                            assert(old_texts[m - 1] == x);
                        }
                    }
                    assert forall|x: Seq<char>| old_texts.to_set().insert(name).contains(x) implies nt.to_set().contains(x) by {
                        if x == name {
                            assert(nt[j as int] == x);
                        } else {
                            let m = choose|m: int| 0 <= m < old_texts.len() && old_texts[m] == x;
                            if m < j {
                                assert(nt[m] == x);
                            } else {
                                assert(nt[m + 1] == x);
                            }
                        }
                    }
                }
            }
        }
        i = i + 1;
    }
    assert(names.take(fonts@.len() as int) =~= names);
    r
}

/// The families whose lowercase name holds the lowercase query.
pub open spec fn matches_query(family: Seq<char>, query: Seq<char>) -> bool {
    has_substring(lowercase(family), lowercase(query))
}

/// The families that a search for `query` shows: those whose lowercase
/// name holds the lowercase query, in their order (every family, where the
/// query is empty).
pub open spec fn filtered_families(families: Seq<Seq<char>>, query: Seq<char>) -> Seq<Seq<char>> {
    families.filter(|f: Seq<char>| matches_query(f, query))
}

/// The families that a search for `query` shows.
pub fn filter_families(families: &[String], query: &str) -> (r: Vec<String>)
    ensures
        texts(r@) == filtered_families(texts(families@), query@),
        query@.len() == 0 ==> texts(r@) == texts(families@),
{
    let ghost fs = texts(families@);
    let ghost pred = |f: Seq<char>| matches_query(f, query@);
    let q = lowercase_chars(query);
    if query.is_empty() {
        let mut r: Vec<String> = Vec::new();
        let mut i: usize = 0;
        while i < families.len()
            invariant
                i <= families@.len(),
                fs == texts(families@),
                texts(r@) == fs.take(i as int),
            decreases families@.len() - i,
        {
            let s = families[i].clone();
            let ghost before = r@;
            r.push(s);
            assert(texts(r@) =~= texts(before).push(s@));
            assert(fs.take(i + 1) =~= fs.take(i as int).push(s@));
            i = i + 1;
        }
        assert(fs.take(families@.len() as int) =~= fs);
        proof {
            assert forall|k: int| 0 <= k < fs.len() implies #[trigger] pred(fs[k]) by {
                lemma_empty_substring(lowercase(fs[k]), lowercase(query@));
            }
            lemma_filter_keeps_all(fs, pred);
        }
        return r;
    }
    let mut r: Vec<String> = Vec::new();
    let mut i: usize = 0;
    while i < families.len()
        invariant
            i <= families@.len(),
            fs == texts(families@),
            q@ == lowercase(query@),
            pred == (|f: Seq<char>| matches_query(f, query@)),
            texts(r@) == fs.take(i as int).filter(pred),
        decreases families@.len() - i,
    {
        let low = lowercase_chars(families[i].as_str());
        let keep = contains_chars(low.as_slice(), q.as_slice());
        proof {
            assert(fs.take(i + 1) =~= fs.take(i as int).push(fs[i as int]));
            fs.take(i as int).lemma_filter_push(fs[i as int], pred);
            assert(keep == pred(fs[i as int]));
        }
        if keep {
            let s = families[i].clone();
            let ghost before = r@;
            r.push(s);
            assert(texts(r@) =~= texts(before).push(s@));
        }
        i = i + 1;
    }
    assert(fs.take(families@.len() as int) =~= fs);
    r
}

/// The entries of one family, in their order.
pub open spec fn family_entries(fonts: Seq<FontFace>, family: Seq<char>) -> Seq<FontFace> {
    fonts.filter(|f: FontFace| f.family == family)
}

/// Every entry of `all_fonts` whose family is `family`.
pub fn entries_for_family<'a>(all_fonts: &'a [FontEntry], family: &str) -> (r: Vec<&'a FontEntry>)
    ensures
        r@.map_values(|e: &FontEntry| e@) == family_entries(faces(all_fonts@), family@),
{
    let ghost fs = faces(all_fonts@);
    let ghost pred = |f: FontFace| f.family == family@;
    let fam = chars_of(family);
    let mut r: Vec<&'a FontEntry> = Vec::new();
    let mut i: usize = 0;
    while i < all_fonts.len()
        invariant
            i <= all_fonts@.len(),
            fs == faces(all_fonts@),
            fam@ == family@,
            pred == (|f: FontFace| f.family == family@),
            r@.map_values(|e: &FontEntry| e@) == fs.take(i as int).filter(pred),
        decreases all_fonts@.len() - i,
    {
        let e = &all_fonts[i];
        let name = chars_of(e.family.as_str());
        let keep = same_chars(name.as_slice(), fam.as_slice());
        proof {
            assert(fs.take(i + 1) =~= fs.take(i as int).push(fs[i as int]));
            fs.take(i as int).lemma_filter_push(fs[i as int], pred);
        }
        if keep {
            let ghost before = r@;
            r.push(e);
            assert(r@.map_values(|e: &FontEntry| e@) =~= before.map_values(|e: &FontEntry| e@).push(
                e@,
            ));
        }
        i = i + 1;
    }
    assert(fs.take(all_fonts@.len() as int) =~= fs);
    r
}

// ---------------------------------------------------------------------------
// Page state
// ---------------------------------------------------------------------------

/// What the browse page holds: every font entry, the family list, the part
/// of it the search shows, the search text and the highlighted row.
#[derive(Debug, Clone)]
pub struct BrowseState {
    /// All font entries (one per family and style).
    pub all_fonts: Vec<FontEntry>,
    /// The family names, each once, in order.
    pub families: Vec<String>,
    /// The families that match the search.
    pub filtered: Vec<String>,
    pub search: String,
    /// Index into `filtered` of the highlighted family.
    pub selected: Option<usize>,
}

impl BrowseState {
    /// The highlighted row, if any, is a row of `filtered`.
    pub open spec fn selects_in_filtered(&self) -> bool {
        self.selected matches Some(i) ==> i < self.filtered@.len()
    }
}

impl Default for BrowseState {
    fn default() -> (s: Self)
        ensures
            s.all_fonts@.len() == 0,
            s.families@.len() == 0,
            s.filtered@.len() == 0,
            s.search@.len() == 0,
            s.selected is None,
    {
        BrowseState {
            all_fonts: Vec::new(),
            families: Vec::new(),
            filtered: Vec::new(),
            search: String::new(),
            selected: None,
        }
    }
}

/// What the browse page reacts to.
#[derive(Debug, Clone)]
pub enum BrowseMessage {
    SearchChanged(String),
    SelectFamily(usize),
    FontsLoaded(Vec<FontEntry>),
    Tick,
}

/// What the page asks of its host after an update.
#[derive(Debug, Clone, Copy, PartialEq, Eq)]
pub enum BrowseCommand {
    Nothing,
    /// Read the font list again and answer with `FontsLoaded`.
    LoadFonts,
}

/// A step through the family list.
#[derive(Debug, Clone, Copy, PartialEq, Eq)]
pub enum BrowseNavigation {
    Up,
    Down,
}

/// The row a step lands on in a list of `len` rows: nothing in an empty
/// list; from no highlight, the first row going down and the last going up;
/// otherwise one row up or down, stopping at either end.
pub open spec fn next_index(len: nat, selected: Option<usize>, direction: BrowseNavigation) -> Option<int> {
    if len == 0 {
        None
    } else {
        match (selected, direction) {
            (Some(i), BrowseNavigation::Up) => Some(if i == 0 { 0 } else { i - 1 }),
            (Some(i), BrowseNavigation::Down) => Some(if i + 1 < len - 1 { i + 1 } else { len - 1 }),
            (None, BrowseNavigation::Up) => Some(len - 1),
            (None, BrowseNavigation::Down) => Some(0),
        }
    }
}

/// The row that a step from the highlighted one lands on.
pub fn next_selection_index(state: &BrowseState, direction: BrowseNavigation) -> (r: Option<usize>)
    requires
        state.filtered@.len() > 0 && direction is Down ==> state.selected != Some(usize::MAX),
    ensures
        r matches Some(i) ==> next_index(state.filtered@.len(), state.selected, direction) == Some(
            i as int,
        ),
        r is None ==> next_index(state.filtered@.len(), state.selected, direction) is None,
{
    step_index(state.filtered.len(), state.selected, direction)
}

/// The row that a step from row `selected` lands on in a list of `len` rows.
pub fn step_index(len: usize, selected: Option<usize>, direction: BrowseNavigation) -> (r: Option<
    usize,
>)
    requires
        len > 0 && direction is Down ==> selected != Some(usize::MAX),
    ensures
        r matches Some(i) ==> next_index(len as nat, selected, direction) == Some(i as int),
        r is None ==> next_index(len as nat, selected, direction) is None,
{
    if len == 0 {
        return None;
    }
    match (selected, direction) {
        (Some(index), BrowseNavigation::Up) => Some(index.saturating_sub(1)),
        (Some(index), BrowseNavigation::Down) => Some(
            if index + 1 < len - 1 {
                index + 1
            } else {
                len - 1
            },
        ),
        (None, BrowseNavigation::Up) => Some(len - 1),
        (None, BrowseNavigation::Down) => Some(0),
    }
}

/// Applies a message to the page: a new search refilters the families and
/// clears the highlight; a click highlights a row; a loaded font list
/// replaces the entries and rebuilds the family list under the current
/// search, keeping the highlight only where its row still exists; a tick
/// asks for the font list to be read again. A highlight that is a row of
/// `filtered` stays one, given a click on a row of it.
pub fn update(state: &mut BrowseState, msg: BrowseMessage) -> (cmd: BrowseCommand)
    ensures
        match msg {
            BrowseMessage::SearchChanged(q) => {
                &&& final(state).search@ == q@
                &&& texts(final(state).filtered@) == filtered_families(texts(old(state).families@), q@)
                &&& final(state).selected is None
                &&& final(state).families@ == old(state).families@
                &&& final(state).all_fonts@ == old(state).all_fonts@
                &&& cmd == BrowseCommand::Nothing
            },
            BrowseMessage::SelectFamily(i) => {
                &&& final(state).selected == Some(i)
                &&& final(state).search@ == old(state).search@
                &&& final(state).filtered@ == old(state).filtered@
                &&& final(state).families@ == old(state).families@
                &&& final(state).all_fonts@ == old(state).all_fonts@
                &&& cmd == BrowseCommand::Nothing
            },
            BrowseMessage::FontsLoaded(fonts) => {
                &&& final(state).all_fonts@ == fonts@
                &&& strictly_sorted(texts(final(state).families@))
                &&& texts(final(state).families@).to_set() == family_names(faces(fonts@)).to_set()
                &&& texts(final(state).filtered@) == filtered_families(
                    texts(final(state).families@),
                    old(state).search@,
                )
                &&& final(state).search@ == old(state).search@
                &&& final(state).selected == match old(state).selected {
                    Some(i) => if i < final(state).filtered@.len() { Some(i) } else { None },
                    None => None,
                }
                &&& cmd == BrowseCommand::Nothing
            },
            BrowseMessage::Tick => {
                &&& *final(state) == *old(state)
                &&& cmd == BrowseCommand::LoadFonts
            },
        },
        old(state).selects_in_filtered() && (msg matches BrowseMessage::SelectFamily(i) ==> i
            < old(state).filtered@.len()) ==> final(state).selects_in_filtered(),
{
    match msg {
        BrowseMessage::SearchChanged(q) => {
            state.search = q;
            state.filtered = filter_families(state.families.as_slice(), state.search.as_str());
            state.selected = None;
            BrowseCommand::Nothing
        },
        BrowseMessage::SelectFamily(i) => {
            state.selected = Some(i);
            BrowseCommand::Nothing
        },
        BrowseMessage::FontsLoaded(fonts) => {
            let families = extract_families(fonts.as_slice());
            let filtered = filter_families(families.as_slice(), state.search.as_str());
            state.families = families;
            state.filtered = filtered;
            state.all_fonts = fonts;
            if let Some(i) = state.selected {
                if i >= state.filtered.len() {
                    state.selected = None;
                }
            }
            BrowseCommand::Nothing
        },
        BrowseMessage::Tick => BrowseCommand::LoadFonts,
    }
}

// ---------------------------------------------------------------------------
// Laws
// ---------------------------------------------------------------------------

/// The family list names each family once.
pub proof fn law_family_list_has_no_repeats(s: Seq<Seq<char>>)
    requires
        strictly_sorted(s),
    ensures
        s.no_duplicates(),
{
    assert forall|i: int, j: int| 0 <= i < s.len() && 0 <= j < s.len() && i != j implies s[i]
        != s[j] by {
        if i < j {
            assert(text_lt(s[i], s[j]));
            lemma_text_lt_irreflexive(s[i]);
        } else {
            assert(text_lt(s[j], s[i]));
            lemma_text_lt_irreflexive(s[j]);
        }
    }
}

proof fn lemma_sorted_first_is_least(s: Seq<Seq<char>>, x: Seq<char>)
    requires
        strictly_sorted(s),
        s.len() > 0,
        s.to_set().contains(x),
        x != s[0],
    ensures
        text_lt(s[0], x),
{
    let m = choose|m: int| 0 <= m < s.len() && s[m] == x;
    assert(m != 0);
    assert(text_lt(s[0], s[m]));
}

/// The family list is fixed by the set of family names: two lists, each
/// strictly ordered, that hold the same names are equal.
pub proof fn law_family_list_is_determined(a: Seq<Seq<char>>, b: Seq<Seq<char>>)
    requires
        strictly_sorted(a),
        strictly_sorted(b),
        a.to_set() == b.to_set(),
    ensures
        a == b,
    decreases a.len(),
{
    if a.len() == 0 {
        if b.len() > 0 {
            assert(b.to_set().contains(b[0]));
        }
        assert(a =~= b);
    } else {
        assert(a.to_set().contains(a[0]));
        assert(b.len() > 0);
        assert(b.to_set().contains(b[0]));
        if a[0] != b[0] {
            lemma_sorted_first_is_least(a, b[0]);
            lemma_sorted_first_is_least(b, a[0]);
            lemma_text_lt_asymmetric(a[0], b[0]);
        }
        let ta = a.drop_first();
        let tb = b.drop_first();
        assert(strictly_sorted(ta)) by {
            assert forall|i: int, j: int| 0 <= i < j < ta.len() implies text_lt(#[trigger] ta[i], #[trigger] ta[j]) by {
                assert(ta[i] == a[i + 1] && ta[j] == a[j + 1]);
            }
        }
        assert(strictly_sorted(tb)) by {
            assert forall|i: int, j: int| 0 <= i < j < tb.len() implies text_lt(#[trigger] tb[i], #[trigger] tb[j]) by {
                assert(tb[i] == b[i + 1] && tb[j] == b[j + 1]);
            }
        }
        assert(ta.to_set() =~= tb.to_set()) by {
            assert forall|x: Seq<char>| ta.to_set().contains(x) implies tb.to_set().contains(x) by {
                let m = choose|m: int| 0 <= m < ta.len() && ta[m] == x;
                assert(a[m + 1] == x);
                assert(text_lt(a[0], a[m + 1]));
                lemma_text_lt_irreflexive(x);
                assert(b.to_set().contains(x));
                let n = choose|n: int| 0 <= n < b.len() && b[n] == x;
                assert(n != 0);
                assert(tb[n - 1] == x);
            }
            assert forall|x: Seq<char>| tb.to_set().contains(x) implies ta.to_set().contains(x) by {
                let m = choose|m: int| 0 <= m < tb.len() && tb[m] == x;
                assert(b[m + 1] == x);
                assert(text_lt(b[0], b[m + 1]));
                lemma_text_lt_irreflexive(x);
                assert(a.to_set().contains(x));
                let n = choose|n: int| 0 <= n < a.len() && a[n] == x;
                assert(n != 0);
                assert(ta[n - 1] == x);
            }
        }
        law_family_list_is_determined(ta, tb);
        assert(a =~= seq![a[0]] + ta);
        assert(b =~= seq![b[0]] + tb);
    }
}

/// A search shows exactly the families whose lowercase name holds the
/// lowercase query, whatever the query's length: every family shown is in
/// the list and holds it, and every family of the list that holds it is
/// shown.
pub proof fn law_search_shows_matches(families: Seq<Seq<char>>, query: Seq<char>)
    ensures
        forall|f: Seq<char>| #[trigger] matches_query(f, query) <==> has_substring(lowercase(f), lowercase(query)),
        forall|i: int|
            0 <= i < filtered_families(families, query).len() ==> families.contains(
                #[trigger] filtered_families(families, query)[i],
            ) && has_substring(lowercase(filtered_families(families, query)[i]), lowercase(query)),
        forall|i: int|
            0 <= i < families.len() && has_substring(lowercase(families[i]), lowercase(query))
                ==> filtered_families(families, query).contains(#[trigger] families[i]),
{
    let pred = |f: Seq<char>| matches_query(f, query);
    broadcast use Seq::lemma_filter_pred, Seq::lemma_filter_contains, Seq::lemma_filter_contains_rev;

    assert forall|i: int|
        0 <= i < filtered_families(families, query).len() implies families.contains(
        #[trigger] filtered_families(families, query)[i],
    ) && has_substring(lowercase(filtered_families(families, query)[i]), lowercase(query)) by {
        let x = families.filter(pred)[i];
        assert(families.filter(pred).contains(x));
        assert(pred(x));
    }
    assert forall|i: int|
        0 <= i < families.len() && has_substring(lowercase(families[i]), lowercase(query))
            implies filtered_families(families, query).contains(#[trigger] families[i]) by {
        assert(pred(families[i]));
    }
}

/// Searching the shown families again for the same query shows them all
/// again: the filter is idempotent.
pub proof fn law_search_is_idempotent(families: Seq<Seq<char>>, query: Seq<char>)
    ensures
        filtered_families(filtered_families(families, query), query) == filtered_families(
            families,
            query,
        ),
{
    let pred = |f: Seq<char>| matches_query(f, query);
    lemma_filter_narrower(families, pred, pred);
}

/// Filtering by a weaker test first changes nothing: where `narrow` implies
/// `wide`, keeping what passes `wide` and then what passes `narrow` keeps
/// what passes `narrow`.
proof fn lemma_filter_narrower(
    s: Seq<Seq<char>>,
    wide: spec_fn(Seq<char>) -> bool,
    narrow: spec_fn(Seq<char>) -> bool,
)
    requires
        forall|f: Seq<char>| #[trigger] narrow(f) ==> wide(f),
    ensures
        s.filter(wide).filter(narrow) == s.filter(narrow),
    decreases s.len(),
{
    if s.len() > 0 {
        lemma_filter_narrower(s.drop_last(), wide, narrow);
        assert(s =~= s.drop_last().push(s.last()));
        s.drop_last().lemma_filter_push(s.last(), wide);
        s.drop_last().lemma_filter_push(s.last(), narrow);
        if wide(s.last()) {
            s.drop_last().filter(wide).lemma_filter_push(s.last(), narrow);
        }
    } else {
        reveal(Seq::filter);
    }
}

/// Narrowing a search: where the lowercase `narrow` query holds the
/// lowercase `wide` one, searching for `narrow` among the families that
/// `wide` shows gives what searching for `narrow` among all of them gives.
/// So the narrower search shows a subsequence of what the wider one shows,
/// in the same order.
pub proof fn law_narrower_search_shows_fewer(
    families: Seq<Seq<char>>,
    wide: Seq<char>,
    narrow: Seq<char>,
)
    requires
        has_substring(lowercase(narrow), lowercase(wide)),
    ensures
        filtered_families(filtered_families(families, wide), narrow) == filtered_families(
            families,
            narrow,
        ),
{
    let pw = |f: Seq<char>| matches_query(f, wide);
    let pn = |f: Seq<char>| matches_query(f, narrow);
    assert forall|f: Seq<char>| #[trigger] pn(f) implies pw(f) by {
        lemma_substring_transitive(lowercase(f), lowercase(narrow), lowercase(wide));
    }
    lemma_filter_narrower(families, pw, pn);
}

/// A step through a non-empty list never leaves it: from no row or from a
/// row of the list, it lands on a row of the list.
pub proof fn law_navigation_stays_in_bounds(len: nat, selected: Option<usize>, direction: BrowseNavigation)
    requires
        len > 0,
        selected matches Some(i) ==> i < len,
    ensures
        next_index(len, selected, direction) matches Some(i) && 0 <= i < len,
{
}

/// A step through an empty list lands nowhere.
pub proof fn law_navigation_in_empty_list(selected: Option<usize>, direction: BrowseNavigation)
    ensures
        next_index(0, selected, direction) is None,
{
}

/// How many entries the entry lists of the families `names` hold together.
pub open spec fn entries_of_families(fonts: Seq<FontFace>, names: Seq<Seq<char>>) -> nat
    decreases names.len(),
{
    if names.len() == 0 {
        0
    } else {
        entries_of_families(fonts, names.drop_last()) + family_entries(fonts, names.last()).len()
    }
}

/// The test that a face's family is one of `names`.
pub open spec fn in_families(names: Seq<Seq<char>>) -> spec_fn(FontFace) -> bool {
    |f: FontFace| names.contains(f.family)
}

proof fn lemma_contains_push(names: Seq<Seq<char>>, n: Seq<char>, x: Seq<char>)
    ensures
        names.push(n).contains(x) <==> names.contains(x) || x == n,
{
    if names.contains(x) {
        let k = choose|k: int| 0 <= k < names.len() && names[k] == x;
        assert(names.push(n)[k] == x);
    }
    if x == n {
        assert(names.push(n)[names.len() as int] == x);
    }
    if names.push(n).contains(x) {
        let k = choose|k: int| 0 <= k < names.len() + 1 && names.push(n)[k] == x;
        if k < names.len() {
            assert(names[k] == x);
        }
    }
}

proof fn lemma_count_split(fonts: Seq<FontFace>, names: Seq<Seq<char>>, n: Seq<char>)
    requires
        !names.contains(n),
    ensures
        fonts.filter(in_families(names.push(n))).len() == fonts.filter(in_families(names)).len()
            + family_entries(fonts, n).len(),
    decreases fonts.len(),
{
    if fonts.len() == 0 {
        reveal(Seq::filter);
    } else {
        let pre = fonts.drop_last();
        let x = fonts.last();
        lemma_count_split(pre, names, n);
        assert(fonts =~= pre.push(x));
        pre.lemma_filter_push(x, in_families(names.push(n)));
        pre.lemma_filter_push(x, in_families(names));
        pre.lemma_filter_push(x, |f: FontFace| f.family == n);
        lemma_contains_push(names, n, x.family);
    }
}

proof fn lemma_filter_keeps_all<A>(fonts: Seq<A>, pred: spec_fn(A) -> bool)
    requires
        forall|i: int| 0 <= i < fonts.len() ==> #[trigger] pred(fonts[i]),
    ensures
        fonts.filter(pred) == fonts,
    decreases fonts.len(),
{
    if fonts.len() == 0 {
        reveal(Seq::filter);
    } else {
        let pre = fonts.drop_last();
        assert forall|i: int| 0 <= i < pre.len() implies #[trigger] pred(pre[i]) by {
            assert(pred(fonts[i]));
        }
        lemma_filter_keeps_all(pre, pred);
        assert(fonts =~= pre.push(fonts.last()));
        assert(pred(fonts[fonts.len() - 1]));
        pre.lemma_filter_push(fonts.last(), pred);
    }
}

proof fn lemma_entries_count(fonts: Seq<FontFace>, names: Seq<Seq<char>>)
    requires
        names.no_duplicates(),
    ensures
        entries_of_families(fonts, names) == fonts.filter(in_families(names)).len(),
    decreases names.len(),
{
    if names.len() == 0 {
        assert(fonts.filter(in_families(names)).len() == 0) by {
            if fonts.filter(in_families(names)).len() > 0 {
                fonts.lemma_filter_pred(in_families(names), 0);
            }
        }
    } else {
        let init = names.drop_last();
        let n = names.last();
        assert(init.no_duplicates());
        assert(!init.contains(n)) by {
            if init.contains(n) {
                let k = choose|k: int| 0 <= k < init.len() && init[k] == n;
                assert(names[k] == names[names.len() - 1]);
            }
        }
        lemma_entries_count(fonts, init);
        assert(names =~= init.push(n));
        lemma_count_split(fonts, init, n);
    }
}

/// The entry lists of the families split the font list: a family has
/// entries exactly when the family list (what `extract_families` gives)
/// names it, and the entry lists of all the families in it together hold
/// as many entries as the font list, each entry once.
pub proof fn law_family_entries_partition(fonts: Seq<FontFace>, names: Seq<Seq<char>>)
    requires
        strictly_sorted(names),
        names.to_set() == family_names(fonts).to_set(),
    ensures
        forall|fam: Seq<char>|
            #![trigger family_entries(fonts, fam)]
            #![trigger names.contains(fam)]
            family_entries(fonts, fam).len() > 0 <==> names.contains(fam),
        entries_of_families(fonts, names) == fonts.len(),
{
    law_family_list_has_no_repeats(names);
    assert forall|fam: Seq<char>| family_entries(fonts, fam).len() > 0 <==> #[trigger] names.contains(fam) by {
        let pred = |f: FontFace| f.family == fam;
        if family_entries(fonts, fam).len() > 0 {
            fonts.lemma_filter_pred(pred, 0);
            let e = fonts.filter(pred)[0];
            assert(fonts.filter(pred).contains(e));
            fonts.lemma_filter_contains_rev(pred, e);
            let k = choose|k: int| 0 <= k < fonts.len() && fonts[k] == e;
            assert(family_names(fonts)[k] == fam);
            assert(family_names(fonts).to_set().contains(fam));
            assert(names.to_set().contains(fam));
        }
        if names.contains(fam) {
            assert(names.to_set().contains(fam));
            assert(family_names(fonts).to_set().contains(fam));
            let k = choose|k: int| 0 <= k < family_names(fonts).len() && family_names(fonts)[k] == fam;
            assert(fonts[k].family == fam);
            fonts.lemma_filter_contains(pred, k);
            assert(fonts.filter(pred).len() > 0);
        }
    }
    assert forall|i: int| 0 <= i < fonts.len() implies #[trigger] in_families(names)(fonts[i]) by {
        assert(family_names(fonts)[i] == fonts[i].family);
        assert(family_names(fonts).to_set().contains(fonts[i].family));
        assert(names.to_set().contains(fonts[i].family));
    }
    lemma_filter_keeps_all(fonts, in_families(names));
    lemma_entries_count(fonts, names);
}

} // verus!
