//! The font catalogue: reading the listing that `fc-list` prints, ordering
//! it by family, telling user fonts from system fonts, and counting the
//! characters that `fc-query` reports a font to cover.

pub mod browse;
pub mod details;
pub mod keybindings;
pub mod preview;

use vstd::prelude::*;
use crate::text::{
    chars_of, contains_chars, find_char, first_pos, has_prefix, has_substring, is_white_space,
    is_whitespace_char, lemma_first_pos, lemma_first_pos_unique, lemma_words_empty, lemma_words_step, lines, lowercase,
    lowercase_chars, parse_u32, parse_u32_chars, starts_with_chars, string_from_chars, strip_cr,
    text_less, text_lt, trim, trimmed_bounds, words, lemma_text_lt_asymmetric,
    lemma_text_lt_irreflexive, lemma_text_lt_total, lemma_text_lt_transitive,
};

verus! {

// ---------------------------------------------------------------------------
// Font entries
// ---------------------------------------------------------------------------

/// One installed font face: a family, a style within it and the file.
#[derive(Debug, Clone)]
pub struct FontEntry {
    pub family: String,
    pub style: String,
    pub file: String,
}

/// The characters of a `FontEntry`.
pub struct FontFace {
    pub family: Seq<char>,
    pub style: Seq<char>,
    pub file: Seq<char>,
}

impl View for FontEntry {
    type V = FontFace;

    open spec fn view(&self) -> FontFace {
        FontFace { family: self.family@, style: self.style@, file: self.file@ }
    }
}

/// The faces of a list of entries.
pub open spec fn faces(v: Seq<FontEntry>) -> Seq<FontFace> {
    v.map_values(|e: FontEntry| e@)
}

/// A copy of `e`.
pub fn copy_entry(e: &FontEntry) -> (r: FontEntry)
    ensures
        r@ == e@,
{
    FontEntry { family: e.family.clone(), style: e.style.clone(), file: e.file.clone() }
}

// ---------------------------------------------------------------------------
// The fc-list listing
// ---------------------------------------------------------------------------

/// The three fields of a listing line `family \t style \t file`, split at
/// the first two tabs (`splitn(3, '\t')`); `None` when the line has fewer
/// than two tabs.
pub open spec fn tab_fields(line: Seq<char>) -> Option<(Seq<char>, Seq<char>, Seq<char>)> {
    let i1 = first_pos(line, '\t');
    if i1 >= line.len() {
        None
    } else {
        let rest = line.skip(i1 + 1);
        let i2 = first_pos(rest, '\t');
        if i2 >= rest.len() {
            None
        } else {
            Some((line.take(i1), rest.take(i2), rest.skip(i2 + 1)))
        }
    }
}

/// The part of `s` before its first comma (`s.split(',').next()`): fc-list
/// lists the localised names of a family or style after the first.
pub open spec fn first_name(s: Seq<char>) -> Seq<char> {
    s.take(first_pos(s, ','))
}

/// A line written as `family TAB style TAB file`, where neither the family
/// nor the style holds a tab, reads back as those three fields (the file
/// may hold tabs); cleaned, each is cut at its first comma (the file is
/// not) and trimmed. A line with fewer than two tabs describes no face.
pub proof fn law_listing_line_reads_back(a: Seq<char>, b: Seq<char>, c: Seq<char>, line: Seq<char>)
    requires
        !a.contains('\t'),
        !b.contains('\t'),
    ensures
        raw_listed_face(a + seq!['\t'] + b + seq!['\t'] + c) == Some(
            FontFace { family: a, style: b, file: c },
        ),
        listed_face(a + seq!['\t'] + b + seq!['\t'] + c) == Some(
            FontFace { family: trim(first_name(a)), style: trim(first_name(b)), file: trim(c) },
        ),
        (forall|k: int| 0 <= k < line.len() ==> line[k] != '\t') ==> raw_listed_face(line) is None
            && listed_face(line) is None,
{
    let rest = b + seq!['\t'] + c;
    let l = a + seq!['\t'] + rest;
    assert(l =~= a + seq!['\t'] + b + seq!['\t'] + c);
    assert forall|i: int| 0 <= i < a.len() implies l[i] != '\t' by {
        assert(l[i] == a[i]);
        if a[i] == '\t' {
            assert(a.contains('\t'));
        }
    }
    lemma_first_pos_unique(l, '\t', a.len() as int);
    assert(l.skip(a.len() as int + 1) =~= rest);
    assert forall|i: int| 0 <= i < b.len() implies rest[i] != '\t' by {
        assert(rest[i] == b[i]);
        if b[i] == '\t' {
            assert(b.contains('\t'));
        }
    }
    lemma_first_pos_unique(rest, '\t', b.len() as int);
    assert(l.take(a.len() as int) =~= a);
    assert(rest.take(b.len() as int) =~= b);
    assert(rest.skip(b.len() as int + 1) =~= c);
    if forall|k: int| 0 <= k < line.len() ==> line[k] != '\t' {
        lemma_first_pos_unique(line, '\t', line.len() as int);
    }
}

/// The first name of a field is what comes before its first comma, and
/// the whole field where it has none.
pub proof fn law_first_name(a: Seq<char>, rest: Seq<char>)
    requires
        !a.contains(','),
    ensures
        first_name(a + seq![','] + rest) == a,
        first_name(a) == a,
{
    let l = a + seq![','] + rest;
    assert forall|i: int| 0 <= i < a.len() implies l[i] != ',' by {
        assert(l[i] == a[i]);
        if a[i] == ',' {
            assert(a.contains(','));
        }
    }
    lemma_first_pos_unique(l, ',', a.len() as int);
    assert(l.take(a.len() as int) =~= a);
    assert forall|i: int| 0 <= i < a.len() implies a[i] != ',' by {
        if a[i] == ',' {
            assert(a.contains(','));
        }
    }
    lemma_first_pos_unique(a, ',', a.len() as int);
    assert(a.take(a.len() as int) =~= a);
}

/// The face a listing line describes: the first name of the family and of
/// the style, and the file, each trimmed.
pub open spec fn listed_face(line: Seq<char>) -> Option<FontFace> {
    match tab_fields(line) {
        Some((a, b, c)) => Some(
            FontFace { family: trim(first_name(a)), style: trim(first_name(b)), file: trim(c) },
        ),
        None => None,
    }
}

/// The face a listing line describes, its three fields taken as they stand.
pub open spec fn raw_listed_face(line: Seq<char>) -> Option<FontFace> {
    match tab_fields(line) {
        Some((a, b, c)) => Some(FontFace { family: a, style: b, file: c }),
        None => None,
    }
}

/// The face of a line, cleaned or raw.
pub open spec fn line_face(line: Seq<char>, clean: bool) -> Option<FontFace> {
    if clean {
        listed_face(line)
    } else {
        raw_listed_face(line)
    }
}

/// The faces of the lines that describe one, in order.
pub open spec fn listed_faces(ls: Seq<Seq<char>>, clean: bool) -> Seq<FontFace>
    decreases ls.len(),
{
    if ls.len() == 0 {
        seq![]
    } else {
        (match line_face(ls[0], clean) {
            Some(f) => seq![f],
            None => seq![],
        }) + listed_faces(ls.drop_first(), clean)
    }
}

/// The key the catalogue is ordered by: the family in lowercase.
pub open spec fn family_key(f: FontFace) -> Seq<char> {
    lowercase(f.family)
}

/// Where `f` goes in `sorted` so that it follows every face whose key is
/// not greater than its own.
pub open spec fn insert_pos(sorted: Seq<FontFace>, f: FontFace) -> int
    decreases sorted.len(),
{
    if sorted.len() == 0 {
        0
    } else if text_lt(family_key(f), family_key(sorted.last())) {
        insert_pos(sorted.drop_last(), f)
    } else {
        sorted.len() as int
    }
}

/// `s` ordered by `family_key`, faces with equal keys kept in their order
/// (the stable sort of `slice::sort_by`).
pub open spec fn sort_by_family(s: Seq<FontFace>) -> Seq<FontFace>
    decreases s.len(),
{
    if s.len() == 0 {
        s
    } else {
        let sorted = sort_by_family(s.drop_last());
        sorted.insert(insert_pos(sorted, s.last()), s.last())
    }
}

/// Two faces of one family and style.
pub open spec fn same_face(a: FontFace, b: FontFace) -> bool {
    a.family == b.family && a.style == b.style
}

/// `s` with every face that repeats the family and style of the face just
/// before it dropped (`Vec::dedup_by`).
pub open spec fn dedup_faces(s: Seq<FontFace>) -> Seq<FontFace>
    decreases s.len(),
{
    if s.len() <= 1 {
        s
    } else {
        let d = dedup_faces(s.drop_last());
        if same_face(s[s.len() - 2], s.last()) {
            d
        } else {
            d.push(s.last())
        }
    }
}

/// The catalogue of a listing: its faces, ordered by family, repeats dropped.
pub open spec fn catalogue(text: Seq<char>, clean: bool) -> Seq<FontFace> {
    dedup_faces(sort_by_family(listed_faces(lines(text), clean)))
}

proof fn lemma_insert_pos_bounds(sorted: Seq<FontFace>, f: FontFace)
    ensures
        0 <= insert_pos(sorted, f) <= sorted.len(),
    decreases sorted.len(),
{
    if sorted.len() > 0 {
        lemma_insert_pos_bounds(sorted.drop_last(), f);
    }
}

proof fn lemma_sort_len(s: Seq<FontFace>)
    ensures
        sort_by_family(s).len() == s.len(),
    decreases s.len(),
{
    if s.len() > 0 {
        lemma_sort_len(s.drop_last());
        lemma_insert_pos_bounds(sort_by_family(s.drop_last()), s.last());
    }
}

/// Inserts `e` into `out` (ordered by key, `keys` holding the keys) at
/// `insert_pos`.
fn insert_by_family(out: &mut Vec<FontEntry>, keys: &mut Vec<Vec<char>>, e: FontEntry)
    requires
        old(keys)@.len() == old(out)@.len(),
        forall|m: int|
            0 <= m < old(out)@.len() ==> #[trigger] old(keys)@[m]@ == family_key(old(out)@[m]@),
    ensures
        final(keys)@.len() == final(out)@.len(),
        forall|m: int|
            0 <= m < final(out)@.len() ==> #[trigger] final(keys)@[m]@ == family_key(
                final(out)@[m]@,
            ),
        faces(final(out)@) == faces(old(out)@).insert(insert_pos(faces(old(out)@), e@), e@),
{
    let key = lowercase_chars(e.family.as_str());
    let ghost sorted = faces(out@);
    let mut j = out.len();
    assert(sorted.take(j as int) =~= sorted);
    while j > 0 && text_less(key.as_slice(), keys[j - 1].as_slice())
        invariant
            j <= out@.len(),
            keys@.len() == out@.len(),
            sorted == faces(out@),
            key@ == family_key(e@),
            forall|m: int| 0 <= m < out@.len() ==> #[trigger] keys@[m]@ == family_key(out@[m]@),
            insert_pos(sorted, e@) == insert_pos(sorted.take(j as int), e@),
        decreases j,
    {
        proof {
            assert(sorted.take(j as int).drop_last() =~= sorted.take(j - 1));
            assert(keys@[j - 1]@ == family_key(sorted[j - 1]));
        }
        j = j - 1;
    }
    proof {
        if j > 0 {
            assert(keys@[j - 1]@ == family_key(sorted[j - 1]));
            assert(sorted.take(j as int).last() == sorted[j - 1]);
        }
        assert(insert_pos(sorted.take(j as int), e@) == j);
    }
    let ghost old_out = out@;
    let ghost old_keys = keys@;
    out.insert(j, e);
    keys.insert(j, key);
    proof {
        assert(faces(out@) =~= sorted.insert(j as int, e@));
        assert forall|m: int| 0 <= m < out@.len() implies #[trigger] keys@[m]@ == family_key(
            out@[m]@,
        ) by {
            if m < j {
                assert(keys@[m] == old_keys[m]);
                assert(out@[m] == old_out[m]);
            } else if m > j {
                assert(keys@[m] == old_keys[m - 1]);
                assert(out@[m] == old_out[m - 1]);
            }
        }
    }
}

/// The faces of `v`, repeats of the face just before dropped.
fn dedup_entries(v: &Vec<FontEntry>) -> (r: Vec<FontEntry>)
    ensures
        faces(r@) == dedup_faces(faces(v@)),
{
    let mut r: Vec<FontEntry> = Vec::new();
    let ghost s = faces(v@);
    let mut i: usize = 0;
    while i < v.len()
        invariant
            i <= v@.len(),
            s == faces(v@),
            faces(r@) == dedup_faces(s.take(i as int)),
        decreases v@.len() - i,
    {
        let keep = if i == 0 {
            true
        } else {
            !(v[i - 1].family == v[i].family && v[i - 1].style == v[i].style)
        };
        let ghost t = s.take(i + 1);
        proof {
            assert(t.drop_last() =~= s.take(i as int));
            if i > 0 {
                assert(t[t.len() - 2] == s[i - 1]);
            } else {
                assert(s.take(0) =~= Seq::<FontFace>::empty());
                assert(dedup_faces(t) == t);
                assert(t =~= seq![s[0]]);
            }
        }
        if keep {
            let c = copy_entry(&v[i]);
            let ghost before = r@;
            r.push(c);
            proof {
                assert(faces(r@) =~= faces(before).push(c@));
            }
        }
        i = i + 1;
    }
    assert(s.take(v@.len() as int) =~= s);
    r
}

/// Reads an fc-list listing printed with the format
/// `%{family}\t%{style}\t%{file}\n` into the catalogue: one entry per line
/// that has the three fields, ordered by lowercase family (equal families
/// keep the listing's order), and a face that repeats the family and style
/// of the one before it dropped. With `clean`, the family and the style are
/// cut to their first comma-separated name and every field is trimmed.
pub fn read_font_listing(output: &str, clean: bool) -> (fonts: Vec<FontEntry>)
    ensures
        faces(fonts@) == catalogue(output@, clean),
{
    let v = chars_of(output);
    let n = v.len();
    let ghost s = v@;
    let mut sorted: Vec<FontEntry> = Vec::new();
    let mut keys: Vec<Vec<char>> = Vec::new();
    let ghost mut listed: Seq<FontFace> = seq![];
    let mut pos: usize = 0;
    assert(s.skip(0) =~= s);
    while pos < n
        invariant
            n == s.len(),
            s == v@,
            pos <= n,
            keys@.len() == sorted@.len(),
            forall|m: int|
                0 <= m < sorted@.len() ==> #[trigger] keys@[m]@ == family_key(sorted@[m]@),
            faces(sorted@) == sort_by_family(listed),
            listed_faces(lines(s), clean) == listed + listed_faces(lines(s.skip(pos as int)), clean),
        decreases n - pos,
    {
        let ghost rest = s.skip(pos as int);
        let k = find_char(v.as_slice(), pos, n, '\n');
        proof {
            assert(v@.subrange(pos as int, n as int) =~= rest);
        }
        // the line is v[pos..end], without its line ending
        let mut end = k;
        if k < n && k > pos && v[k - 1] == '\r' {
            end = k - 1;
        }
        let ghost line = s.subrange(pos as int, end as int);
        proof {
            lemma_first_pos(rest, '\n');
            if k < n {
                assert(rest.take(k - pos) =~= s.subrange(pos as int, k as int));
                assert(line =~= strip_cr(rest.take(k - pos)));
                assert(rest.skip(k - pos + 1) =~= s.skip(k + 1));
                assert(lines(rest) == seq![line] + lines(s.skip(k + 1)));
            } else {
                assert(rest =~= line);
                assert(lines(rest) == seq![line]);
                assert(s.skip(n as int) =~= Seq::<char>::empty());
            }
            let ls = lines(rest);
            assert(ls[0] == line);
            assert(ls.drop_first() =~= lines(s.skip(if k < n { k + 1 } else { n as int })));
        }
        let entry = read_listing_line(&v, pos, end, clean);
        match entry {
            Some(e) => {
                proof {
                    lemma_sort_len(listed);
                    assert(listed.push(e@).drop_last() =~= listed);
                    listed = listed.push(e@);
                }
                insert_by_family(&mut sorted, &mut keys, e);
            },
            None => {},
        }
        proof {
            let nxt = if k < n { k + 1 } else { n as int };
            assert(listed_faces(lines(rest), clean) == (match line_face(line, clean) {
                Some(f) => seq![f],
                None => seq![],
            }) + listed_faces(lines(s.skip(nxt)), clean));
        }
        if k < n {
            pos = k + 1;
        } else {
            pos = n;
        }
        proof {
            assert(listed_faces(lines(s), clean) =~= listed + listed_faces(lines(s.skip(pos as int)), clean));
        }
    }
    proof {
        assert(s.skip(n as int) =~= Seq::<char>::empty());
        assert(listed + Seq::<FontFace>::empty() =~= listed);
    }
    dedup_entries(&sorted)
}

/// The face described by the line `v[lo..hi]`.
fn read_listing_line(v: &Vec<char>, lo: usize, hi: usize, clean: bool) -> (r: Option<FontEntry>)
    requires
        lo <= hi <= v@.len(),
    ensures
        r matches Some(e) ==> line_face(v@.subrange(lo as int, hi as int), clean) == Some(e@),
        r is None ==> line_face(v@.subrange(lo as int, hi as int), clean) is None,
{
    let ghost line = v@.subrange(lo as int, hi as int);
    let t1 = find_char(v.as_slice(), lo, hi, '\t');
    if t1 == hi {
        return None;
    }
    let t2 = find_char(v.as_slice(), t1 + 1, hi, '\t');
    proof {
        let rest = line.skip(t1 - lo + 1);
        assert(rest =~= v@.subrange(t1 + 1, hi as int));
    }
    if t2 == hi {
        return None;
    }
    proof {
        let rest = line.skip(t1 - lo + 1);
        assert(line.take(t1 - lo) =~= v@.subrange(lo as int, t1 as int));
        assert(rest.take(t2 - t1 - 1) =~= v@.subrange(t1 + 1, t2 as int));
        assert(rest.skip(t2 - t1) =~= v@.subrange(t2 + 1, hi as int));
    }
    if clean {
        let family = clean_field(v, lo, t1, true);
        let style = clean_field(v, t1 + 1, t2, true);
        let file = clean_field(v, t2 + 1, hi, false);
        Some(FontEntry { family, style, file })
    } else {
        let family = string_from_chars(&v.as_slice()[lo..t1]);
        let style = string_from_chars(&v.as_slice()[t1 + 1..t2]);
        let file = string_from_chars(&v.as_slice()[t2 + 1..hi]);
        Some(FontEntry { family, style, file })
    }
}

/// `v[lo..hi]`, cut at its first comma when `first_only`, then trimmed.
fn clean_field(v: &Vec<char>, lo: usize, hi: usize, first_only: bool) -> (s: String)
    requires
        lo <= hi <= v@.len(),
    ensures
        first_only ==> s@ == trim(first_name(v@.subrange(lo as int, hi as int))),
        !first_only ==> s@ == trim(v@.subrange(lo as int, hi as int)),
{
    let mut end = hi;
    if first_only {
        end = find_char(v.as_slice(), lo, hi, ',');
        proof {
            lemma_first_pos(v@.subrange(lo as int, hi as int), ',');
            assert(first_name(v@.subrange(lo as int, hi as int)) =~= v@.subrange(
                lo as int,
                end as int,
            ));
        }
    }
    let (a, b) = trimmed_bounds(v.as_slice(), lo, end);
    string_from_chars(&v.as_slice()[a..b])
}

// ---------------------------------------------------------------------------
// Laws of the catalogue
// ---------------------------------------------------------------------------

/// `a` does not come after `b` in the order of `String`.
pub open spec fn text_le(a: Seq<char>, b: Seq<char>) -> bool {
    !text_lt(b, a)
}

/// Faces in order of their keys.
pub open spec fn sorted_by_family(s: Seq<FontFace>) -> bool {
    forall|i: int, j: int|
        0 <= i < j < s.len() ==> text_le(family_key(#[trigger] s[i]), family_key(#[trigger] s[j]))
}

/// The faces of `s` whose key is `k`, in order.
pub open spec fn key_group(s: Seq<FontFace>, k: Seq<char>) -> Seq<FontFace> {
    s.filter(|f: FontFace| family_key(f) == k)
}

proof fn lemma_text_le_transitive(a: Seq<char>, b: Seq<char>, c: Seq<char>)
    requires
        text_le(a, b),
        text_le(b, c),
    ensures
        text_le(a, c),
{
    lemma_text_lt_total(a, b);
    lemma_text_lt_total(b, c);
    if text_lt(c, a) {
        if a == b {
            lemma_text_lt_asymmetric(b, c);
            if b == c {
                lemma_text_lt_irreflexive(a);
            }
        } else if b == c {
            lemma_text_lt_asymmetric(a, c);
        } else {
            lemma_text_lt_transitive(a, b, c);
            lemma_text_lt_asymmetric(a, c);
        }
    }
}

/// Where `insert_pos` puts `f` in an ordered list: after every face whose
/// key is not greater, before every face whose key is greater.
proof fn lemma_insert_pos_sorted(sorted: Seq<FontFace>, f: FontFace)
    requires
        sorted_by_family(sorted),
    ensures
        0 <= insert_pos(sorted, f) <= sorted.len(),
        forall|m: int|
            0 <= m < insert_pos(sorted, f) ==> text_le(family_key(#[trigger] sorted[m]), family_key(f)),
        forall|m: int|
            insert_pos(sorted, f) <= m < sorted.len() ==> text_lt(family_key(f), family_key(#[trigger] sorted[m])),
    decreases sorted.len(),
{
    if sorted.len() > 0 {
        let last = sorted.last();
        let init = sorted.drop_last();
        assert(sorted_by_family(init)) by {
            assert forall|i: int, j: int| 0 <= i < j < init.len() implies text_le(
                family_key(#[trigger] init[i]),
                family_key(#[trigger] init[j]),
            ) by {
                assert(init[i] == sorted[i] && init[j] == sorted[j]);
            }
        }
        lemma_insert_pos_sorted(init, f);
        if text_lt(family_key(f), family_key(last)) {
            assert forall|m: int|
                insert_pos(sorted, f) <= m < sorted.len() implies text_lt(family_key(f), family_key(#[trigger] sorted[m])) by {
                if m < sorted.len() - 1 {
                    assert(init[m] == sorted[m]);
                }
            }
            assert forall|m: int|
                0 <= m < insert_pos(sorted, f) implies text_le(family_key(#[trigger] sorted[m]), family_key(f)) by {
                assert(init[m] == sorted[m]);
            }
        } else {
            assert forall|m: int|
                0 <= m < insert_pos(sorted, f) implies text_le(family_key(#[trigger] sorted[m]), family_key(f)) by {
                if m < sorted.len() - 1 {
                    assert(text_le(family_key(sorted[m]), family_key(sorted[sorted.len() - 1])));
                    lemma_text_le_transitive(family_key(sorted[m]), family_key(last), family_key(f));
                }
            }
        }
    }
}

/// The faces with key `k` after inserting `f` where `insert_pos` puts it.
proof fn lemma_insert_groups(sorted: Seq<FontFace>, f: FontFace, k: Seq<char>)
    requires
        sorted_by_family(sorted),
    ensures
        sorted_by_family(sorted.insert(insert_pos(sorted, f), f)),
        key_group(sorted.insert(insert_pos(sorted, f), f), k) == if family_key(f) == k {
            key_group(sorted, k).push(f)
        } else {
            key_group(sorted, k)
        },
{
    lemma_insert_pos_sorted(sorted, f);
    let p = insert_pos(sorted, f);
    let r = sorted.insert(p, f);
    let pred = |g: FontFace| family_key(g) == k;
    assert forall|i: int, j: int| 0 <= i < j < r.len() implies text_le(
        family_key(#[trigger] r[i]),
        family_key(#[trigger] r[j]),
    ) by {
        if j < p {
            assert(r[i] == sorted[i] && r[j] == sorted[j]);
        } else if j == p {
            assert(r[i] == sorted[i]);
        } else if i == p {
            assert(r[j] == sorted[j - 1]);
            lemma_text_lt_asymmetric(family_key(f), family_key(sorted[j - 1]));
        } else if i < p {
            assert(r[i] == sorted[i] && r[j] == sorted[j - 1]);
        } else {
            assert(r[i] == sorted[i - 1] && r[j] == sorted[j - 1]);
        }
    }
    let a = sorted.take(p);
    let b = sorted.skip(p);
    assert(sorted =~= a + b);
    assert(r =~= a + seq![f] + b);
    Seq::filter_distributes_over_add(a, b, pred);
    Seq::filter_distributes_over_add(a + seq![f], b, pred);
    Seq::filter_distributes_over_add(a, seq![f], pred);
    assert(seq![f] =~= Seq::<FontFace>::empty().push(f));
    Seq::<FontFace>::empty().lemma_filter_push(f, pred);
    assert(Seq::<FontFace>::empty().filter(pred) =~= Seq::<FontFace>::empty()) by {
        reveal(Seq::filter);
    }
    if family_key(f) == k {
        assert forall|m: int| 0 <= m < b.len() implies !pred(#[trigger] b[m]) by {
            assert(b[m] == sorted[p + m]);
            lemma_text_lt_irreflexive(k);
        }
        assert(b.all(|x: FontFace| !pred(x)));
        b.lemma_all_neg_filter_empty(pred);
        assert(b.filter(pred) =~= Seq::<FontFace>::empty());
        assert(key_group(r, k) =~= key_group(sorted, k).push(f));
    } else {
        assert(key_group(r, k) =~= key_group(sorted, k));
    }
}

/// The catalogue's sort orders the faces by lowercase family and keeps,
/// within each family key, the faces in the order they were listed: the
/// stable sort by that key.
pub proof fn law_sort_by_family_is_stable(s: Seq<FontFace>, k: Seq<char>)
    ensures
        sorted_by_family(sort_by_family(s)),
        key_group(sort_by_family(s), k) == key_group(s, k),
    decreases s.len(),
{
    if s.len() == 0 {
    } else {
        law_sort_by_family_is_stable(s.drop_last(), k);
        lemma_insert_groups(sort_by_family(s.drop_last()), s.last(), k);
        assert(s =~= s.drop_last().push(s.last()));
        s.drop_last().lemma_filter_push(s.last(), |f: FontFace| family_key(f) == k);
    }
}

/// Every face of `dedup_faces(s)` is a face of `s`.
proof fn lemma_dedup_subset(s: Seq<FontFace>)
    ensures
        forall|i: int| 0 <= i < dedup_faces(s).len() ==> s.contains(#[trigger] dedup_faces(s)[i]),
        dedup_faces(s).len() <= s.len(),
        s.len() > 0 ==> dedup_faces(s).len() > 0 && dedup_faces(s)[0] == s[0],
    decreases s.len(),
{
    if s.len() > 1 {
        let init = s.drop_last();
        lemma_dedup_subset(init);
        let d = dedup_faces(s);
        assert forall|i: int| 0 <= i < d.len() implies s.contains(#[trigger] d[i]) by {
            if i < dedup_faces(init).len() {
                let x = d[i];
                assert(x == dedup_faces(init)[i]);
                assert(init.contains(x));
                let m = choose|m: int| 0 <= m < init.len() && init[m] == x;
                assert(s[m] == x);
            } else {
                assert(d[i] == s.last());
                assert(s[s.len() - 1] == d[i]);
            }
        }
    } else if s.len() == 1 {
        assert(s[0] == dedup_faces(s)[0]);
    }
}

/// Dropping repeats leaves no face that repeats the family and style of the
/// face before it, and keeps an ordered list ordered.
pub proof fn law_dedup_faces(s: Seq<FontFace>)
    ensures
        forall|i: int|
            0 <= i < dedup_faces(s).len() - 1 ==> !same_face(
                #[trigger] dedup_faces(s)[i],
                dedup_faces(s)[i + 1],
            ),
        sorted_by_family(s) ==> sorted_by_family(dedup_faces(s)),
    decreases s.len(),
{
    if s.len() > 1 {
        let init = s.drop_last();
        law_dedup_faces(init);
        lemma_dedup_subset(init);
        let di = dedup_faces(init);
        let d = dedup_faces(s);
        if !same_face(s[s.len() - 2], s.last()) {
            // the last kept face of `init` repeats `s[s.len() - 2]`
            lemma_dedup_last(init);
            assert forall|i: int| 0 <= i < d.len() - 1 implies !same_face(#[trigger] d[i], d[i + 1]) by {
                if i < di.len() - 1 {
                    assert(d[i] == di[i] && d[i + 1] == di[i + 1]);
                } else {
                    assert(d[i] == di.last());
                    assert(d[i + 1] == s.last());
                }
            }
            if sorted_by_family(s) {
                assert(sorted_by_family(init)) by {
                    assert forall|i: int, j: int| 0 <= i < j < init.len() implies text_le(
                        family_key(#[trigger] init[i]),
                        family_key(#[trigger] init[j]),
                    ) by {
                        assert(init[i] == s[i] && init[j] == s[j]);
                    }
                }
                assert forall|i: int, j: int| 0 <= i < j < d.len() implies text_le(
                    family_key(#[trigger] d[i]),
                    family_key(#[trigger] d[j]),
                ) by {
                    assert(d[i] == di[i]);
                    if j < di.len() {
                        assert(d[j] == di[j]);
                    } else {
                        assert(init.contains(di[i]));
                        let m = choose|m: int| 0 <= m < init.len() && init[m] == di[i];
                        assert(s[m] == di[i]);
                        assert(d[j] == s[s.len() - 1]);
                    }
                }
            }
        } else {
            if sorted_by_family(s) {
                assert(sorted_by_family(init)) by {
                    assert forall|i: int, j: int| 0 <= i < j < init.len() implies text_le(
                        family_key(#[trigger] init[i]),
                        family_key(#[trigger] init[j]),
                    ) by {
                        assert(init[i] == s[i] && init[j] == s[j]);
                    }
                }
            }
        }
    }
}

/// The last kept face of a non-empty list repeats the list's last face.
proof fn lemma_dedup_last(s: Seq<FontFace>)
    requires
        s.len() > 0,
    ensures
        dedup_faces(s).len() > 0,
        same_face(dedup_faces(s).last(), s.last()),
    decreases s.len(),
{
    if s.len() > 1 {
        lemma_dedup_last(s.drop_last());
        lemma_dedup_subset(s.drop_last());
    }
}

/// The catalogue is ordered by lowercase family and holds no face that
/// repeats the family and style of the one before it.
pub proof fn law_catalogue_is_ordered(text: Seq<char>, clean: bool)
    ensures
        sorted_by_family(catalogue(text, clean)),
        forall|i: int|
            0 <= i < catalogue(text, clean).len() - 1 ==> !same_face(
                #[trigger] catalogue(text, clean)[i],
                catalogue(text, clean)[i + 1],
            ),
{
    let listed = listed_faces(lines(text), clean);
    law_sort_by_family_is_stable(listed, Seq::empty());
    law_dedup_faces(sort_by_family(listed));
}

/// Every face of `s` has one of its family and style in `dedup_faces(s)`.
proof fn lemma_dedup_covers(s: Seq<FontFace>)
    ensures
        forall|i: int|
            0 <= i < s.len() ==> exists|j: int|
                0 <= j < dedup_faces(s).len() && same_face(dedup_faces(s)[j], #[trigger] s[i]),
    decreases s.len(),
{
    if s.len() == 1 {
        assert(same_face(dedup_faces(s)[0], s[0]));
    } else if s.len() > 1 {
        let init = s.drop_last();
        lemma_dedup_covers(init);
        lemma_dedup_subset(init);
        let d = dedup_faces(s);
        let di = dedup_faces(init);
        assert forall|i: int| 0 <= i < s.len() implies exists|j: int|
            0 <= j < d.len() && same_face(d[j], #[trigger] s[i]) by {
            if i < s.len() - 1 {
                assert(init[i] == s[i]);
                let j = choose|j: int| 0 <= j < di.len() && same_face(di[j], #[trigger] init[i]);
                assert(d[j] == di[j]);
            } else if same_face(s[s.len() - 2], s.last()) {
                assert(init[s.len() - 2] == s[s.len() - 2]);
                let j = choose|j: int| 0 <= j < di.len() && same_face(di[j], #[trigger] init[s.len() - 2]);
                assert(d[j] == di[j]);
                assert(same_face(d[j], s[i]));
            } else {
                assert(same_face(d[d.len() - 1], s[i]));
            }
        }
    }
}

/// No face is lost to the catalogue but a repeat: every face that the
/// listing describes has one of its family and style in the catalogue.
pub proof fn law_catalogue_keeps_every_face(text: Seq<char>, clean: bool, f: FontFace)
    requires
        listed_faces(lines(text), clean).contains(f),
    ensures
        exists|j: int|
            0 <= j < catalogue(text, clean).len() && same_face(catalogue(text, clean)[j], f),
{
    let listed = listed_faces(lines(text), clean);
    let sorted = sort_by_family(listed);
    let k = family_key(f);
    let pred = |g: FontFace| family_key(g) == k;
    law_sort_by_family_is_stable(listed, k);
    let m = choose|m: int| 0 <= m < listed.len() && listed[m] == f;
    listed.lemma_filter_contains(pred, m);
    assert(key_group(sorted, k).contains(f));
    sorted.lemma_filter_contains_rev(pred, f);
    let n = choose|n: int| 0 <= n < sorted.len() && sorted[n] == f;
    lemma_dedup_covers(sorted);
    let d = dedup_faces(sorted);
    assert(d == catalogue(text, clean));
    let j = choose|j: int| 0 <= j < d.len() && same_face(d[j], #[trigger] sorted[n]);
    assert(same_face(d[j], f));
}

// ---------------------------------------------------------------------------
// User fonts
// ---------------------------------------------------------------------------

/// A font file the user installed: under `/home/`, or in a `.local/share/fonts`
/// or `.fonts` directory.
pub open spec fn user_font_path(file: Seq<char>) -> bool {
    ||| has_prefix(file, "/home/"@)
    ||| has_substring(file, ".local/share/fonts"@)
    ||| has_substring(file, ".fonts"@)
}

/// A font file is the user's exactly when its path starts with `/home/` or
/// holds `.local/share/fonts` or `.fonts`: every file under `/home/`, and
/// every file in a `.fonts` or `.local/share/fonts` directory, is one; no
/// other path (such as one under `/usr/` without those parts) is.
pub proof fn law_user_fonts(file: Seq<char>, dir: Seq<char>, rest: Seq<char>)
    ensures
        user_font_path(file) <==> has_prefix(file, "/home/"@) || has_substring(
            file,
            ".local/share/fonts"@,
        ) || has_substring(file, ".fonts"@),
        user_font_path("/home/"@ + rest),
        user_font_path(dir + ".fonts"@ + rest),
        user_font_path(dir + ".local/share/fonts"@ + rest),
{
    let h = "/home/"@ + rest;
    assert(h.subrange(0, "/home/"@.len() as int) =~= "/home/"@);
    let d = dir + ".fonts"@ + rest;
    assert(d.subrange(dir.len() as int, dir.len() + ".fonts"@.len() as int) =~= ".fonts"@);
    assert(crate::text::occurs_at(d, ".fonts"@, dir.len() as int));
    let l = dir + ".local/share/fonts"@ + rest;
    assert(l.subrange(dir.len() as int, dir.len() + ".local/share/fonts"@.len() as int) =~= ".local/share/fonts"@);
    assert(crate::text::occurs_at(l, ".local/share/fonts"@, dir.len() as int));
}

/// Whether `file` is a font the user installed (and may remove).
pub fn is_user_font(file: &str) -> (b: bool)
    ensures
        b == user_font_path(file@),
{
    let f = chars_of(file);
    let home = chars_of("/home/");
    let local = chars_of(".local/share/fonts");
    let dot = chars_of(".fonts");
    starts_with_chars(f.as_slice(), home.as_slice()) || contains_chars(f.as_slice(), local.as_slice())
        || contains_chars(f.as_slice(), dot.as_slice())
}

// ---------------------------------------------------------------------------
// Character counts
// ---------------------------------------------------------------------------

/// How many characters a word of the charset that fc-query prints stands
/// for: a range `start-end` covers `end - start + 1`, a single code point
/// one, and a word that does not parse none. `None` where the count cannot
/// be taken: a range that ends before it starts, or one whose size does not
/// fit in a `u32`.
pub open spec fn range_size(w: Seq<char>, radix: nat) -> Option<int> {
    let k = first_pos(w, '-');
    if k < w.len() {
        match (parse_u32(w.take(k), radix), parse_u32(w.skip(k + 1), radix)) {
            (Some(a), Some(b)) => if a <= b && b - a + 1 <= u32::MAX {
                Some(b - a + 1)
            } else {
                None
            },
            _ => Some(0),
        }
    } else if parse_u32(w, radix) is Some {
        Some(1)
    } else {
        Some(0)
    }
}

/// The sum of the sizes of `ws`, `None` if one of them has none.
pub open spec fn words_size(ws: Seq<Seq<char>>, radix: nat) -> Option<int>
    decreases ws.len(),
{
    if ws.len() == 0 {
        Some(0)
    } else {
        match (range_size(ws[0], radix), words_size(ws.drop_first(), radix)) {
            (Some(a), Some(b)) => Some(a + b),
            _ => None,
        }
    }
}

/// The number of characters a charset text covers, where it fits in a `usize`.
pub open spec fn charset_size(text: Seq<char>, radix: nat) -> Option<nat> {
    match words_size(words(text), radix) {
        Some(n) => if n <= usize::MAX {
            Some(n as nat)
        } else {
            None
        },
        None => None,
    }
}

proof fn lemma_words_size_nonneg(ws: Seq<Seq<char>>, radix: nat)
    ensures
        words_size(ws, radix) matches Some(n) ==> n >= 0,
    decreases ws.len(),
{
    if ws.len() > 0 {
        lemma_words_size_nonneg(ws.drop_first(), radix);
    }
}

/// The size of the word `v[lo..hi]`.
fn word_size(v: &[char], lo: usize, hi: usize, radix: u32) -> (r: Option<u32>)
    requires
        lo <= hi <= v@.len(),
        2 <= radix <= 36,
    ensures
        r matches Some(x) ==> range_size(v@.subrange(lo as int, hi as int), radix as nat) == Some(
            x as int,
        ),
        r is None ==> range_size(v@.subrange(lo as int, hi as int), radix as nat) is None,
{
    let ghost w = v@.subrange(lo as int, hi as int);
    let k = find_char(v, lo, hi, '-');
    if k < hi {
        proof {
            assert(w.take(k - lo) =~= v@.subrange(lo as int, k as int));
            assert(w.skip(k - lo + 1) =~= v@.subrange(k + 1, hi as int));
        }
        let a = parse_u32_chars(v, lo, k, radix);
        let b = parse_u32_chars(v, k + 1, hi, radix);
        match (a, b) {
            (Some(a), Some(b)) => {
                if a <= b && (b as u64) - (a as u64) + 1 <= 0xffff_ffffu64 {
                    Some(b - a + 1)
                } else {
                    None
                }
            },
            _ => Some(0),
        }
    } else {
        match parse_u32_chars(v, lo, hi, radix) {
            Some(_) => Some(1),
            None => Some(0),
        }
    }
}

/// The number of characters that a charset listing covers: the sum of the
/// sizes of its whitespace-separated words, each a code point or a range
/// `start-end` written in base `radix`. `None` where the sum
/// cannot be taken: a range that ends before it starts, a range of more than
/// `u32::MAX` code points, or a sum past `usize::MAX`.
pub fn count_charset(listing: &str, radix: u32) -> (r: Option<usize>)
    requires
        2 <= radix <= 36,
    ensures
        r matches Some(n) ==> charset_size(listing@, radix as nat) == Some(n as nat),
        r is None ==> charset_size(listing@, radix as nat) is None,
{
    let v = chars_of(listing);
    let n = v.len();
    let ghost s = v@;
    let mut total: usize = 0;
    let mut i: usize = 0;
    assert(s.skip(0) =~= s);
    while i < n
        invariant
            n == s.len(),
            s == v@,
            s == listing@,
            2 <= radix <= 36,
            i <= n,
            words_size(words(s), radix as nat) == (match words_size(
                words(s.skip(i as int)),
                radix as nat,
            ) {
                Some(x) => Some(total + x),
                None => None,
            }),
        decreases n - i,
    {
        if is_whitespace_char(v[i]) {
            proof {
                lemma_words_step(s, i as int, i + 1);
            }
            i = i + 1;
        } else {
            let mut j = i + 1;
            while j < n && !is_whitespace_char(v[j])
                invariant
                    i < j <= n,
                    n == s.len(),
                    s == v@,
                    !is_white_space(s[i as int]),
                    forall|m: int| i <= m < j ==> !is_white_space(s[m]),
                decreases n - j,
            {
                j = j + 1;
            }
            let ghost ws = words(s.skip(i as int));
            proof {
                lemma_words_step(s, i as int, j as int);
                assert(ws.len() > 0);
                assert(ws[0] == s.subrange(i as int, j as int));
                assert(ws.drop_first() =~= words(s.skip(j as int)));
                lemma_words_size_nonneg(words(s.skip(j as int)), radix as nat);
                assert(words_size(ws, radix as nat) == (match (
                    range_size(s.subrange(i as int, j as int), radix as nat),
                    words_size(words(s.skip(j as int)), radix as nat),
                ) {
                    (Some(a), Some(b)) => Some(a + b),
                    _ => None,
                }));
            }
            match word_size(v.as_slice(), i, j, radix) {
                None => {
                    return None;
                },
                Some(c) => {
                    match total.checked_add(c as usize) {
                        Some(t) => {
                            total = t;
                        },
                        None => {
                            return None;
                        },
                    }
                },
            }
            i = j;
        }
    }
    proof {
        lemma_words_empty(s);
    }
    Some(total)
}

// ---------------------------------------------------------------------------
// Pages
// ---------------------------------------------------------------------------

/// The pages of the viewer's sidebar.
#[derive(Debug, Clone, Copy, PartialEq, Eq)]
pub enum Page {
    Browse,
    Keybindings,
}

impl Page {
    /// Every page, in sidebar order.
    pub const ALL: [Page; 2] = [Page::Browse, Page::Keybindings];

    /// The page's name in the sidebar.
    pub fn label(self) -> (s: &'static str)
        ensures
            self is Browse ==> s@ == "Browse"@,
            self is Keybindings ==> s@ == "Keys"@,
    {
        match self {
            Page::Browse => "Browse",
            Page::Keybindings => "Keys",
        }
    }

    /// The page's icon in the sidebar.
    pub fn icon(self) -> (s: &'static str)
        ensures
            self is Browse ==> s@ == "\u{1f524}"@,
            self is Keybindings ==> s@ == "\u{2328}"@,
    {
        match self {
            Page::Browse => "\u{1f524}",
            Page::Keybindings => "\u{2328}",
        }
    }
}

} // verus!
