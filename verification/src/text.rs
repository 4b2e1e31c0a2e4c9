//! Character-level text helpers, stated over `Seq<char>`.
//!
//! Strings are read once into a `Vec<char>` and then handled by index, so
//! that every scan is linear and every result can be stated as a function of
//! the characters.

use vstd::prelude::*;

verus! {

// ---------------------------------------------------------------------------
// Whitespace
// ---------------------------------------------------------------------------

/// The Unicode `White_Space` property, the set that `char::is_whitespace`
/// (and hence `str::trim` and `str::split_whitespace`) tests for.
pub open spec fn is_white_space(c: char) -> bool {
    let u = c as u32;
    ||| 0x9 <= u <= 0xd
    ||| u == 0x20
    ||| u == 0x85
    ||| u == 0xa0
    ||| u == 0x1680
    ||| 0x2000 <= u <= 0x200a
    ||| u == 0x2028
    ||| u == 0x2029
    ||| u == 0x202f
    ||| u == 0x205f
    ||| u == 0x3000
}

/// Whether `c` is Unicode whitespace.
pub fn is_whitespace_char(c: char) -> (b: bool)
    ensures
        b == is_white_space(c),
{
    let u = c as u32;
    (0x9 <= u && u <= 0xd) || u == 0x20 || u == 0x85 || u == 0xa0 || u == 0x1680 || (0x2000 <= u
        && u <= 0x200a) || u == 0x2028 || u == 0x2029 || u == 0x202f || u == 0x205f || u == 0x3000
}

/// `s` without its leading whitespace.
pub open spec fn trim_start(s: Seq<char>) -> Seq<char>
    decreases s.len(),
{
    if s.len() > 0 && is_white_space(s[0]) {
        trim_start(s.drop_first())
    } else {
        s
    }
}

/// `s` without its trailing whitespace.
pub open spec fn trim_end(s: Seq<char>) -> Seq<char>
    decreases s.len(),
{
    if s.len() > 0 && is_white_space(s.last()) {
        trim_end(s.drop_last())
    } else {
        s
    }
}

/// `s` without leading and trailing whitespace (`str::trim`).
pub open spec fn trim(s: Seq<char>) -> Seq<char> {
    trim_end(trim_start(s))
}

/// The bounds `(a, b)` of the trimmed part of `v[lo..hi]`.
pub fn trimmed_bounds(v: &[char], lo: usize, hi: usize) -> (r: (usize, usize))
    requires
        lo <= hi <= v@.len(),
    ensures
        lo <= r.0 <= r.1 <= hi,
        v@.subrange(r.0 as int, r.1 as int) == trim(v@.subrange(lo as int, hi as int)),
{
    let mut a = lo;
    while a < hi && is_whitespace_char(v[a])
        invariant
            lo <= a <= hi <= v@.len(),
            trim_start(v@.subrange(lo as int, hi as int)) == trim_start(
                v@.subrange(a as int, hi as int),
            ),
        decreases hi - a,
    {
        assert(v@.subrange(a as int, hi as int).drop_first() =~= v@.subrange(
            a + 1,
            hi as int,
        ));
        a = a + 1;
    }
    let mut b = hi;
    while b > a && is_whitespace_char(v[b - 1])
        invariant
            lo <= a <= b <= hi <= v@.len(),
            trim_end(v@.subrange(a as int, hi as int)) == trim_end(
                v@.subrange(a as int, b as int),
            ),
        decreases b - a,
    {
        assert(v@.subrange(a as int, b as int).drop_last() =~= v@.subrange(
            a as int,
            b - 1,
        ));
        b = b - 1;
    }
    (a, b)
}

// ---------------------------------------------------------------------------
// Searching
// ---------------------------------------------------------------------------

/// The index of the first `c` in `s`, or `s.len()` when there is none.
pub open spec fn first_pos(s: Seq<char>, c: char) -> int
    decreases s.len(),
{
    if s.len() == 0 {
        0
    } else if s[0] == c {
        0
    } else {
        1 + first_pos(s.drop_first(), c)
    }
}

/// `first_pos` is the first place of `c`, and `s.len()` when `c` is absent.
pub proof fn lemma_first_pos(s: Seq<char>, c: char)
    ensures
        0 <= first_pos(s, c) <= s.len(),
        first_pos(s, c) < s.len() ==> s[first_pos(s, c)] == c,
        forall|i: int| 0 <= i < first_pos(s, c) ==> s[i] != c,
    decreases s.len(),
{
    if s.len() > 0 && s[0] != c {
        lemma_first_pos(s.drop_first(), c);
        assert forall|i: int| 0 <= i < first_pos(s, c) implies s[i] != c by {
            if i > 0 {
                assert(s[i] == s.drop_first()[i - 1]);
            }
        }
    }
}

/// A position characterised as in `lemma_first_pos` is `first_pos`.
pub proof fn lemma_first_pos_unique(s: Seq<char>, c: char, k: int)
    requires
        0 <= k <= s.len(),
        k < s.len() ==> s[k] == c,
        forall|i: int| 0 <= i < k ==> s[i] != c,
    ensures
        first_pos(s, c) == k,
    decreases s.len(),
{
    if s.len() > 0 && k > 0 {
        assert(s[0] != c);
        assert forall|i: int| 0 <= i < k - 1 implies s.drop_first()[i] != c by {
            assert(s.drop_first()[i] == s[i + 1]);
        }
        lemma_first_pos_unique(s.drop_first(), c, k - 1);
    }
}

/// The index of the first `c` in `v[lo..hi]`, or `hi` when there is none.
pub fn find_char(v: &[char], lo: usize, hi: usize, c: char) -> (k: usize)
    requires
        lo <= hi <= v@.len(),
    ensures
        lo <= k <= hi,
        k - lo == first_pos(v@.subrange(lo as int, hi as int), c),
{
    let mut k = lo;
    while k < hi && v[k] != c
        invariant
            lo <= k <= hi <= v@.len(),
            forall|i: int| lo <= i < k ==> v@[i] != c,
        decreases hi - k,
    {
        k = k + 1;
    }
    proof {
        let s = v@.subrange(lo as int, hi as int);
        lemma_first_pos_unique(s, c, k - lo);
    }
    k
}

/// `needle` occurs in `hay` at position `i`.
pub open spec fn occurs_at(hay: Seq<char>, needle: Seq<char>, i: int) -> bool {
    0 <= i && i + needle.len() <= hay.len() && hay.subrange(i, i + needle.len()) == needle
}

/// `needle` occurs somewhere in `hay` (`str::contains` with a string pattern).
pub open spec fn has_substring(hay: Seq<char>, needle: Seq<char>) -> bool {
    exists|i: int| occurs_at(hay, needle, i)
}

/// The empty text occurs in every text.
pub proof fn lemma_empty_substring(hay: Seq<char>, needle: Seq<char>)
    requires
        needle.len() == 0,
    ensures
        has_substring(hay, needle),
{
    assert(hay.subrange(0, 0) =~= needle);
    assert(occurs_at(hay, needle, 0));
}

/// Occurring in is transitive: what occurs in a text that occurs in `hay`
/// occurs in `hay`.
pub proof fn lemma_substring_transitive(hay: Seq<char>, mid: Seq<char>, needle: Seq<char>)
    requires
        has_substring(hay, mid),
        has_substring(mid, needle),
    ensures
        has_substring(hay, needle),
{
    let i = choose|i: int| occurs_at(hay, mid, i);
    let j = choose|j: int| occurs_at(mid, needle, j);
    assert forall|k: int| 0 <= k < needle.len() implies hay[i + j + k] == #[trigger] needle[k] by {
        assert(mid.subrange(j, j + needle.len())[k] == needle[k]);
        assert(hay.subrange(i, i + mid.len())[j + k] == mid[j + k]);
    }
    assert(hay.subrange(i + j, i + j + needle.len()) =~= needle);
    assert(occurs_at(hay, needle, i + j));
}

/// `hay` begins with `prefix` (`str::starts_with`).
pub open spec fn has_prefix(hay: Seq<char>, prefix: Seq<char>) -> bool {
    occurs_at(hay, prefix, 0)
}

/// `hay` ends with `suffix` (`str::ends_with`).
pub open spec fn has_suffix(hay: Seq<char>, suffix: Seq<char>) -> bool {
    occurs_at(hay, suffix, hay.len() - suffix.len())
}

/// Whether `needle` occurs in `hay` at position `i`.
pub fn matches_at(hay: &[char], needle: &[char], i: usize) -> (b: bool)
    ensures
        b == occurs_at(hay@, needle@, i as int),
{
    if i > hay.len() || needle.len() > hay.len() - i {
        return false;
    }
    let mut j: usize = 0;
    while j < needle.len()
        invariant
            i + needle@.len() <= hay@.len() <= usize::MAX,
            j <= needle@.len(),
            forall|k: int| 0 <= k < j ==> hay@[i + k] == needle@[k],
        decreases needle@.len() - j,
    {
        if hay[i + j] != needle[j] {
            assert(hay@.subrange(i as int, i + needle@.len())[j as int] != needle@[j as int]);
            return false;
        }
        j = j + 1;
    }
    assert(hay@.subrange(i as int, i + needle@.len()) =~= needle@);
    true
}

/// Whether `needle` occurs somewhere in `hay`.
pub fn contains_chars(hay: &[char], needle: &[char]) -> (b: bool)
    ensures
        b == has_substring(hay@, needle@),
{
    if needle.len() > hay.len() {
        return false;
    }
    let last = hay.len() - needle.len();
    let mut i: usize = 0;
    loop
        invariant
            last == hay@.len() - needle@.len(),
            i <= last,
            forall|k: int| 0 <= k < i ==> !occurs_at(hay@, needle@, k),
        decreases last - i,
    {
        if matches_at(hay, needle, i) {
            return true;
        }
        if i == last {
            return false;
        }
        i = i + 1;
    }
}

/// Whether `hay` begins with `prefix`.
pub fn starts_with_chars(hay: &[char], prefix: &[char]) -> (b: bool)
    ensures
        b == has_prefix(hay@, prefix@),
{
    matches_at(hay, prefix, 0)
}

/// Whether `hay` ends with `suffix`.
pub fn ends_with_chars(hay: &[char], suffix: &[char]) -> (b: bool)
    ensures
        b == has_suffix(hay@, suffix@),
{
    if suffix.len() > hay.len() {
        return false;
    }
    matches_at(hay, suffix, hay.len() - suffix.len())
}

// ---------------------------------------------------------------------------
// Order
// ---------------------------------------------------------------------------

/// Lexicographic order by code point: the order of `String` (`Ord for str`
/// compares the UTF-8 bytes, which orders as the code points do).
pub open spec fn text_lt(a: Seq<char>, b: Seq<char>) -> bool
    decreases a.len(),
{
    if a.len() == 0 {
        b.len() > 0
    } else if b.len() == 0 {
        false
    } else if a[0] != b[0] {
        (a[0] as u32) < (b[0] as u32)
    } else {
        text_lt(a.drop_first(), b.drop_first())
    }
}

/// `text_lt` is irreflexive.
pub proof fn lemma_text_lt_irreflexive(a: Seq<char>)
    ensures
        !text_lt(a, a),
    decreases a.len(),
{
    if a.len() > 0 {
        lemma_text_lt_irreflexive(a.drop_first());
    }
}

/// Two different texts are ordered one way or the other.
pub proof fn lemma_text_lt_total(a: Seq<char>, b: Seq<char>)
    ensures
        a == b || text_lt(a, b) || text_lt(b, a),
    decreases a.len(),
{
    if a.len() > 0 && b.len() > 0 && a[0] == b[0] {
        lemma_text_lt_total(a.drop_first(), b.drop_first());
        if a.drop_first() == b.drop_first() {
            assert(a =~= seq![a[0]] + a.drop_first());
            assert(b =~= seq![b[0]] + b.drop_first());
        }
    } else if a.len() > 0 && b.len() > 0 {
        vstd::utf8::char_u32_cast(a[0], a[0] as u32);
        vstd::utf8::char_u32_cast(b[0], b[0] as u32);
        assert((a[0] as u32) != (b[0] as u32));
    } else if a.len() == 0 && b.len() == 0 {
        assert(a =~= b);
    }
}

/// `text_lt` is asymmetric.
pub proof fn lemma_text_lt_asymmetric(a: Seq<char>, b: Seq<char>)
    ensures
        !(text_lt(a, b) && text_lt(b, a)),
    decreases a.len(),
{
    if a.len() > 0 && b.len() > 0 && a[0] == b[0] {
        lemma_text_lt_asymmetric(a.drop_first(), b.drop_first());
    }
}

/// `text_lt` is transitive.
pub proof fn lemma_text_lt_transitive(a: Seq<char>, b: Seq<char>, c: Seq<char>)
    requires
        text_lt(a, b),
        text_lt(b, c),
    ensures
        text_lt(a, c),
    decreases a.len(),
{
    if a.len() > 0 && b.len() > 0 && c.len() > 0 && a[0] == b[0] && b[0] == c[0] {
        lemma_text_lt_transitive(a.drop_first(), b.drop_first(), c.drop_first());
    }
}

proof fn lemma_text_lt_skip(a: Seq<char>, b: Seq<char>, i: int)
    requires
        0 <= i <= a.len(),
        i <= b.len(),
        a.take(i) == b.take(i),
    ensures
        text_lt(a, b) == text_lt(a.skip(i), b.skip(i)),
    decreases i,
{
    if i > 0 {
        assert(a[0] == a.take(i)[0]);
        assert(b[0] == b.take(i)[0]);
        assert(a.drop_first().take(i - 1) =~= a.take(i).drop_first());
        assert(b.drop_first().take(i - 1) =~= b.take(i).drop_first());
        lemma_text_lt_skip(a.drop_first(), b.drop_first(), i - 1);
        assert(a.drop_first().skip(i - 1) =~= a.skip(i));
        assert(b.drop_first().skip(i - 1) =~= b.skip(i));
    } else {
        assert(a.skip(0) =~= a);
        assert(b.skip(0) =~= b);
    }
}

/// Whether `a` comes strictly before `b` in the order of `String`.
pub fn text_less(a: &[char], b: &[char]) -> (r: bool)
    ensures
        r == text_lt(a@, b@),
{
    let mut i: usize = 0;
    while i < a.len() && i < b.len() && a[i] == b[i]
        invariant
            i <= a@.len(),
            i <= b@.len(),
            a@.take(i as int) == b@.take(i as int),
        decreases a@.len() - i,
    {
        assert(a@.take(i + 1) =~= a@.take(i as int).push(a@[i as int]));
        assert(b@.take(i + 1) =~= b@.take(i as int).push(b@[i as int]));
        i = i + 1;
    }
    proof {
        lemma_text_lt_skip(a@, b@, i as int);
    }
    if i == a.len() {
        i < b.len()
    } else if i == b.len() {
        false
    } else {
        (a[i] as u32) < (b[i] as u32)
    }
}

/// Whether `a` and `b` hold the same characters.
pub fn same_chars(a: &[char], b: &[char]) -> (r: bool)
    ensures
        r == (a@ == b@),
{
    if a.len() != b.len() {
        return false;
    }
    let mut i: usize = 0;
    while i < a.len()
        invariant
            a@.len() == b@.len(),
            i <= a@.len(),
            forall|k: int| 0 <= k < i ==> a@[k] == b@[k],
        decreases a@.len() - i,
    {
        if a[i] != b[i] {
            return false;
        }
        i = i + 1;
    }
    assert(a@ =~= b@);
    true
}

// ---------------------------------------------------------------------------
// Conversions
// ---------------------------------------------------------------------------

/// The characters of a string slice, in order.
pub fn chars_of(s: &str) -> (v: Vec<char>)
    ensures
        v@ == s@,
{
    let mut v: Vec<char> = Vec::new();
    for c in it: s.chars()
        invariant
            v@ == it.seq().take(it.index() as int),
    {
        v.push(c);
    }
    v
}

/// Builds a `String` from characters: `FromIterator<&char> for String`
/// (`Iterator::collect`), which appends the characters in order.
#[verifier::external_body]
pub(crate) fn string_from_chars(v: &[char]) -> (s: String)
    ensures
        s@ == v@,
{
    v.iter().collect()
}

/// What `str::to_lowercase` returns for a string, as characters.
pub uninterp spec fn lowercase(s: Seq<char>) -> Seq<char>;

/// Calls `str::to_lowercase`, which maps every character to its Unicode
/// lowercase form, one or more characters each (`char::to_lowercase`). The
/// contract claims that the result is a function of the input's characters
/// (`lowercase`) and that it is empty exactly when the input is; the mapping
/// itself is not written out.
#[verifier::external_body]
pub(crate) fn lowercase_chars(s: &str) -> (r: Vec<char>)
    ensures
        r@ == lowercase(s@),
        r@.len() == 0 <==> s@.len() == 0,
{
    s.to_lowercase().chars().collect()
}

/// The ASCII decimal digit for `d < 10`.
pub open spec fn digit_char(d: nat) -> char {
    ((d + 48) as u8) as char
}

/// The decimal spelling of `n`, as `ToString for usize` writes it.
pub open spec fn decimal(n: nat) -> Seq<char>
    decreases n,
{
    if n < 10 {
        seq![digit_char(n)]
    } else {
        decimal(n / 10).push(digit_char(n % 10))
    }
}

/// The decimal spelling of `n`.
pub fn decimal_string(n: usize) -> (s: String)
    ensures
        s@ == decimal(n as nat),
{
    let mut v: Vec<char> = Vec::new();
    let mut m = n;
    while m >= 10
        invariant
            decimal(n as nat) == decimal(m as nat) + v@,
        decreases m,
    {
        let d = (m % 10) as u8;
        let c = (d + 48u8) as char;
        proof {
            assert(decimal(m as nat) == decimal((m / 10) as nat).push(digit_char((m % 10) as nat)));
            assert(decimal((m / 10) as nat) + v@.insert(0, c) =~= decimal(m as nat) + v@);
        }
        v.insert(0, c);
        m = m / 10;
    }
    let d = m as u8;
    let c = (d + 48u8) as char;
    proof {
        assert(seq![c] + v@ =~= v@.insert(0, c));
    }
    v.insert(0, c);
    proof {
        lemma_decimal_digits(n as nat);
    }
    let mut s = String::new();
    let mut i: usize = 0;
    while i < v.len()
        invariant
            i <= v@.len(),
            v@ == decimal(n as nat),
            forall|k: int| 0 <= k < v@.len() ==> '0' <= #[trigger] v@[k] <= '9',
            s@ == v@.take(i as int),
        decreases v@.len() - i,
    {
        let t = digit_text(v[i]);
        s.append(t);
        assert(v@.take(i + 1) =~= v@.take(i as int) + seq![v@[i as int]]);
        i = i + 1;
    }
    assert(v@.take(v@.len() as int) =~= v@);
    s
}

/// Every character of a decimal spelling is an ASCII digit.
proof fn lemma_decimal_digits(n: nat)
    ensures
        forall|k: int| 0 <= k < decimal(n).len() ==> '0' <= #[trigger] decimal(n)[k] <= '9',
    decreases n,
{
    if n >= 10 {
        lemma_decimal_digits(n / 10);
        assert(decimal(n) == decimal(n / 10).push(digit_char(n % 10)));
    }
}

/// The one-character text of an ASCII digit.
fn digit_text(c: char) -> (t: &'static str)
    requires
        '0' <= c <= '9',
    ensures
        t@ == seq![c],
{
    proof {
        reveal_strlit("0");
        reveal_strlit("1");
        reveal_strlit("2");
        reveal_strlit("3");
        reveal_strlit("4");
        reveal_strlit("5");
        reveal_strlit("6");
        reveal_strlit("7");
        reveal_strlit("8");
        reveal_strlit("9");
    }
    if c == '0' {
        assert("0"@ =~= seq![c]);
        "0"
    } else if c == '1' {
        assert("1"@ =~= seq![c]);
        "1"
    } else if c == '2' {
        assert("2"@ =~= seq![c]);
        "2"
    } else if c == '3' {
        assert("3"@ =~= seq![c]);
        "3"
    } else if c == '4' {
        assert("4"@ =~= seq![c]);
        "4"
    } else if c == '5' {
        assert("5"@ =~= seq![c]);
        "5"
    } else if c == '6' {
        assert("6"@ =~= seq![c]);
        "6"
    } else if c == '7' {
        assert("7"@ =~= seq![c]);
        "7"
    } else if c == '8' {
        assert("8"@ =~= seq![c]);
        "8"
    } else {
        assert("9"@ =~= seq![c]);
        "9"
    }
}

// ---------------------------------------------------------------------------
// Numbers
// ---------------------------------------------------------------------------

/// The value of digit `c` in base `radix` (`char::to_digit`), for radix <= 36.
pub open spec fn digit_value(c: char, radix: nat) -> Option<nat> {
    let u = c as u32;
    let v: int = if 48 <= u <= 57 {
        u - 48
    } else if 97 <= u <= 122 {
        u - 87
    } else if 65 <= u <= 90 {
        u - 55
    } else {
        99
    };
    if v < radix {
        Some(v as nat)
    } else {
        None
    }
}

/// The value of a run of digits, or `None` if one is not a digit.
pub open spec fn digits_value(d: Seq<char>, radix: nat) -> Option<nat>
    decreases d.len(),
{
    if d.len() == 0 {
        Some(0)
    } else {
        match (digits_value(d.drop_last(), radix), digit_value(d.last(), radix)) {
            (Some(p), Some(x)) => Some(p * radix + x),
            _ => None,
        }
    }
}

/// `u32::from_str_radix(s, radix)` as an option: an optional `+`, then at
/// least one digit, and a value that fits in a `u32`.
pub open spec fn parse_u32(s: Seq<char>, radix: nat) -> Option<nat> {
    let d = if s.len() > 0 && s[0] == '+' {
        s.drop_first()
    } else {
        s
    };
    if d.len() == 0 {
        None
    } else {
        match digits_value(d, radix) {
            Some(v) => if v <= u32::MAX {
                Some(v)
            } else {
                None
            },
            None => None,
        }
    }
}

/// The value of digit `c` in base `radix`.
pub fn char_digit(c: char, radix: u32) -> (r: Option<u32>)
    requires
        2 <= radix <= 36,
    ensures
        r matches Some(x) ==> digit_value(c, radix as nat) == Some(x as nat),
        r is None ==> digit_value(c, radix as nat) is None,
{
    let u = c as u32;
    let v: u32 = if 48 <= u && u <= 57 {
        u - 48
    } else if 97 <= u && u <= 122 {
        u - 87
    } else if 65 <= u && u <= 90 {
        u - 55
    } else {
        99
    };
    if v < radix {
        Some(v)
    } else {
        None
    }
}

proof fn lemma_capped_step(p: nat, acc: nat, r: nat, x: nat, cap: nat)
    requires
        acc == if p < cap { p } else { cap },
        1 <= r,
    ensures
        (if p * r + x < cap { p * r + x } else { cap }) == (if acc * r + x < cap {
            acc * r + x
        } else {
            cap
        }),
{
    if p >= cap {
        assert(p * r >= cap * 1) by (nonlinear_arith)
            requires
                p >= cap,
                r >= 1,
        ;
        assert(cap * r >= cap * 1) by (nonlinear_arith)
            requires
                r >= 1,
        ;
    }
}

/// Parses `v[lo..hi]` as `u32::from_str_radix` does.
pub fn parse_u32_chars(v: &[char], lo: usize, hi: usize, radix: u32) -> (r: Option<u32>)
    requires
        lo <= hi <= v@.len(),
        2 <= radix <= 36,
    ensures
        r matches Some(x) ==> parse_u32(v@.subrange(lo as int, hi as int), radix as nat) == Some(
            x as nat,
        ),
        r is None ==> parse_u32(v@.subrange(lo as int, hi as int), radix as nat) is None,
{
    let ghost s = v@.subrange(lo as int, hi as int);
    let mut start = lo;
    if lo < hi && v[lo] == '+' {
        start = lo + 1;
    }
    let ghost d = v@.subrange(start as int, hi as int);
    assert(d == if s.len() > 0 && s[0] == '+' {
        s.drop_first()
    } else {
        s
    });
    if start == hi {
        return None;
    }
    let cap: u64 = 0x1_0000_0000;
    let mut acc: u64 = 0;
    let mut ok = true;
    let mut i = start;
    while i < hi
        invariant
            start <= i <= hi <= v@.len(),
            2 <= radix <= 36,
            cap == 0x1_0000_0000,
            d == v@.subrange(start as int, hi as int),
            acc <= cap,
            ok == (digits_value(d.take(i - start), radix as nat) is Some),
            ok ==> acc == (if digits_value(d.take(i - start), radix as nat).unwrap() < cap {
                digits_value(d.take(i - start), radix as nat).unwrap()
            } else {
                cap as nat
            }),
        decreases hi - i,
    {
        let ghost t = d.take(i - start);
        assert(d.take(i + 1 - start).drop_last() =~= t);
        assert(d.take(i + 1 - start).last() == v@[i as int]);
        match char_digit(v[i], radix) {
            Some(x) => {
                if ok {
                    proof {
                        lemma_capped_step(
                            digits_value(t, radix as nat).unwrap(),
                            acc as nat,
                            radix as nat,
                            x as nat,
                            cap as nat,
                        );
                    }
                    assert(acc * radix + x <= 0x1_0000_0000 * 36 + 36) by (nonlinear_arith)
                        requires
                            acc <= 0x1_0000_0000,
                            radix <= 36,
                            x < 36,
                    ;
                    let next = acc * (radix as u64) + (x as u64);
                    acc = if next < cap {
                        next
                    } else {
                        cap
                    };
                }
            },
            None => {
                ok = false;
            },
        }
        i = i + 1;
    }
    assert(d.take(hi - start) =~= d);
    if ok && acc < cap {
        Some(acc as u32)
    } else {
        None
    }
}

// ---------------------------------------------------------------------------
// Lines and words
// ---------------------------------------------------------------------------

/// `l` without one trailing carriage return.
pub open spec fn strip_cr(l: Seq<char>) -> Seq<char> {
    if l.len() > 0 && l.last() == '\r' {
        l.drop_last()
    } else {
        l
    }
}

/// The lines of `s` as `str::lines` yields them: split after each `\n`, the
/// `\n` and a `\r` just before it dropped, and no empty line after a final
/// `\n`.
pub open spec fn lines(s: Seq<char>) -> Seq<Seq<char>>
    decreases s.len(),
{
    if s.len() == 0 {
        seq![]
    } else {
        let k = first_pos(s, '\n');
        if k >= s.len() {
            seq![s]
        } else {
            proof {
                lemma_first_pos(s, '\n');
            }
            seq![strip_cr(s.take(k))] + lines(s.skip(k + 1))
        }
    }
}

/// The index of the first whitespace character in `s`, or `s.len()`.
pub open spec fn first_ws(s: Seq<char>) -> int
    decreases s.len(),
{
    if s.len() == 0 {
        0
    } else if is_white_space(s[0]) {
        0
    } else {
        1 + first_ws(s.drop_first())
    }
}

/// `first_ws` is the first whitespace position, and `s.len()` when none.
pub proof fn lemma_first_ws(s: Seq<char>)
    ensures
        0 <= first_ws(s) <= s.len(),
        first_ws(s) < s.len() ==> is_white_space(s[first_ws(s)]),
        forall|i: int| 0 <= i < first_ws(s) ==> !is_white_space(s[i]),
    decreases s.len(),
{
    if s.len() > 0 && !is_white_space(s[0]) {
        lemma_first_ws(s.drop_first());
        assert forall|i: int| 0 <= i < first_ws(s) implies !is_white_space(s[i]) by {
            if i > 0 {
                assert(s[i] == s.drop_first()[i - 1]);
            }
        }
    }
}

/// `trim_start` removes a prefix and leaves no leading whitespace.
pub proof fn lemma_trim_start(s: Seq<char>)
    ensures
        trim_start(s).len() <= s.len(),
        trim_start(s) == s.skip(s.len() - trim_start(s).len()),
        trim_start(s).len() > 0 ==> !is_white_space(trim_start(s)[0]),
        forall|i: int| 0 <= i < s.len() - trim_start(s).len() ==> is_white_space(s[i]),
    decreases s.len(),
{
    if s.len() > 0 && is_white_space(s[0]) {
        lemma_trim_start(s.drop_first());
        assert(s.drop_first().skip(s.drop_first().len() - trim_start(s).len()) =~= s.skip(
            s.len() - trim_start(s).len(),
        ));
        assert forall|i: int| 0 <= i < s.len() - trim_start(s).len() implies is_white_space(
            s[i],
        ) by {
            if i > 0 {
                assert(s[i] == s.drop_first()[i - 1]);
            }
        }
    } else {
        assert(s.skip(0) =~= s);
    }
}

/// The words of `s`: its maximal runs of non-whitespace characters, as
/// `str::split_whitespace` yields them.
pub open spec fn words(s: Seq<char>) -> Seq<Seq<char>>
    decreases s.len(),
{
    let t = trim_start(s);
    if t.len() == 0 {
        seq![]
    } else {
        let k = first_ws(t);
        proof {
            lemma_trim_start(s);
            lemma_first_ws(t);
        }
        seq![t.take(k)] + words(t.skip(k))
    }
}

/// How `words` reads `s` from position `i`: whitespace is skipped, and a
/// word runs from a non-whitespace character to the next whitespace.
pub proof fn lemma_words_step(s: Seq<char>, i: int, j: int)
    requires
        0 <= i < j <= s.len(),
    ensures
        is_white_space(s[i]) && j == i + 1 ==> words(s.skip(i)) == words(s.skip(j)),
        !is_white_space(s[i]) && (forall|m: int| i <= m < j ==> !is_white_space(s[m])) && (j
            == s.len() || is_white_space(s[j])) ==> words(s.skip(i)) == seq![
            s.subrange(i, j),
        ] + words(s.skip(j)),
{
    let t = s.skip(i);
    if is_white_space(s[i]) && j == i + 1 {
        assert(t.drop_first() =~= s.skip(j));
        assert(trim_start(t) == trim_start(s.skip(j)));
    }
    if !is_white_space(s[i]) && (forall|m: int| i <= m < j ==> !is_white_space(s[m])) && (j
        == s.len() || is_white_space(s[j])) {
        assert(trim_start(t) == t);
        lemma_first_ws(t);
        assert forall|m: int| 0 <= m < j - i implies !is_white_space(t[m]) by {
            assert(t[m] == s[i + m]);
        }
        if first_ws(t) < j - i {
            assert(is_white_space(t[first_ws(t)]));
        }
        if j < s.len() {
            assert(t[j - i] == s[j]);
        }
        assert(first_ws(t) == j - i);
        assert(t.take(j - i) =~= s.subrange(i, j));
        assert(t.skip(j - i) =~= s.skip(j));
    }
}

/// `words` of a text with no characters left.
pub proof fn lemma_words_empty(s: Seq<char>)
    ensures
        words(s.skip(s.len() as int)) == Seq::<Seq<char>>::empty(),
{
    assert(s.skip(s.len() as int) =~= Seq::<char>::empty());
    assert(trim_start(Seq::<char>::empty()) =~= Seq::<char>::empty());
}

} // verus!
