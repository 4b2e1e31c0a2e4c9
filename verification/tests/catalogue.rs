use cce_fonts::pages::{count_charset, is_user_font, read_font_listing, FontEntry, Page};

fn triples(v: &[FontEntry]) -> Vec<(String, String, String)> {
    v.iter().map(|e| (e.family.clone(), e.style.clone(), e.file.clone())).collect()
}

fn t(a: &str, b: &str, c: &str) -> (String, String, String) {
    (a.to_string(), b.to_string(), c.to_string())
}

#[test]
fn listing_is_cleaned_sorted_and_deduplicated() {
    let out = "Noto Sans,Noto Sans Display\tBold,Fett\t/usr/share/fonts/NotoSans-Bold.ttf\n\
               arial\tRegular\t/home/u/.fonts/arial.ttf\n\
               Noto Sans\tBold\t/usr/share/fonts/other.ttf\n\
               broken line without tabs\n\
               Arial \t Italic \t /usr/share/fonts/ai.ttf \n";
    let fonts = read_font_listing(out, true);
    assert_eq!(
        triples(&fonts),
        vec![
            t("arial", "Regular", "/home/u/.fonts/arial.ttf"),
            t("Arial", "Italic", "/usr/share/fonts/ai.ttf"),
            t("Noto Sans", "Bold", "/usr/share/fonts/NotoSans-Bold.ttf"),
        ]
    );
}

#[test]
fn raw_listing_keeps_fields_as_printed() {
    let out = "Noto Sans,Noto Sans Display\tBold\t/a.ttf\r\nB\tR\t/b\tx\n";
    let fonts = read_font_listing(out, false);
    assert_eq!(
        triples(&fonts),
        vec![t("B", "R", "/b\tx"), t("Noto Sans,Noto Sans Display", "Bold", "/a.ttf")]
    );
}

#[test]
fn listing_keeps_listed_order_within_a_family() {
    let out = "B\tx\t/1\nA\ty\t/2\nb\tz\t/3\nA\tw\t/4";
    let fonts = read_font_listing(out, true);
    assert_eq!(
        triples(&fonts),
        vec![t("A", "y", "/2"), t("A", "w", "/4"), t("B", "x", "/1"), t("b", "z", "/3")]
    );
}

#[test]
fn listing_drops_only_adjacent_repeats() {
    let out = "A\tR\t/1\nA\tR\t/2\nA\tB\t/3\nA\tR\t/4\n";
    let fonts = read_font_listing(out, true);
    assert_eq!(triples(&fonts), vec![t("A", "R", "/1"), t("A", "B", "/3"), t("A", "R", "/4")]);
}

#[test]
fn empty_listing_has_no_fonts() {
    assert!(read_font_listing("", true).is_empty());
    assert!(read_font_listing("\n\n", false).is_empty());
}

#[test]
fn user_fonts_are_recognised() {
    assert!(is_user_font("/home/me/x.ttf"));
    assert!(is_user_font("/opt/.local/share/fonts/x.ttf"));
    assert!(is_user_font("/root/.fonts/x.otf"));
    assert!(!is_user_font("/usr/share/fonts/x.ttf"));
    assert!(!is_user_font("home/x.ttf"));
}

#[test]
fn hex_charset_is_counted() {
    assert_eq!(count_charset("20-7e a0-ff 100", 16), Some(95 + 96 + 1));
    assert_eq!(count_charset("  41\n\t42-43  ", 16), Some(3));
    assert_eq!(count_charset("", 16), Some(0));
    assert_eq!(count_charset("zz 10-zz 1-2-3 -", 16), Some(0));
    assert_eq!(count_charset("+a-+f", 16), Some(6));
}

#[test]
fn decimal_charset_is_counted() {
    assert_eq!(count_charset("0-127 160-255", 10), Some(128 + 96));
    assert_eq!(count_charset("7f", 10), Some(0));
}

#[test]
fn charset_range_running_backwards_has_no_count() {
    assert_eq!(count_charset("20-10", 16), None);
    assert_eq!(count_charset("0-ffffffff", 16), None);
    assert_eq!(count_charset("0-fffffffe", 16), Some(0xffff_ffff));
}

#[test]
fn charset_value_past_u32_is_ignored() {
    assert_eq!(count_charset("100000000 1", 16), Some(1));
}

#[test]
fn page_labels_and_icons() {
    assert_eq!(Page::Browse.label(), "Browse");
    assert_eq!(Page::Keybindings.label(), "Keys");
    assert_eq!(Page::Browse.icon(), "\u{1f524}");
    assert_eq!(Page::Keybindings.icon(), "\u{2328}");
    assert_eq!(Page::ALL, [Page::Browse, Page::Keybindings]);
}
