use epubparse::strutil::char_is_space;
use epubparse::strutil::join_strings;
use epubparse::strutil::parse_usize;
use epubparse::strutil::path_dir;
use epubparse::strutil::path_join;
use epubparse::strutil::str_contains;
use epubparse::strutil::str_eq;
use epubparse::strutil::str_trim;
use epubparse::reconcile::split_src;

#[test]
fn parse_usize_accepts_plain_digits() {
    assert_eq!(Some(0), parse_usize("0"));
    assert_eq!(Some(14), parse_usize("14"));
    assert_eq!(Some(usize::MAX), parse_usize(&usize::MAX.to_string()));
}

#[test]
fn parse_usize_accepts_leading_plus() {
    assert_eq!(Some(7), parse_usize("+7"));
}

#[test]
fn parse_usize_rejects_bad_input() {
    assert_eq!(None, parse_usize(""));
    assert_eq!(None, parse_usize("+"));
    assert_eq!(None, parse_usize("-3"));
    assert_eq!(None, parse_usize("12a"));
    assert_eq!(None, parse_usize(" 12"));
    assert_eq!(None, parse_usize("18446744073709551616"));
}

#[test]
fn parse_usize_matches_std() {
    for s in ["0", "14", "+7", "", "+", "-3", "12a", " 12", "007", "18446744073709551616"] {
        assert_eq!(s.parse::<usize>().ok(), parse_usize(s));
    }
}

#[test]
fn trim_strips_unicode_whitespace() {
    assert_eq!("abc", str_trim(" \t\n abc \u{3000}\u{a0}"));
    assert_eq!("", str_trim("   "));
    assert_eq!("x y", str_trim("x y"));
    for s in ["  a b\t", "\u{2028}z\u{2029}", "", "\r\n"] {
        assert_eq!(s.trim(), str_trim(s));
    }
}

#[test]
fn contains_finds_substrings() {
    assert!(str_contains("ch14.xhtml#anchor", "ch14.xhtml"));
    assert!(!str_contains("ch14.xhtml", "ch1.xhtml"));
    assert!(str_contains("anything", ""));
    assert!(str_contains("\u{5377}\u{4e00} \u{8003}\u{57ce}\u{968d}", "\u{8003}\u{57ce}"));
    assert!(!str_contains("ab", "abc"));
}

#[test]
fn str_eq_compares_by_characters() {
    assert!(str_eq("", ""));
    assert!(str_eq("caf\u{e9}", "caf\u{e9}"));
    assert!(!str_eq("a", "ab"));
    assert!(!str_eq("ab", "ac"));
}

#[test]
fn join_interleaves_separator() {
    let parts: Vec<String> = vec!["a".to_string(), "".to_string(), "c".to_string()];
    assert_eq!("a\n\nc", join_strings(&parts, "\n"));
    assert_eq!("", join_strings(&Vec::new(), "\n"));
    assert_eq!("only", join_strings(&vec!["only".to_string()], " "));
}

#[test]
fn path_helpers_split_and_join() {
    assert_eq!("OEBPS", path_dir("OEBPS/content.opf"));
    assert_eq!("", path_dir("content.opf"));
    assert_eq!("a/b", path_dir("a/b/c.txt"));
    assert_eq!("OEBPS/toc.ncx", path_join("OEBPS", "toc.ncx"));
    assert_eq!("toc.ncx", path_join("", "toc.ncx"));
}

#[test]
fn split_src_separates_anchor() {
    let (f, a) = split_src("chapter.xhtml#sec2");
    assert_eq!("chapter.xhtml", f);
    assert_eq!(Some("sec2".to_string()), a);
    let (f2, a2) = split_src("chapter.xhtml");
    assert_eq!("chapter.xhtml", f2);
    assert_eq!(None, a2);
    let (f3, a3) = split_src("c.xhtml#a#b");
    assert_eq!("c.xhtml", f3);
    assert_eq!(Some("a".to_string()), a3);
}

#[test]
fn whitespace_predicate_matches_std() {
    for c in [' ', '\t', '\n', '\u{a0}', '\u{3000}', 'a', '0', '\u{4e00}'] {
        assert_eq!(c.is_whitespace(), char_is_space(c));
    }
}
