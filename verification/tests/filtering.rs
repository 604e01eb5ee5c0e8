use dupehunter::filter::{is_hidden, should_visit, traversal_depth, trim, ExtensionFilter};

#[test]
fn without_a_list_every_file_passes() {
    let filter = ExtensionFilter::any();
    assert!(filter.admits(Some("mp3")));
    assert!(filter.admits(Some("")));
    assert!(filter.admits(None));
    let absent = ExtensionFilter::from_argument(None);
    assert!(absent.admits(Some("txt")));
    assert!(absent.admits(None));
}

#[test]
fn a_listed_extension_passes() {
    let filter = ExtensionFilter::parse("mp3,mp4");
    assert!(filter.admits(Some("mp3")));
    assert!(filter.admits(Some("mp4")));
    assert!(!filter.admits(Some("txt")));
    assert!(!filter.admits(Some("mp")));
    assert!(!filter.admits(Some("mp34")));
}

#[test]
fn a_file_without_extension_fails_a_list() {
    let filter = ExtensionFilter::parse("mp3");
    assert!(!filter.admits(None));
}

#[test]
fn extensions_are_compared_without_case() {
    let filter = ExtensionFilter::parse("mp3");
    assert!(filter.admits(Some("MP3")));
    assert!(filter.admits(Some("Mp3")));
    let upper = ExtensionFilter::parse("JPG,Png");
    assert!(upper.admits(Some("jpg")));
    assert!(upper.admits(Some("PNG")));
    assert!(!upper.admits(Some("gif")));
}

#[test]
fn list_items_are_trimmed() {
    let filter = ExtensionFilter::parse(" mp3 ,\tmp4\n, txt");
    assert!(filter.admits(Some("mp3")));
    assert!(filter.admits(Some("mp4")));
    assert!(filter.admits(Some("txt")));
    assert!(!filter.admits(Some(" mp3")));
}

#[test]
fn an_empty_item_matches_the_empty_extension_only() {
    let filter = ExtensionFilter::parse("");
    assert!(filter.admits(Some("")));
    assert!(!filter.admits(Some("txt")));
    assert!(!filter.admits(None));
    let trailing = ExtensionFilter::parse("txt,");
    assert!(trailing.admits(Some("txt")));
    assert!(trailing.admits(Some("")));
    assert!(!trailing.admits(Some("md")));
}

#[test]
fn commas_separate_and_nothing_else_does() {
    let filter = ExtensionFilter::parse("a;b,c d");
    assert!(filter.admits(Some("a;b")));
    assert!(filter.admits(Some("c d")));
    assert!(!filter.admits(Some("a")));
    assert!(!filter.admits(Some("d")));
}

#[test]
fn an_argument_gives_a_list() {
    let filter = ExtensionFilter::from_argument(Some("rs"));
    assert!(filter.admits(Some("rs")));
    assert!(!filter.admits(Some("toml")));
    assert!(!filter.admits(None));
}

#[test]
fn non_ascii_extensions_are_lower_cased_too() {
    let filter = ExtensionFilter::parse("ÄÖ");
    assert!(filter.admits(Some("äö")));
    assert!(filter.admits(Some("Äö")));
}

#[test]
fn trim_removes_white_space_at_both_ends() {
    assert_eq!(trim("  mp3  "), "mp3");
    assert_eq!(trim("\t a b \n"), "a b");
    assert_eq!(trim("mp3"), "mp3");
    assert_eq!(trim(""), "");
    assert_eq!(trim("   "), "");
    assert_eq!(trim(" x"), "x");
    assert_eq!(trim("x "), "x");
    assert_eq!(trim("\u{2003}wide\u{a0}"), "wide");
}

#[test]
fn a_leading_dot_hides_an_entry() {
    assert!(is_hidden(Some(".git")));
    assert!(is_hidden(Some(".")));
    assert!(is_hidden(Some("..")));
    assert!(!is_hidden(Some("visible.txt")));
    assert!(!is_hidden(Some("a.b")));
    assert!(!is_hidden(Some("")));
    assert!(!is_hidden(None));
}

#[test]
fn hidden_entries_are_skipped_only_on_request() {
    assert!(should_visit(false, Some(".git")));
    assert!(should_visit(false, Some("src")));
    assert!(!should_visit(true, Some(".git")));
    assert!(should_visit(true, Some("src")));
    assert!(should_visit(true, None));
    assert!(should_visit(false, None));
}

#[test]
fn depth_is_one_unless_recursive() {
    assert_eq!(traversal_depth(false), 1);
    assert_eq!(traversal_depth(true), usize::MAX);
}

#[test]
fn white_space_is_these_twenty_five_characters() {
    let listed = |c: char| {
        let code = c as u32;
        (0x0009..=0x000d).contains(&code)
            || code == 0x0020
            || code == 0x0085
            || code == 0x00a0
            || code == 0x1680
            || (0x2000..=0x200a).contains(&code)
            || code == 0x2028
            || code == 0x2029
            || code == 0x202f
            || code == 0x205f
            || code == 0x3000
    };
    let mut count = 0;
    for code in 0..=0x10ffffu32 {
        if let Some(c) = char::from_u32(code) {
            let alone = c.to_string();
            let framed = format!("{}x{}", c, c);
            if listed(c) {
                count += 1;
                assert_eq!(trim(&alone), "", "U+{:04X} is white space", code);
                assert_eq!(trim(&framed), "x", "U+{:04X} is white space", code);
            } else {
                assert_eq!(trim(&alone), alone, "U+{:04X} is no white space", code);
                assert_eq!(trim(&framed), framed, "U+{:04X} is no white space", code);
            }
        }
    }
    assert_eq!(count, 25);
}

#[test]
fn plain_text_is_its_own_trimmed_form() {
    assert_eq!(trim("mp3"), "mp3");
    assert_eq!(trim("a b"), "a b");
    assert_eq!(trim("x"), "x");
}
