use kor::read_definitions;
use kor::read_definitions_iter;
use kor::wordlist::clean_hangeul;
use kor::wordlist::read_definition;
use kor::wordlist::read_meaning;

#[test]
fn one_entry_with_hanja_and_meanings() {
    let text = "유치하다 (幼稚- | 幼穉-)  \n  childish\n  infantile\n";
    let defs = read_definitions(text);
    assert_eq!(defs.len(), 1);
    assert_eq!(defs[0].hangeul, "유치하다");
    assert!(defs[0].aliases.is_empty());
    assert_eq!(defs[0].hanja.as_deref(), Some("幼稚- | 幼穉-"));
    assert_eq!(defs[0].meanings, vec!["childish", "infantile"]);
}

#[test]
fn entry_without_hanja() {
    let defs = read_definitions("가다\n  go\n");
    assert_eq!(defs.len(), 1);
    assert_eq!(defs[0].hangeul, "가다");
    assert_eq!(defs[0].hanja, None);
    assert_eq!(defs[0].meanings, vec!["go"]);
}

#[test]
fn aliases_split_on_bar_and_clean() {
    let defs = read_definitions("가다|~가다|-가다\n  go\n");
    assert_eq!(defs.len(), 1);
    assert_eq!(defs[0].hangeul, "가다");
    assert_eq!(defs[0].aliases, vec!["가다", "가다"]);
}

#[test]
fn mark_after_white_space_is_kept() {
    // the leading mark is dropped only as the very first character
    let defs = read_definitions("가다 | ~가다\n  go\n");
    assert_eq!(defs[0].aliases, vec!["~가다"]);
}

#[test]
fn comments_and_blank_lines_are_skipped() {
    let text = "# word list\n\n  # indented comment\n가다\n  go\n   \n학교\n  school\n";
    let defs = read_definitions(text);
    assert_eq!(defs.len(), 2);
    assert_eq!(defs[0].hangeul, "가다");
    assert_eq!(defs[1].hangeul, "학교");
}

#[test]
fn meaning_before_any_definition_is_dropped() {
    let defs = read_definitions("  stray meaning\n가다\n  go\n");
    assert_eq!(defs.len(), 1);
    assert_eq!(defs[0].meanings, vec!["go"]);
}

#[test]
fn entry_without_meanings_is_still_read() {
    let defs = read_definitions("가다\n");
    assert_eq!(defs.len(), 1);
    assert!(defs[0].meanings.is_empty());
}

#[test]
fn carriage_returns_are_stripped() {
    let defs = read_definitions("가다\r\n  go\r\n");
    assert_eq!(defs.len(), 1);
    assert_eq!(defs[0].hangeul, "가다");
    assert_eq!(defs[0].meanings, vec!["go"]);
}

#[test]
fn iter_and_collect_agree() {
    let text = "가다\n  go\n학교 (學校)\n  school\n";
    let a = read_definitions(text);
    let b = read_definitions_iter(text);
    assert_eq!(a.len(), b.len());
    assert_eq!(a[1].hanja.as_deref(), Some("學校"));
}

#[test]
fn read_definition_parses_one_line() {
    let d = read_definition("학교 (學校)").unwrap();
    assert_eq!(d.hangeul, "학교");
    assert_eq!(d.hanja.as_deref(), Some("學校"));
    assert!(d.meanings.is_empty());
}

#[test]
fn read_definition_of_empty_line_is_none() {
    assert!(read_definition("").is_none());
}

#[test]
fn parens_not_closing_the_line_stay_in_the_head() {
    let d = read_definition("a(b) c").unwrap();
    assert_eq!(d.hangeul, "a(b) c");
    assert_eq!(d.hanja, None);
}

#[test]
fn clean_hangeul_strips_one_mark_and_trims() {
    assert_eq!(clean_hangeul("  가다  "), "가다");
    assert_eq!(clean_hangeul("~가다"), "가다");
    assert_eq!(clean_hangeul("- 가다 "), "가다");
    assert_eq!(clean_hangeul("--가다"), "-가다");
    assert_eq!(clean_hangeul(""), "");
}

#[test]
fn read_meaning_trims_the_line() {
    assert_eq!(read_meaning("  to go  "), "to go");
    assert_eq!(read_meaning("\t x\t"), "x");
}
