use kor::Def;
use kor::Dict;
use kor::TranslationPart;
use kor::translate;
use kor::translate_iter;

fn def(hangeul: &str, meaning: &str) -> Def {
    Def {
        hangeul: hangeul.to_string(),
        aliases: vec![],
        hanja: None,
        meanings: vec![meaning.to_string()],
    }
}

#[test]
fn no_match_text_round_trips() {
    let mut d = Dict::new();
    d.add_definitions(vec![def("학교", "school")]);
    let text = "hello, world / 1234";
    assert_eq!(translate(text, &d), text);
}

#[test]
fn empty_text_round_trips() {
    let d = Dict::new();
    assert_eq!(translate("", &d), "");
}

#[test]
fn segmentation_interleaves_untranslated_spans() {
    let mut d = Dict::new();
    d.add_definitions(vec![def("학교", "school"), def("가다", "go")]);
    assert_eq!(translate("나는 학교에 간다", &d), "나는 [school]에 [go]다");
}

#[test]
fn brace_meaning_keeps_only_the_source() {
    let mut d = Dict::new();
    d.add_definitions(vec![def("서울", "{place name")]);
    assert_eq!(translate("서울에", &d), "{서울에");
}

#[test]
fn angle_meaning_substitutes_verbatim() {
    let mut d = Dict::new();
    d.add_definitions(vec![def("은", "<topic marker")]);
    assert_eq!(translate("은", &d), "<topic marker");
}

#[test]
fn plain_meaning_is_bracketed() {
    let mut d = Dict::new();
    d.add_definitions(vec![def("손", "hand")]);
    assert_eq!(translate("손", &d), "[hand]");
}

#[test]
fn longest_key_wins_during_translation() {
    let mut d = Dict::new();
    d.add_definitions(vec![def("학", "crane"), def("학교", "school")]);
    assert_eq!(translate("학교", &d), "[school]");
}

#[test]
fn translate_iter_yields_alternating_parts() {
    let mut d = Dict::new();
    d.add_definitions(vec![def("학교", "school")]);
    let parts = translate_iter("나는 학교에", &d);
    assert_eq!(parts.len(), 3);
    match &parts[0] {
        TranslationPart::Untranslated(s) => assert_eq!(s, "나는 "),
        _ => panic!("expected an untranslated run"),
    }
    match &parts[1] {
        TranslationPart::Translated(s, found) => {
            assert_eq!(s, "학교");
            assert_eq!(found.meanings[0], "school");
        },
        _ => panic!("expected a translated span"),
    }
    match &parts[2] {
        TranslationPart::Untranslated(s) => assert_eq!(s, "에"),
        _ => panic!("expected an untranslated run"),
    }
}

#[test]
fn translate_iter_on_no_match_text_is_one_run() {
    let d = Dict::new();
    let parts = translate_iter("abc", &d);
    assert_eq!(parts.len(), 1);
    match &parts[0] {
        TranslationPart::Untranslated(s) => assert_eq!(s, "abc"),
        _ => panic!("expected an untranslated run"),
    }
}

#[test]
fn adjacent_matches_have_no_gap() {
    let mut d = Dict::new();
    d.add_definitions(vec![def("학교", "school"), def("손", "hand")]);
    assert_eq!(translate("학교손", &d), "[school][hand]");
}
