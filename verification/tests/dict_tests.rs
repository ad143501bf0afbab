use kor::Def;
use kor::Dict;

fn def(hangeul: &str, meaning: &str) -> Def {
    Def {
        hangeul: hangeul.to_string(),
        aliases: vec![],
        hanja: None,
        meanings: vec![meaning.to_string()],
    }
}

#[test]
fn verbatim_key_is_found() {
    let mut d = Dict::new();
    d.add_definitions(vec![def("학교", "school")]);
    let (p, found) = d.find_longest_match("학교에").unwrap();
    assert_eq!(p, "학교");
    assert_eq!(found.meanings[0], "school");
}

#[test]
fn hada_verb_is_indexed_under_bare_stem() {
    let mut d = Dict::new();
    d.add_definitions(vec![def("공부하다", "to study")]);
    let (p, found) = d.find_longest_match("공부를").unwrap();
    assert_eq!(p, "공부");
    assert_eq!(found.meanings[0], "to study");
}

#[test]
fn da_verb_is_indexed_under_every_conjugated_form() {
    let mut d = Dict::new();
    d.add_definitions(vec![def("가다", "go")]);
    for form in ["가", "간", "갈", "갑", "개", "갰"] {
        let (p, found) = d.find_longest_match(form).unwrap();
        assert_eq!(p, form);
        assert_eq!(found.meanings[0], "go");
    }
}

#[test]
fn aliases_share_the_definition() {
    let mut d = Dict::new();
    let mut e = def("가다", "go");
    e.aliases.push("학교".to_string());
    d.add_definitions(vec![e]);
    let (_, via_alias) = d.find_longest_match("학교").unwrap();
    let (_, via_form) = d.find_longest_match("간").unwrap();
    assert_eq!(via_alias.meanings[0], "go");
    assert_eq!(via_form.meanings[0], "go");
    assert_eq!(via_alias.hangeul, "가다");
}

#[test]
fn newer_definition_replaces_older() {
    let mut d = Dict::new();
    d.add_definitions(vec![def("학교", "old gloss")]);
    d.add_definitions(vec![def("학교", "school")]);
    let (_, found) = d.find_longest_match("학교").unwrap();
    assert_eq!(found.meanings[0], "school");
}

#[test]
fn exclusion_removal_unmatches_the_form() {
    let mut d = Dict::new();
    d.add_definitions(vec![def("사다", "buy")]);
    assert!(d.find_longest_match("사다").is_some());
    let removed = d.remove("사");
    assert_eq!(removed.unwrap().meanings[0], "buy");
    assert!(d.find_longest_match("사다").is_none());
}

#[test]
fn remove_of_absent_key_returns_none() {
    let mut d = Dict::new();
    d.add_definitions(vec![def("학교", "school")]);
    assert!(d.remove("학생").is_none());
    assert!(d.find_longest_match("학교").is_some());
}

#[test]
fn insert_stores_one_exact_key() {
    let mut d = Dict::new();
    d.insert("손", def("손", "hand"));
    let (p, found) = d.find_longest_match("손을").unwrap();
    assert_eq!(p, "손");
    assert_eq!(found.meanings[0], "hand");
}

#[test]
fn shortest_match_on_dict() {
    let mut d = Dict::new();
    d.add_definitions(vec![def("학", "crane"), def("학교", "school")]);
    let (p, found) = d.find_shortest_match("학교에").unwrap();
    assert_eq!(p, "학");
    assert_eq!(found.meanings[0], "crane");
    let (p2, _) = d.find_longest_match("학교에").unwrap();
    assert_eq!(p2, "학교");
}

#[test]
fn bare_da_citation_form_loads_without_matching() {
    let mut d = Dict::new();
    d.add_definitions(vec![def("다", "all")]);
    assert!(d.find_longest_match("다른").is_none());
}
