use kor::conjugate::simple_conjugations_iter;

fn forms(stem: &str) -> Vec<String> {
    simple_conjugations_iter(stem)
}

#[test]
fn open_syllable_with_a_vowel() {
    // stem of "가다": past/descriptive, future, formal, and the ㅐ
    // contraction with and without ㅆ.
    assert_eq!(forms("가"), vec!["가", "간", "갈", "갑", "개", "갰"]);
}

#[test]
fn open_syllable_with_i_vowel() {
    assert_eq!(forms("마시"), vec!["마시", "마신", "마실", "마십", "마셔", "마셨"]);
}

#[test]
fn open_syllable_with_eu_vowel() {
    assert_eq!(forms("쓰"), vec!["쓰", "쓴", "쓸", "씁", "써", "썼"]);
}

#[test]
fn open_syllable_with_other_vowel() {
    // vowel ㅗ takes the default open-syllable branch: ㄹ again and ㅆ.
    assert_eq!(forms("오"), vec!["오", "온", "올", "옵", "올", "옸"]);
}

#[test]
fn rieul_final_drops_and_nasalises() {
    assert_eq!(forms("살"), vec!["살", "사", "산"]);
}

#[test]
fn bieup_final_gets_five_two_block_endings() {
    assert_eq!(forms("춥"), vec!["춥", "추우", "추운", "추울", "추워", "추웠"]);
}

#[test]
fn other_final_keeps_only_the_stem() {
    assert_eq!(forms("먹"), vec!["먹"]);
}

#[test]
fn non_hangul_stem_degrades_to_itself() {
    assert_eq!(forms("abc"), vec!["abc"]);
}

#[test]
fn empty_stem_degrades_to_itself() {
    assert_eq!(forms(""), vec![""]);
}

#[test]
fn only_last_block_is_rewritten() {
    let out = forms("나가");
    assert_eq!(out[0], "나가");
    assert!(out.iter().all(|f| f.starts_with("나")));
    assert_eq!(out, vec!["나가", "나간", "나갈", "나갑", "나개", "나갰"]);
}
