use kor::Block;
use kor::hangul::is_hangeul;

#[test]
fn decompose_first_and_last_syllables() {
    let b = Block::new('가').unwrap();
    assert_eq!((b.initial, b.vowel, b.final_), (0, 0, 0));
    let b = Block::new('힣').unwrap();
    assert_eq!((b.initial, b.vowel, b.final_), (18, 20, 27));
}

#[test]
fn decompose_han() {
    let b = Block::new('한').unwrap();
    assert_eq!((b.initial, b.vowel, b.final_), (18, 0, 4));
}

#[test]
fn compose_round_trips() {
    for c in ['가', '한', '글', '춥', '힣'] {
        let b = Block::new(c).unwrap();
        assert_eq!(b.to_char(), c);
    }
}

#[test]
fn from_parts_composes() {
    assert_eq!(Block::from_parts(18, 0, 4).to_char(), '한');
    assert_eq!(Block::from_parts(0, 0, 0).to_char(), '가');
}

#[test]
fn with_final_and_with_vowel_replace_components() {
    let b = Block::new('가').unwrap();
    assert_eq!(b.with_final(4).to_char(), '간');
    assert_eq!(b.with_vowel(1).to_char(), '개');
    assert_eq!(b.with_vowel(1).with_final(20).to_char(), '갰');
}

#[test]
fn non_syllables_are_rejected() {
    assert!(Block::new('a').is_none());
    assert!(Block::new('ㄱ').is_none());
    assert!(Block::new(' ').is_none());
    assert!(!is_hangeul('z'));
    assert!(is_hangeul('가'));
    assert!(is_hangeul('힣'));
}
