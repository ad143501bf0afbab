use kor::modes::clean_output;
use kor::modes::line_by_line_output;
use kor::modes::retranslate_output;

#[test]
fn line_by_line_adds_auto_and_manual_lines() {
    let out = line_by_line_output("나는 간다", "나는 [go]다");
    assert_eq!(out, vec!["나는 간다", "-> 나는 [go]다", "-| ", "-| ", "-| "]);
}

#[test]
fn line_by_line_omits_unchanged_translation() {
    let out = line_by_line_output("abc", "abc");
    assert_eq!(out, vec!["abc", "-| ", "-| ", "-| "]);
}

#[test]
fn line_by_line_passes_white_lines_through() {
    assert_eq!(line_by_line_output("   ", "   "), vec!["   "]);
}

#[test]
fn retranslate_keeps_manual_and_drops_old_auto_lines() {
    assert_eq!(retranslate_output("-| done by hand", "x"), vec!["-| done by hand"]);
    assert_eq!(retranslate_output("-> old machine line", "x"), Vec::<String>::new());
    assert_eq!(retranslate_output(" ", " "), vec![" "]);
    assert_eq!(retranslate_output("간다", "[go]다"), vec!["간다", "-> [go]다"]);
    assert_eq!(retranslate_output("abc", "abc"), vec!["abc"]);
}

#[test]
fn clean_keeps_manual_text_only() {
    assert_eq!(clean_output("-| 손으로 번역"), vec!["손으로 번역"]);
    assert_eq!(clean_output("-| "), vec!["-| "]);
    assert_eq!(clean_output("-|"), vec!["-| "]);
    assert_eq!(clean_output("원문 줄"), Vec::<String>::new());
    assert_eq!(clean_output("-> 자동 번역"), Vec::<String>::new());
    assert_eq!(clean_output("  "), vec![""]);
}
