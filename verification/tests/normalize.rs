use wrinkle::normalize::cleanup_text;

#[test]
fn empty_text_normalizes_to_empty() {
    assert_eq!(cleanup_text(""), "");
}

#[test]
fn allowed_language_line_is_kept() {
    let text = "saya tidak tahu apa yang harus dilakukan sekarang";
    assert_eq!(cleanup_text(text), text);
}

#[test]
fn disallowed_language_line_is_dropped() {
    let text = "the quick brown fox jumps over the lazy dog and keeps running";
    assert_eq!(cleanup_text(text), "");
}

#[test]
fn noise_tokens_are_stripped() {
    let text = "saya tidak tahu elo apa yang harus dilakukan sekarang";
    assert_eq!(
        cleanup_text(text),
        "saya tidak tahu apa yang harus dilakukan sekarang"
    );
}

#[test]
fn token_punctuation_is_stripped() {
    let text = "saya tidak tahu, apa yang harus \"dilakukan\" sekarang";
    assert_eq!(
        cleanup_text(text),
        "saya tidak tahu apa yang harus dilakukan sekarang"
    );
}

#[test]
fn only_allowed_lines_survive_multiline_text() {
    let text = "saya tidak tahu apa yang harus dilakukan sekarang\nthe quick brown fox jumps over the lazy dog and keeps running";
    assert_eq!(
        cleanup_text(text),
        "saya tidak tahu apa yang harus dilakukan sekarang"
    );
}

#[test]
fn normalization_is_deterministic() {
    let text = "saya tidak tahu, apa yang harus dilakukan\nsomething else entirely here";
    assert_eq!(cleanup_text(text), cleanup_text(text));
}
