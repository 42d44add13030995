use wrinkle::fingerprint::{classify, line_symbols, signature, text_to_bin, WordList};

fn word_list(words: &[&str]) -> WordList {
    let entries: Vec<Vec<u8>> = words.iter().map(|w| w.as_bytes().to_vec()).collect();
    WordList::new(entries)
}

fn chars(s: &str) -> Vec<char> {
    s.chars().collect()
}

#[test]
fn classify_follows_character_classes() {
    assert_eq!(classify('a'), 0);
    assert_eq!(classify('e'), 0);
    assert_eq!(classify('i'), 0);
    assert_eq!(classify('u'), 0);
    assert_eq!(classify('o'), 0);
    assert_eq!(classify(' '), 0);
    assert_eq!(classify('A'), 1);
    assert_eq!(classify('O'), 1);
    assert_eq!(classify('b'), 2);
    assert_eq!(classify('z'), 2);
    assert_eq!(classify('B'), 3);
    assert_eq!(classify('Z'), 3);
    assert_eq!(classify('0'), 4);
    assert_eq!(classify('9'), 4);
    assert_eq!(classify('!'), 0);
    assert_eq!(classify('-'), 0);
}

#[test]
fn classify_sends_non_ascii_to_zero() {
    assert_eq!(classify('\u{0141}'), 0);
    assert_eq!(classify('\u{0161}'), 0);
    assert_eq!(classify('\u{00e9}'), 0);
    assert_eq!(classify('\u{212a}'), 0);
}

#[test]
fn worked_encoding_example() {
    let line = chars("abc ABC 123");
    let symbols = line_symbols(&line);
    assert_eq!(symbols, vec![0, 2, 2, 0, 1, 3, 3, 0, 4, 4, 4]);
}

#[test]
fn signature_accumulates_positionally() {
    // 3<<0 | 0<<1 | 2<<2 = 11: an OR of shifted codes, not a sum.
    let symbols: Vec<u8> = vec![3, 0, 2];
    assert_eq!(signature(&symbols), 11);
    let empty: Vec<u8> = vec![];
    assert_eq!(signature(&empty), 0);
}

#[test]
fn signature_ignores_positions_past_limit() {
    let mut symbols: Vec<u8> = vec![0; 70];
    symbols[0] = 1;
    let with_tail = signature(&symbols);
    symbols[65] = 3;
    assert_eq!(signature(&symbols), with_tail);
}

#[test]
fn word_list_matches_exact_bytes() {
    let wl = word_list(&["kita", "tahu"]);
    assert!(wl.contains(&b"kita".to_vec()));
    assert!(wl.contains(&b"tahu".to_vec()));
    assert!(!wl.contains(&b"Kita".to_vec()));
    assert!(!wl.contains(&b"kit".to_vec()));
    assert!(!wl.contains(&b"".to_vec()));
}

#[test]
fn admitted_line_is_encoded_with_lowercased_lookup() {
    let wl = word_list(&["kita"]);
    let fp = text_to_bin("Kita Kita Kita", &wl);
    assert_eq!(
        fp.bin,
        vec![3, 0, 2, 0, 0, 3, 0, 2, 0, 0, 3, 0, 2, 0]
    );
    assert_eq!(fp.texts, vec!["Kita Kita Kita".to_string()]);
}

#[test]
fn single_early_hit_is_not_admitted() {
    let wl = word_list(&["kita"]);
    let fp = text_to_bin("kita xyzb qwrt", &wl);
    assert!(fp.bin.is_empty());
    assert!(fp.texts.is_empty());
}

#[test]
fn two_leading_hits_are_admitted() {
    let wl = word_list(&["kita"]);
    let fp = text_to_bin("kita kita", &wl);
    assert_eq!(fp.bin, vec![2, 0, 2, 0, 0, 2, 0, 2, 0]);
    assert_eq!(fp.texts, vec!["kita kita".to_string()]);
}

#[test]
fn vowel_and_space_line_is_never_retained() {
    // Admitted via dictionary hits, yet every symbol is zero, so the
    // signature stays zero and the line contributes nothing.
    let wl = word_list(&["aa", "ee", "oo"]);
    let fp = text_to_bin("aa ee oo", &wl);
    assert!(fp.bin.is_empty());
    assert!(fp.texts.is_empty());
}

#[test]
fn encoding_is_deterministic() {
    let wl = word_list(&["kita", "tahu"]);
    let text = "Kita tahu kita\nkita kita";
    let first = text_to_bin(text, &wl);
    let second = text_to_bin(text, &wl);
    assert_eq!(first.bin, second.bin);
    assert_eq!(first.texts, second.texts);
}

#[test]
fn symbols_stay_in_range() {
    let wl = word_list(&["kita"]);
    let fp = text_to_bin("kita kita XYZ 089 !?*", &wl);
    assert!(fp.bin.iter().all(|s| *s <= 4));
}

#[test]
fn lines_are_gated_independently() {
    let wl = word_list(&["kita"]);
    let fp = text_to_bin("kita kita\nnothing here\nkita kita", &wl);
    assert_eq!(fp.texts, vec!["kita kita".to_string(), "kita kita".to_string()]);
    assert_eq!(fp.bin.len(), 18);
}
