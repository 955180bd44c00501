use accent_proust_wasm::utf16::{utf16_len, utf8_len, Utf16Index};

/// What JavaScript would say, for comparison.
fn expected(source: &str, byte: usize) -> usize {
    source[..byte].encode_utf16().count()
}

#[test]
fn ascii_is_the_identity() {
    let source = "hello world";
    let index = Utf16Index::new(source);
    assert!(
        index.checkpoints().is_empty(),
        "ASCII should allocate nothing"
    );
    for byte in 0..=source.len() {
        assert_eq!(index.at(byte), byte);
    }
}

#[test]
fn agrees_with_javascript_on_every_boundary() {
    // Two bytes one unit, three bytes one unit, four bytes a surrogate
    // pair, and ASCII between them so the checkpoint arithmetic is
    // exercised rather than just the checkpoints.
    let source = "a ü b 日 c 🦀 d";
    let index = Utf16Index::new(source);
    for (byte, _) in source.char_indices().chain([(source.len(), ' ')]) {
        assert_eq!(
            index.at(byte),
            expected(source, byte),
            "byte {byte} of {source:?}"
        );
    }
}

#[test]
fn a_surrogate_pair_costs_two_units() {
    let source = "🦀";
    let index = Utf16Index::new(source);
    assert_eq!(source.len(), 4);
    assert_eq!(index.at(4), 2);
}

#[test]
fn an_offset_past_the_end_is_clamped_to_the_last_checkpoint() {
    let index = Utf16Index::new("ü");
    assert_eq!(index.at(2), 1);
    // Not reachable from engine output; it must still not panic.
    assert_eq!(index.at(99), 98);
}

#[test]
fn checkpoints_sit_after_each_character_outside_ascii() {
    let index = Utf16Index::new("aü日🦀b");
    assert_eq!(index.checkpoints(), &[(3, 2), (6, 3), (10, 5)]);
}

#[test]
fn a_byte_inside_a_character_lands_on_the_checkpoint_below() {
    // "日" occupies bytes 1..4; bytes 2 and 3 are inside it.
    let index = Utf16Index::new("a日b");
    assert_eq!(index.at(1), 1);
    assert_eq!(index.at(2), 2);
    assert_eq!(index.at(3), 3);
    assert_eq!(index.at(4), 2);
    assert_eq!(index.at(5), 3);
}

#[test]
fn the_empty_document_is_the_identity() {
    let index = Utf16Index::new("");
    assert!(index.checkpoints().is_empty());
    assert_eq!(index.at(0), 0);
    assert_eq!(index.at(7), 7);
}

#[test]
fn widths_follow_the_code_point() {
    for c in ['a', '\u{7f}', '\u{80}', 'ü', '\u{7ff}', '\u{800}', '日', '\u{ffff}', '\u{10000}', '🦀', '\u{10ffff}'] {
        assert_eq!(utf8_len(c), c.len_utf8(), "{c:?}");
        assert_eq!(utf16_len(c), c.len_utf16(), "{c:?}");
    }
}
