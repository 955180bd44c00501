use accent_proust_wasm::diagnostics::{
    errors, location, number, position, Edge, Location, Position, ValidateError,
};
use accent_proust_wasm::utf16::Utf16Index;

fn at(line: usize, column: usize, offset: usize) -> Position {
    Position { line, column, offset }
}

#[test]
fn a_count_saturates_at_u32_max() {
    assert_eq!(number(0), 0);
    assert_eq!(number(4_294_967_295), u32::MAX);
    if usize::BITS > 32 {
        assert_eq!(number(usize::MAX), u32::MAX);
    }
}

#[test]
fn an_edge_counts_code_units_but_keeps_its_byte_offset() {
    // "Grüße" on the second line: 'ü' and 'ß' are two bytes, one unit each.
    let source = "ab\nGrüße x";
    let index = Utf16Index::new(source);
    // The edge after "Grüße": byte 10, byte column 7 on line 1.
    let edge = position(&index, &at(1, 7, 10));
    assert_eq!(
        edge,
        Edge { line: 1, character: 5, offset: 8, byte_offset: 10 }
    );
}

#[test]
fn errors_convert_every_location_against_one_index() {
    let source = "ü\n{% callout %}\n";
    let spot = Location {
        file: Some(String::from("doc.md")),
        start: at(1, 0, 3),
        end: at(1, 13, 16),
    };
    let item = ValidateError {
        node_type: String::from("tag"),
        lines: vec![1, 2],
        location: Some(spot),
        id: String::from("tag-undefined"),
        level: String::from("critical"),
        message: String::from("Undefined tag: 'callout'"),
        error_location: None,
    };
    let out = errors(source, &vec![item]);
    assert_eq!(out.len(), 1);
    let d = &out[0];
    assert_eq!(d.node_type, "tag");
    assert_eq!(d.lines, vec![1, 2]);
    assert_eq!(d.id, "tag-undefined");
    assert_eq!(d.level, "critical");
    assert_eq!(d.message, "Undefined tag: 'callout'");
    assert!(d.error_location.is_none());
    let span = d.location.as_ref().unwrap();
    assert_eq!(span.file.as_deref(), Some("doc.md"));
    assert_eq!(span.start, Edge { line: 1, character: 0, offset: 2, byte_offset: 3 });
    assert_eq!(span.end, Edge { line: 1, character: 13, offset: 15, byte_offset: 16 });
}

#[test]
fn a_location_without_a_file_has_none() {
    let index = Utf16Index::new("abc");
    let spot = Location { file: None, start: at(0, 0, 0), end: at(0, 3, 3) };
    let span = location(&index, &spot);
    assert!(span.file.is_none());
    assert_eq!(span.end, Edge { line: 0, character: 3, offset: 3, byte_offset: 3 });
}
