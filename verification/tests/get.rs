use bilinker::get::{byte_to_line, count_lines, extract_lines, GetResult};

#[test]
fn byte_to_line_survives_a_non_boundary_byte() {
    let source = "# Especificación\nsegunda\ntercera\n";
    let inside = source.find('ó').unwrap() + 1;
    assert!(!source.is_char_boundary(inside), "el test no está partiendo nada");

    assert_eq!(byte_to_line(source, inside), 0);
    assert_eq!(byte_to_line(source, source.len()), 3);
    assert_eq!(byte_to_line(source, usize::MAX), 3);
}

// ─── further cases ───────────────────────────────────────────────────────────

#[test]
fn the_line_span_lists_each_stretch() {
    let r = GetResult {
        content: String::new(),
        view: String::new(),
        file: "a.rs".into(),
        lines: vec![(12, 14), (30, 33)],
    };
    assert_eq!(r.line_span(), "12–14, 30–33");
}

#[test]
fn lines_are_counted_and_extracted_as_str_lines_reads_them() {
    let s = "uno\r\ndos\ntres";
    assert_eq!(count_lines(s), 3);
    assert_eq!(extract_lines(s, 1, 5), "dos\ntres");
    assert_eq!(extract_lines(s, 0, 0), "uno");
    assert_eq!(extract_lines(s, 4, 9), "");
}
