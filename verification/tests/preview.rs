use bilinker::link::ByteRange;
use bilinker::preview::{dimension_view, fragment_view, Preview, MARK, SKIP};

const SRC: &str = "uno\ndos\ntres\ncuatro\ncinco\nseis\nsiete\nocho\nnueve\ndiez\n";

fn ranges(pairs: &[(usize, usize)]) -> Vec<ByteRange> {
    pairs.iter().map(|&(s, e)| ByteRange { start: s, end: e }).collect()
}

#[test]
fn a_part_marks_every_line_it_covers() {
    let p = Preview::of("x", SRC, &ranges(&[(4, 12)]));
    assert_eq!(p.marked, vec![2, 3]);
    assert_eq!(p.spans, vec![(2, 3)]);
}

#[test]
fn distant_parts_are_two_spans_with_a_gap() {
    let p = Preview::of("x", SRC, &ranges(&[(0, 3), (44, 48)]));
    assert_eq!(p.spans, vec![(1, 1), (9, 9)]);
    let out = p.render(SRC);
    assert!(out.contains(SKIP), "falta el salto:\n{out}");
    assert!(out.contains("2 fragmentos · 1, 9"), "{out}");
}

#[test]
fn the_context_is_shown_unmarked() {
    let out = Preview::of("x", SRC, &ranges(&[(0, 3)])).render(SRC);
    let dos = out.lines().find(|l| l.ends_with("dos")).expect("la línea 2 se muestra");
    assert!(!dos.contains(MARK), "el contexto no va marcado: {dos}");
    let uno = out.lines().find(|l| l.ends_with("uno")).unwrap();
    assert!(uno.contains(MARK), "lo capturado sí: {uno}");
}

#[test]
fn the_marks_of_a_rendered_view_read_back() {
    let p = Preview::of("x", SRC, &ranges(&[(0, 3), (44, 48)]));
    assert_eq!(Preview::marks_in(&p.render(SRC)), p.marked);
}

#[test]
fn a_mark_added_by_hand_is_read() {
    let p = Preview::of("x", SRC, &ranges(&[(0, 3)]));
    let edited: String = p
        .render(SRC)
        .lines()
        .map(|l| if l.ends_with("dos") { format!("  {MARK}{}", &l[3..]) } else { l.to_string() })
        .collect::<Vec<_>>()
        .join("\n");
    assert_eq!(Preview::marks_in(&edited), vec![1, 2]);
}

#[test]
fn the_view_is_exactly_heading_rows_and_foot() {
    let p = Preview::of("impl :: a.rs", "a\nb\n", &ranges(&[(2, 3)])).with_note(Some("probar --as interface".into()));
    assert_eq!(
        p.render("a\nb\n"),
        "impl :: a.rs\n\n     1   a\n  ▸  2   b\n\n1 fragmento · 2\nqueda afuera: todo lo que no está marcado\nprobar --as interface\n"
    );
}

#[test]
fn adjacent_lines_make_one_span_written_with_a_dash() {
    let p = Preview::of("x", SRC, &ranges(&[(0, 12)]));
    assert_eq!(p.spans, vec![(1, 3)]);
    assert!(p.render(SRC).contains("1 fragmento · 1–3"));
}

#[test]
fn marks_are_sorted_and_read_once() {
    let buffer = "  ▸ 7 algo\n  ▸ 3 otra\nnada\n  ▸ 7 repetida\n   4 sin marca\n  ▸ +5 con signo\n  ▸ x no\n";
    assert_eq!(Preview::marks_in(buffer), vec![3, 5, 7]);
}

#[test]
fn an_empty_range_marks_its_line() {
    let p = Preview::of("x", SRC, &ranges(&[(5, 5)]));
    assert_eq!(p.marked, vec![2]);
    assert_eq!(p.parts, 1);
    assert!(p.note.is_none());
}

// ─── the view of `get` ───────────────────────────────────────────────────────

const FIRMA: &str = "class C {\n\tpublic Dto get(String t) {\n\t\treturn null;\n\t}\n}\n";

/// The two parts of line 2: `Dto` and `(String t)`.
fn dos_partes() -> Vec<ByteRange> {
    let tipo = FIRMA.find("Dto").unwrap();
    let par = FIRMA.find("(String t)").unwrap();
    ranges(&[(tipo, tipo + 3), (par, par + 10)])
}

#[test]
fn una_linea_compartida_por_dos_partes_sale_una_vez() {
    let v = fragment_view(FIRMA, &dos_partes(), 0, 0);
    assert_eq!(v.lines().filter(|l| l.contains("Dto")).count(), 1, "{v}");
}

#[test]
fn lo_que_no_entra_adentro_de_una_linea_sale_como_hueco() {
    let v = fragment_view(FIRMA, &dos_partes(), 0, 0);
    let linea = v.lines().next().unwrap();
    assert!(linea.contains("... Dto ... (String t) ..."), "the `public`, the name and the `{{` are holes: {linea}");
}

#[test]
fn la_sangria_se_conserva_y_no_se_vuelve_hueco() {
    let v = fragment_view(FIRMA, &dos_partes(), 0, 0);
    let linea = v.lines().next().unwrap();
    let tras_numero = linea.split_once(":   ").unwrap().1;
    assert!(tras_numero.starts_with('\t'), "the indentation goes as it is: {linea:?}");
    assert!(!tras_numero.starts_with("..."), "and is not counted as a hole: {linea:?}");
}

#[test]
fn cada_linea_lleva_su_numero() {
    let v = fragment_view(FIRMA, &dos_partes(), 0, 0);
    assert!(v.starts_with("2:"), "{v}");
}

#[test]
fn una_parte_que_cubre_la_linea_entera_no_lleva_huecos() {
    let src = "uno\ndos\ntres\n";
    let at = src.find("dos").unwrap();
    let v = fragment_view(src, &ranges(&[(at, at + 3)]), 0, 0);
    assert_eq!(v, "2:   dos\n", "{v:?}");
}

#[test]
fn dos_tramos_lejanos_muestran_el_salto() {
    let a = FIRMA.find("class").unwrap();
    let b = FIRMA.find("return null;").unwrap();
    let v = fragment_view(FIRMA, &ranges(&[(a, a + 5), (b, b + 12)]), 0, 0);
    assert!(v.contains(SKIP), "the skip has to be seen: {v}");
}

#[test]
fn el_contexto_sale_entero_y_sin_huecos() {
    let src = "uno\ndos\ntres\n";
    let at = src.find("dos").unwrap();
    let v = fragment_view(src, &ranges(&[(at, at + 3)]), 1, 1);
    assert_eq!(v, "1:   uno\n2:   dos\n3:   tres\n", "{v:?}");
}

#[test]
fn the_fragment_view_of_two_distant_lines_is_exact() {
    let a = FIRMA.find("class").unwrap();
    let b = FIRMA.find("return null;").unwrap();
    let v = fragment_view(FIRMA, &ranges(&[(a, a + 5), (b, b + 12)]), 0, 0);
    assert_eq!(v, "1:   class ...\n  ⋮\n3:   \t\treturn null;\n");
    assert_eq!(fragment_view("", &ranges(&[(0, 1)]), 0, 0), "");
}

// ─── the view of the dimensions ─────────────────────────────────────────────

fn en(src: &str, text: &str) -> Vec<ByteRange> {
    let at = src.find(text).unwrap();
    ranges(&[(at, at + text.len())])
}

/// The dimensions in the order of their names, as the bilink gives them.
fn firma() -> Vec<(String, Vec<ByteRange>)> {
    vec![("parameters".into(), en(FIRMA, "(String t)")), ("return".into(), en(FIRMA, "Dto"))]
}

#[test]
fn una_linea_lleva_los_nombres_de_sus_partes_en_orden_de_archivo() {
    let v = dimension_view(FIRMA, &firma(), 0, 0);
    assert_eq!(v.lines().count(), 1, "{v}");
    let linea = v.lines().next().unwrap();
    assert!(linea.contains("... Dto ... (String t) ..."), "the text is not touched: {linea}");
    assert!(linea.ends_with("‹return · parameters›"), "{linea}");
}

#[test]
fn los_nombres_van_en_una_columna() {
    let dims = vec![("head".to_string(), en(FIRMA, "class C {")), ("return".to_string(), en(FIRMA, "Dto"))];
    let v = dimension_view(FIRMA, &dims, 0, 0);
    let columnas: Vec<usize> = v
        .lines()
        .filter(|l| l.contains('‹'))
        .map(|l| l.chars().take_while(|c| *c != '‹').count())
        .collect();
    assert_eq!(columnas.len(), 2, "{v}");
    assert_eq!(columnas[0], columnas[1], "{v}");
    let larga = v.lines().map(|l| l.split('‹').next().unwrap().trim_end().chars().count()).max().unwrap();
    assert_eq!(columnas[0], larga + 2, "{v}");
}

#[test]
fn dos_dimensiones_superpuestas_salen_una_vez_con_los_dos_nombres() {
    let dims = vec![
        ("firma".to_string(), en(FIRMA, "Dto get(String t)")),
        ("parameters".to_string(), en(FIRMA, "(String t)")),
    ];
    let v = dimension_view(FIRMA, &dims, 0, 0);
    assert_eq!(v.matches("(String t)").count(), 1, "{v}");
    assert!(v.contains("... Dto get(String t) ..."), "{v}");
    assert!(v.contains("‹firma · parameters›"), "{v}");
}

#[test]
fn el_contexto_no_lleva_nombres() {
    let v = dimension_view(FIRMA, &firma(), 1, 1);
    let lineas: Vec<&str> = v.lines().collect();
    assert_eq!(lineas.len(), 3, "{v}");
    assert!(!lineas[0].contains('‹') && !lineas[2].contains('‹'), "{v}");
    assert!(lineas[1].contains('‹'), "{v}");
}

#[test]
fn el_salto_sigue_viendose() {
    let dims = vec![("head".to_string(), en(FIRMA, "class C {")), ("body".to_string(), en(FIRMA, "return null;"))];
    let v = dimension_view(FIRMA, &dims, 0, 0);
    assert!(v.contains(SKIP), "{v}");
}

#[test]
fn the_dimension_view_is_exact() {
    let v = dimension_view(FIRMA, &firma(), 0, 0);
    assert_eq!(v, "2:   \t... Dto ... (String t) ...  ‹return · parameters›\n");
}

#[test]
fn a_heading_of_several_lines_does_not_change_the_marks() {
    let p = Preview::of("capa impl\nbilink 3a.0", SRC, &ranges(&[(4, 7)]));
    assert_eq!(Preview::marks_in(&p.render(SRC)), p.marked);
    assert_eq!(p.marked, vec![2]);
}
