use bilinker::hash::{hex_encode, likeness, sha256, Likeness};

#[test]
fn the_hash_of_nothing_is_the_known_one() {
    assert_eq!(sha256(b""), "e3b0c44298fc1c149afbf4c8996fb92427ae41e4649b934ca495991b7852b855");
}

#[test]
fn the_hash_is_of_the_content() {
    assert_eq!(sha256(b"abc"), "ba7816bf8f01cfea414140de5dae2223b00361a396177a9cb410ff61f20015ad");
    assert_ne!(sha256(b"abc"), sha256(b"abd"));
}

#[test]
fn hex_is_two_lowercase_digits_per_byte() {
    assert_eq!(hex_encode(&[0x00, 0x0f, 0xa0, 0xff]), "000fa0ff");
    assert_eq!(hex_encode(&[]), "");
}

/// The ratio of a likeness: Dice's coefficient.
fn similarity(a: &str, b: &str) -> f64 {
    match likeness(a, b) {
        Likeness::Identical => 1.0,
        Likeness::Unrelated => 0.0,
        Likeness::Shared { common, left, right } => (2.0 * common as f64) / (left + right) as f64,
    }
}

#[test]
fn identical_is_one() {
    assert_eq!(similarity("fn foo() {}", "fn foo() {}"), 1.0);
}

#[test]
fn rename_keeps_high_similarity() {
    let a = "fn foo() {\n    let x = 1;\n    println!(\"{}\", x);\n}";
    let b = "fn bar() {\n    let x = 1;\n    println!(\"{}\", x);\n}";
    assert!(similarity(a, b) > 0.5, "renaming the signature should not sink the similarity");
}

#[test]
fn rename_plus_small_edit_still_matches() {
    let a = "fn foo() {\n    let x = 1;\n    let y = 2;\n    x + y\n}";
    let b = "fn bar() {\n    let x = 1;\n    let y = 3;\n    x + y\n}";
    assert!(similarity(a, b) > 0.5);
}

#[test]
fn unrelated_blocks_score_low() {
    let a = "fn foo() {\n    let x = 1;\n    x\n}";
    let b = "struct Otra {\n    campo: String,\n    otro: u32,\n}";
    assert!(similarity(a, b) < 0.5, "different blocks should not pass the threshold");
}

#[test]
fn single_line_falls_back_to_bigrams() {
    let s = similarity("## Escritura de cache", "## Escritura de la cache");
    assert!(s > 0.5, "similarity was {s}");
}

#[test]
fn repeated_lines_do_not_inflate() {
    let a = "x\nx\nx\ny";
    let b = "x\nz\nw\nv";
    assert!(similarity(a, b) < 0.5);
}

// ─── further cases ───────────────────────────────────────────────────────────

#[test]
fn likeness_counts_pairs_once() {
    assert_eq!(likeness("a\nb\nb", "b\nb\nc\nb"), Likeness::Shared { common: 2, left: 3, right: 4 });
    assert_eq!(likeness("", "x"), Likeness::Unrelated);
    assert_eq!(likeness("a", "b"), Likeness::Unrelated);
    assert_eq!(likeness("abc", "abd"), Likeness::Shared { common: 1, left: 2, right: 2 });
    assert_eq!(likeness("  a  \n\n b", "a\nb"), Likeness::Shared { common: 2, left: 2, right: 2 });
}
