//! What bilinker knows of each grammar: which files it reads, and how it names
//! declarations, their names and their bodies.
use vstd::prelude::*;

use crate::text::{chars_of, rfind_char, same_text, string_of};

verus! {

/// The path split at `/`, without the empty and `.` components that `Path`
/// normalises away.
pub open spec fn components(p: Seq<char>) -> Seq<Seq<char>>
    decreases p.len(),
{
    match rfind_char(p, '/') {
        None => if p.len() == 0 || p == seq!['.'] {
            seq![]
        } else {
            seq![p]
        },
        Some(i) => {
            proof {
                crate::text::lemma_rfind_char_in_range(p, '/');
            }
            let last = p.skip(i + 1);
            components(p.take(i)) + if last.len() == 0 || last == seq!['.'] {
                Seq::<Seq<char>>::empty()
            } else {
                seq![last]
            }
        },
    }
}

/// The last component of the path, unless it is `..`: what `Path::file_name` gives.
pub open spec fn file_name(p: Seq<char>) -> Option<Seq<char>> {
    let cs = components(p);
    if cs.len() == 0 || cs.last() == seq!['.', '.'] {
        None
    } else {
        Some(cs.last())
    }
}

/// What follows the last `.` of the file name, unless the name has none or only a
/// leading one: what `Path::extension` gives.
pub open spec fn extension(p: Seq<char>) -> Option<Seq<char>> {
    match file_name(p) {
        None => None,
        Some(name) => match rfind_char(name, '.') {
            None => None,
            Some(i) => if i == 0 {
                None
            } else {
                Some(name.skip(i + 1))
            },
        },
    }
}

/// The language of a file, by its extension.
pub open spec fn language_of(file: Seq<char>) -> Seq<char> {
    match extension(file) {
        Some(e) => if e == "java"@ {
            "java"@
        } else if e == "rs"@ {
            "rust"@
        } else if e == "yaml"@ || e == "yml"@ {
            "yaml"@
        } else if e == "md"@ {
            "markdown"@
        } else if e == "ts"@ || e == "js"@ {
            "typescript"@
        } else if e == "tsx"@ || e == "jsx"@ {
            "tsx"@
        } else {
            "text"@
        },
        None => "text"@,
    }
}

/// The last `/` of `s`.
fn last_slash(s: &[char]) -> (r: Option<usize>)
    ensures
        r matches Some(i) ==> rfind_char(s@, '/') == Some(i as int) && i < s.len(),
        r is None ==> rfind_char(s@, '/') is None,
{
    let r = crate::text::rfind_char_of(s, '/');
    proof {
        crate::text::lemma_rfind_char_in_range(s@, '/');
    }
    r
}

/// The components of a path, as `Path::components` gives its normal ones.
pub fn components_of(p: &[char]) -> (r: Vec<Vec<char>>)
    ensures
        crate::text::views(r@) == components(p@),
    decreases p.len(),
{
    match last_slash(p) {
        None => {
            if p.len() == 0 || (p.len() == 1 && p[0] == '.') {
                assert(p.len() == 1 ==> p@ =~= seq![p@[0]]);
                let r: Vec<Vec<char>> = Vec::new();
                assert(crate::text::views(r@) =~= Seq::<Seq<char>>::empty());
                r
            } else {
                assert(p@ != seq!['.']) by {
                    if p@ == seq!['.'] {
                        assert(p@.len() == 1);
                    }
                }
                let mut r: Vec<Vec<char>> = Vec::new();
                r.push(crate::text::to_vec(p));
                assert(crate::text::views(r@) =~= seq![p@]);
                r
            }
        },
        Some(i) => {
            let head = crate::text::slice_of(p, 0, i);
            let last = crate::text::slice_of(p, i + 1, p.len());
            assert(head@ =~= p@.take(i as int));
            assert(last@ =~= p@.skip(i + 1));
            let mut r = components_of(head.as_slice());
            let ghost before = r@;
            let dot = last.len() == 1 && last[0] == '.';
            assert(dot == (last@ == seq!['.'])) by {
                if last@ == seq!['.'] {
                    assert(last@.len() == 1);
                }
                if dot {
                    assert(last@ =~= seq!['.']);
                }
            }
            if last.len() > 0 && !dot {
                r.push(last);
                proof {
                    crate::text::lemma_views_push(before, last);
                }
            }
            r
        },
    }
}

/// The extension of a file, as `Path::extension` gives it.
pub(crate) fn extension_of(file: &str) -> (r: Option<Vec<char>>)
    ensures
        match r {
            Some(e) => extension(file@) == Some(e@),
            None => extension(file@) is None,
        },
{
    let p = chars_of(file);
    let cs = components_of(p.as_slice());
    if cs.len() == 0 {
        return None;
    }
    let name = &cs[cs.len() - 1];
    assert(crate::text::views(cs@).last() == name@);
    let parent = name.len() == 2 && name[0] == '.' && name[1] == '.';
    assert(parent == (name@ == seq!['.', '.'])) by {
        if name@ == seq!['.', '.'] {
            assert(name@.len() == 2);
        }
        if parent {
            assert(name@ =~= seq!['.', '.']);
        }
    }
    if parent {
        return None;
    }
    match crate::text::rfind_char_of(name.as_slice(), '.') {
        None => None,
        Some(i) => {
            if i == 0 {
                None
            } else {
                proof {
                    crate::text::lemma_rfind_char_in_range(name@, '.');
                }
                let e = crate::text::slice_of(name.as_slice(), i + 1, name.len());
                assert(e@ =~= name@.skip(i + 1));
                Some(e)
            }
        },
    }
}

/// The language of a file, by its extension; `text` for any other.
pub fn language_for_file(file: &str) -> (r: &'static str)
    ensures
        r@ == language_of(file@),
{
    match extension_of(file) {
        None => "text",
        Some(e) => {
            let e = string_of(e.as_slice());
            let e = e.as_str();
            if same_text(e, "java") {
                "java"
            } else if same_text(e, "rs") {
                "rust"
            } else if same_text(e, "yaml") || same_text(e, "yml") {
                "yaml"
            } else if same_text(e, "md") {
                "markdown"
            } else if same_text(e, "ts") || same_text(e, "js") {
                "typescript"
            } else if same_text(e, "tsx") || same_text(e, "jsx") {
                "tsx"
            } else {
                "text"
            }
        },
    }
}

/// Whether the language's tree tells content apart. A tree-sitter s-expression
/// carries node kinds, not text: in code that is enough, in prose two different
/// paragraphs under the same heading give the same tree.
pub fn ast_discriminates_content(lang: &str) -> (b: bool)
    ensures
        b == !(lang@ == "markdown"@ || lang@ == "text"@),
{
    !(same_text(lang, "markdown") || same_text(lang, "text"))
}

/// How the grammar names the field that holds **the body** of a declaration, and
/// nothing for a language whose grammar bilinker cannot vouch for.
pub fn body_field(lang: &str) -> (r: Option<&'static str>)
    ensures
        match r {
            Some(f) => f@ == "body"@ && (lang@ == "java"@ || lang@ == "rust"@ || lang@
                == "typescript"@ || lang@ == "tsx"@),
            None => !(lang@ == "java"@ || lang@ == "rust"@ || lang@ == "typescript"@ || lang@
                == "tsx"@),
        },
{
    if same_text(lang, "java") || same_text(lang, "rust") || same_text(lang, "typescript")
        || same_text(lang, "tsx") {
        Some("body")
    } else {
        None
    }
}

/// The views of a list of names.
pub open spec fn kinds_view(ks: Seq<&str>) -> Seq<Seq<char>> {
    ks.map_values(|k: &str| k@)
}

/// The node kinds that are stable anchors in a language: named declarations that
/// identify themselves.
pub open spec fn stable_anchors(lang: Seq<char>) -> Seq<Seq<char>> {
    if lang == "java"@ {
        seq![
            "class_declaration"@,
            "interface_declaration"@,
            "enum_declaration"@,
            "method_declaration"@,
            "constructor_declaration"@,
            "field_declaration"@,
        ]
    } else if lang == "rust"@ {
        seq![
            "function_item"@,
            "struct_item"@,
            "enum_item"@,
            "trait_item"@,
            "impl_item"@,
            "const_item"@,
            "static_item"@,
        ]
    } else if lang == "yaml"@ {
        seq!["block_sequence_item"@, "block_mapping_pair"@]
    } else if lang == "markdown"@ {
        seq!["section"@, "pipe_table_row"@]
    } else if lang == "typescript"@ || lang == "tsx"@ {
        seq![
            "class_declaration"@,
            "abstract_class_declaration"@,
            "function_declaration"@,
            "generator_function_declaration"@,
            "enum_declaration"@,
            "interface_declaration"@,
            "type_alias_declaration"@,
            "method_definition"@,
            "method_signature"@,
        ]
    } else {
        seq![]
    }
}

/// The node kinds that are stable anchors for a language.
pub fn stable_anchor_kinds(lang: &str) -> (r: &'static [&'static str])
    ensures
        kinds_view(r@) == stable_anchors(lang@),
{
    let r: &'static [&'static str] = if same_text(lang, "java") {
        &[
            "class_declaration",
            "interface_declaration",
            "enum_declaration",
            "method_declaration",
            "constructor_declaration",
            "field_declaration",
        ]
    } else if same_text(lang, "rust") {
        &[
            "function_item",
            "struct_item",
            "enum_item",
            "trait_item",
            "impl_item",
            // A constant is a declaration with a name of its own like any other, and
            // in a format crate it is often the datum the spec describes.
            "const_item",
            "static_item",
        ]
    } else if same_text(lang, "yaml") {
        &["block_sequence_item", "block_mapping_pair"]
    } else if same_text(lang, "markdown") {
        // A table row has no name of its own, but its first cell tells it apart,
        // as the `id:` of a YAML sequence item does.
        &["section", "pipe_table_row"]
    } else if same_text(lang, "typescript") || same_text(lang, "tsx") {
        &[
            "class_declaration",
            "abstract_class_declaration",
            "function_declaration",
            "generator_function_declaration",
            "enum_declaration",
            "interface_declaration",
            "type_alias_declaration",
            "method_definition",
            "method_signature",
        ]
    } else {
        &[]
    };
    assert(kinds_view(r@) =~= stable_anchors(lang@));
    r
}

/// The node kinds that **carry a signature**: a callable with a return type and
/// parameters. A class or a DTO is not among them, on purpose.
pub open spec fn signatures(lang: Seq<char>) -> Seq<Seq<char>> {
    if lang == "java"@ {
        seq!["method_declaration"@, "constructor_declaration"@]
    } else if lang == "rust"@ {
        seq!["function_item"@, "function_signature_item"@]
    } else if lang == "typescript"@ || lang == "tsx"@ {
        seq![
            "function_declaration"@,
            "generator_function_declaration"@,
            "method_definition"@,
            "method_signature"@,
        ]
    } else {
        seq![]
    }
}

/// The node kinds that carry a signature in a language.
pub fn signature_kinds(lang: &str) -> (r: &'static [&'static str])
    ensures
        kinds_view(r@) == signatures(lang@),
{
    let r: &'static [&'static str] = if same_text(lang, "java") {
        &["method_declaration", "constructor_declaration"]
    } else if same_text(lang, "rust") {
        &["function_item", "function_signature_item"]
    } else if same_text(lang, "typescript") || same_text(lang, "tsx") {
        &[
            "function_declaration",
            "generator_function_declaration",
            "method_definition",
            "method_signature",
        ]
    } else {
        // Prose, YAML, TOML, text: there is no signature to resolve.
        &[]
    };
    assert(kinds_view(r@) =~= signatures(lang@));
    r
}

/// The field that holds the name of a declaration of `kind`.
pub open spec fn name_field_of(lang: Seq<char>, kind: Seq<char>) -> Option<Seq<char>> {
    if lang == "java"@ && (kind == "class_declaration"@ || kind == "interface_declaration"@
        || kind == "enum_declaration"@ || kind == "method_declaration"@ || kind
        == "constructor_declaration"@) {
        Some("name"@)
    } else if lang == "rust"@ && (kind == "function_item"@ || kind == "struct_item"@ || kind
        == "enum_item"@ || kind == "trait_item"@ || kind == "mod_item"@ || kind
        == "const_item"@ || kind == "static_item"@) {
        Some("name"@)
    } else if lang == "rust"@ && kind == "impl_item"@ {
        Some("type"@)
    } else if (lang == "typescript"@ || lang == "tsx"@) && (kind == "class_declaration"@ || kind
        == "abstract_class_declaration"@ || kind == "function_declaration"@ || kind
        == "generator_function_declaration"@ || kind == "enum_declaration"@ || kind
        == "interface_declaration"@ || kind == "type_alias_declaration"@ || kind
        == "method_definition"@ || kind == "method_signature"@) {
        Some("name"@)
    } else {
        None
    }
}

/// The field that holds the name identifier of a declaration of `kind`.
pub fn name_field(lang: &str, kind: &str) -> (r: Option<&'static str>)
    ensures
        match r {
            Some(f) => name_field_of(lang@, kind@) == Some(f@),
            None => name_field_of(lang@, kind@) is None,
        },
{
    let k = |name: &str| -> (b: bool)
        ensures
            b == (kind@ == name@),
        { same_text(kind, name) };
    if same_text(lang, "java") && (k("class_declaration") || k("interface_declaration") || k(
        "enum_declaration",
    ) || k("method_declaration") || k("constructor_declaration")) {
        Some("name")
    } else if same_text(lang, "rust") && (k("function_item") || k("struct_item") || k("enum_item")
        || k("trait_item") || k("mod_item") || k("const_item") || k("static_item")) {
        Some("name")
    } else if same_text(lang, "rust") && k("impl_item") {
        Some("type")
    } else if (same_text(lang, "typescript") || same_text(lang, "tsx")) && (k("class_declaration")
        || k("abstract_class_declaration") || k("function_declaration") || k(
        "generator_function_declaration",
    ) || k("enum_declaration") || k("interface_declaration") || k("type_alias_declaration") || k(
        "method_definition",
    ) || k("method_signature")) {
        Some("name")
    } else {
        None
    }
}

/// The node kind of the name of a declaration of `kind`.
pub open spec fn name_node_of(lang: Seq<char>, kind: Seq<char>) -> Seq<char> {
    if (lang == "typescript"@ || lang == "tsx"@) && (kind == "class_declaration"@ || kind
        == "abstract_class_declaration"@ || kind == "interface_declaration"@ || kind
        == "type_alias_declaration"@) {
        "type_identifier"@
    } else if (lang == "typescript"@ || lang == "tsx"@) && (kind == "method_definition"@ || kind
        == "method_signature"@) {
        "property_identifier"@
    } else {
        "identifier"@
    }
}

/// The tree-sitter node kind that names a declaration of `kind`.
pub fn name_node_type(lang: &str, kind: &str) -> (r: &'static str)
    ensures
        r@ == name_node_of(lang@, kind@),
{
    let ts = same_text(lang, "typescript") || same_text(lang, "tsx");
    if ts && (same_text(kind, "class_declaration") || same_text(kind, "abstract_class_declaration")
        || same_text(kind, "interface_declaration") || same_text(kind, "type_alias_declaration")) {
        "type_identifier"
    } else if ts && (same_text(kind, "method_definition") || same_text(kind, "method_signature")) {
        "property_identifier"
    } else {
        "identifier"
    }
}

} // verus!
