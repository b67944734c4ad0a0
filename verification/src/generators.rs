//! The generators this binary knows: one of the core, [`Interface`], that knows
//! only of grammar, and one that knows of a framework, [`SpringController`]. Both
//! are asked for alike, `--as <name>`, and both **disappear**: what stays written in
//! the endpoint are the dimensions they declared.
use vstd::prelude::*;

use crate::text::{chars_of, same_str, split_once, trim, trim_start};

verus! {

/// The signature without the body: one dimension per child of the node but `body`.
pub struct Interface;

/// The Spring endpoint: the composed route, the return type and the parameters.
pub struct SpringController;

impl Interface {
    /// The name it is asked for by.
    pub fn name(&self) -> (r: &'static str)
        ensures
            r@ == "interface"@,
    {
        "interface"
    }

    /// What it watches.
    pub fn describe(&self) -> (r: &'static str)
        ensures
            r@ == "la firma sin el cuerpo: una dimensión por cada hijo del nodo menos `body`"@,
    {
        "la firma sin el cuerpo: una dimensión por cada hijo del nodo menos `body`"
    }
}

impl SpringController {
    /// The name it is asked for by.
    pub fn name(&self) -> (r: &'static str)
        ensures
            r@ == "spring-controller"@,
    {
        "spring-controller"
    }

    /// What it watches.
    pub fn describe(&self) -> (r: &'static str)
        ensures
            r@ == "el endpoint de Spring: la ruta compuesta, el tipo de retorno y los parámetros"@,
    {
        "el endpoint de Spring: la ruta compuesta, el tipo de retorno y los parámetros"
    }
}

/// `s` without its leading `@`s.
pub open spec fn without_ats(s: Seq<char>) -> Seq<char>
    decreases s.len(),
{
    if s.len() > 0 && s[0] == '@' {
        without_ats(s.drop_first())
    } else {
        s
    }
}

/// What precedes the first `(`, space or line break.
pub open spec fn annotation_name(s: Seq<char>) -> Seq<char>
    decreases s.len(),
{
    if s.len() == 0 || s[0] == '(' || s[0] == ' ' || s[0] == '\n' {
        seq![]
    } else {
        seq![s[0]] + annotation_name(s.drop_first())
    }
}

/// The verb a mapping annotation declares, if it is one. `@RequestMapping` without
/// `method` declares none: it is the class's route.
pub open spec fn verb_of(text: Seq<char>) -> Option<Seq<char>> {
    let name = annotation_name(without_ats(text));
    if name == "GetMapping"@ {
        Some("GET"@)
    } else if name == "PostMapping"@ {
        Some("POST"@)
    } else if name == "PutMapping"@ {
        Some("PUT"@)
    } else if name == "DeleteMapping"@ {
        Some("DELETE"@)
    } else if name == "PatchMapping"@ {
        Some("PATCH"@)
    } else {
        None
    }
}

/// The verb a mapping annotation declares, if it is one.
pub fn verbo_de(texto: &str) -> (r: Option<&'static str>)
    ensures
        match r {
            Some(v) => verb_of(texto@) == Some(v@),
            None => verb_of(texto@) is None,
        },
{
    let t = chars_of(texto);
    let mut i: usize = 0;
    assert(t@.skip(0) =~= t@);
    while i < t.len() && t[i] == '@'
        invariant
            i <= t.len(),
            without_ats(t@) == without_ats(t@.skip(i as int)),
        decreases t.len() - i,
    {
        assert(t@.skip(i as int).drop_first() =~= t@.skip(i as int + 1));
        i = i + 1;
    }
    assert(without_ats(t@.skip(i as int)) == t@.skip(i as int));
    let mut name: Vec<char> = Vec::new();
    let mut j = i;
    while j < t.len() && t[j] != '(' && t[j] != ' ' && t[j] != '\n'
        invariant
            i <= j <= t.len(),
            annotation_name(t@.skip(i as int)) == name@ + annotation_name(t@.skip(j as int)),
        decreases t.len() - j,
    {
        assert(t@.skip(j as int).drop_first() =~= t@.skip(j as int + 1));
        name.push(t[j]);
        assert(annotation_name(t@.skip(j as int)) == seq![t@[j as int]] + annotation_name(t@.skip(j as int + 1)));
        j = j + 1;
        assert(annotation_name(t@.skip(i as int)) =~= name@ + annotation_name(t@.skip(j as int)));
    }
    assert(annotation_name(t@.skip(j as int)) =~= seq![]);
    assert(name@ =~= annotation_name(without_ats(texto@)));
    if same_str(name.as_slice(), "GetMapping") {
        Some("GET")
    } else if same_str(name.as_slice(), "PostMapping") {
        Some("POST")
    } else if same_str(name.as_slice(), "PutMapping") {
        Some("PUT")
    } else if same_str(name.as_slice(), "DeleteMapping") {
        Some("DELETE")
    } else if same_str(name.as_slice(), "PatchMapping") {
        Some("PATCH")
    } else {
        None
    }
}


/// Whether a character is alphanumeric, as `char::is_alphanumeric` answers: alphabetic
/// or numeric in Unicode.
pub uninterp spec fn char_alphanumeric(c: char) -> bool;

/// `char::is_alphanumeric`. Its answer is named; of ASCII the contract states it
/// whole: among ASCII characters exactly the letters and the digits are alphabetic
/// or numeric in Unicode. Beyond ASCII nothing more is stated.
#[verifier::external_body]
fn is_alphanumeric(c: char) -> (b: bool)
    ensures
        b == char_alphanumeric(c),
        (c as u32) < 128 ==> (b <==> ('0' <= c <= '9' || 'a' <= c <= 'z' || 'A' <= c <= 'Z')),
{
    c.is_alphanumeric()
}

/// What follows `key =` in `rest`, trimmed at its start: at the first occurrence of
/// the key that is a word of its own (nothing alphanumeric nor `_` right before it)
/// and that an `=` follows.
pub open spec fn keyed_value(rest: Seq<char>, key: Seq<char>) -> Option<Seq<char>>
    decreases rest.len(),
{
    if key.len() == 0 {
        None
    } else {
        match crate::text::find(rest, key) {
            None => None,
            Some(i) => {
                let alone = i <= 0 || (!char_alphanumeric(rest[i - 1]) && rest[i - 1] != '_');
                let after = trim_start(rest.skip(i + key.len()));
                if alone && after.len() > 0 && after[0] == '=' {
                    Some(trim_start(after.drop_first()))
                } else if 0 <= i && i + key.len() <= rest.len() {
                    keyed_value(rest.skip(i + key.len()), key)
                } else {
                    None
                }
            },
        }
    }
}

/// `s` without its leading `{`.
pub open spec fn without_braces(s: Seq<char>) -> Seq<char>
    decreases s.len(),
{
    if s.len() > 0 && s[0] == '{' {
        without_braces(s.drop_first())
    } else {
        s
    }
}

/// The route literal of an annotation, if it has one. **Only the route**: the first
/// argument where it is a string, or the value of `value` or of `path`; the other
/// arguments carry strings too, and `@GetMapping(params = "ids")` has no route.
pub open spec fn route_literal(texto: Seq<char>) -> Option<Seq<char>> {
    match split_once(texto, "("@) {
        None => None,
        Some((_, a)) => {
            let args = trim_start(a);
            let valor = if args.len() > 0 && (args[0] == '"' || args[0] == '{') {
                Some(args)
            } else {
                match keyed_value(args, "value"@) {
                    Some(v) => Some(v),
                    None => keyed_value(args, "path"@),
                }
            };
            match valor {
                None => None,
                Some(v) => {
                    let w = trim_start(without_braces(v));
                    if w.len() > 0 && w[0] == '"' {
                        match split_once(w.drop_first(), "\""@) {
                            Some((lit, _)) => if lit.len() > 0 {
                                Some(lit)
                            } else {
                                None
                            },
                            None => None,
                        }
                    } else {
                        None
                    }
                },
            }
        },
    }
}

fn keyed_value_of(rest: &[char], key: &str) -> (r: Option<Vec<char>>)
    ensures
        match r {
            Some(v) => keyed_value(rest@, key@) == Some(v@),
            None => keyed_value(rest@, key@) is None,
        },
    decreases rest.len(),
{
    let k = chars_of(key);
    if k.len() == 0 {
        return None;
    }
    match crate::text::find_of(rest, k.as_slice()) {
        None => None,
        Some(i) => {
            proof {
                crate::text::lemma_find_from_occurs(rest@, key@, 0);
            }
            let alone = i == 0 || (!is_alphanumeric(rest[i - 1]) && rest[i - 1] != '_');
            let tail = crate::text::slice_of(rest, i + k.len(), rest.len());
            assert(tail@ =~= rest@.skip(i + key@.len()));
            let after = crate::text::trim_start_of(tail.as_slice());
            if alone && after.len() > 0 && after[0] == '=' {
                let v = crate::text::slice_of(after.as_slice(), 1, after.len());
                assert(v@ =~= after@.drop_first());
                Some(crate::text::trim_start_of(v.as_slice()))
            } else {
                keyed_value_of(tail.as_slice(), key)
            }
        },
    }
}

/// The route literal of an annotation, if it has one.
pub fn literal_de(texto: &str) -> (r: Option<String>)
    ensures
        crate::refmsg::opt_view(r) == route_literal(texto@),
{
    let t = chars_of(texto);
    let open = chars_of("(");
    let a = match crate::text::split_once_of(t.as_slice(), open.as_slice()) {
        None => return None,
        Some((_, a)) => a,
    };
    let args = crate::text::trim_start_of(a.as_slice());
    let valor = if args.len() > 0 && (args[0] == '"' || args[0] == '{') {
        Some(crate::text::to_vec(args.as_slice()))
    } else {
        match keyed_value_of(args.as_slice(), "value") {
            Some(v) => Some(v),
            None => keyed_value_of(args.as_slice(), "path"),
        }
    };
    let v = match valor {
        None => return None,
        Some(v) => v,
    };
    let mut i: usize = 0;
    assert(v@.skip(0) =~= v@);
    while i < v.len() && v[i] == '{'
        invariant
            i <= v.len(),
            without_braces(v@) == without_braces(v@.skip(i as int)),
        decreases v.len() - i,
    {
        assert(v@.skip(i as int).drop_first() =~= v@.skip(i as int + 1));
        i = i + 1;
    }
    let rest = crate::text::slice_of(v.as_slice(), i, v.len());
    assert(rest@ =~= v@.skip(i as int));
    assert(without_braces(rest@) == rest@);
    let w = crate::text::trim_start_of(rest.as_slice());
    if !(w.len() > 0 && w[0] == '"') {
        return None;
    }
    let inner = crate::text::slice_of(w.as_slice(), 1, w.len());
    assert(inner@ =~= w@.drop_first());
    let quote = chars_of("\"");
    match crate::text::split_once_of(inner.as_slice(), quote.as_slice()) {
        Some((lit, _)) => if lit.len() > 0 {
            Some(crate::text::string_of(lit.as_slice()))
        } else {
            None
        },
        None => None,
    }
}

/// A name: one word of letters, digits and `_`, whitespace around it aside.
pub open spec fn word_of(t: Seq<char>) -> Option<Seq<char>> {
    if trim(t).len() > 0 && forall|i: int| 0 <= i < trim(t).len() ==> (char_alphanumeric(#[trigger] trim(t)[i]) || trim(t)[i] == '_') {
        Some(trim(t))
    } else {
        None
    }
}

/// The name of a method: what there is in the file **between** the end of the
/// return type and the start of the parameters, where that is a name. Nothing where
/// the offsets are not a range of the file that falls between characters.
pub fn nombre_entre(source: &str, desde: usize, hasta: usize) -> (r: Option<String>)
    ensures
        crate::refmsg::opt_view(r) == (if desde <= hasta && hasta <= crate::text::utf8_len(source@)
            && crate::text::cut_is_clean(source@, desde as nat) && crate::text::cut_is_clean(source@, hasta as nat) {
            word_of(crate::preview::byte_slice(source@, desde as nat, hasta as nat))
        } else {
            None
        }),
{
    let v = chars_of(source);
    if desde > hasta || !crate::text::clean_cut_of(v.as_slice(), desde) || !crate::text::clean_cut_of(v.as_slice(), hasta) {
        return None;
    }
    if !fits_in(v.as_slice(), hasta) {
        return None;
    }
    let between = crate::preview::byte_slice_of(v.as_slice(), desde, hasta);
    let ghost cut = crate::preview::byte_slice(source@, desde as nat, hasta as nat);
    assert(between@ == cut);
    let t = crate::text::trim_of(between.as_slice());
    if t.len() == 0 {
        return None;
    }
    let mut i: usize = 0;
    while i < t.len()
        invariant
            i <= t.len(),
            t@ == trim(between@),
            between@ == cut,
            cut == crate::preview::byte_slice(source@, desde as nat, hasta as nat),
            desde <= hasta && hasta <= crate::text::utf8_len(source@) && crate::text::cut_is_clean(source@, desde as nat)
                && crate::text::cut_is_clean(source@, hasta as nat),
            forall|j: int| 0 <= j < i ==> (char_alphanumeric(#[trigger] t@[j]) || t@[j] == '_'),
        decreases t.len() - i,
    {
        if !(is_alphanumeric(t[i]) || t[i] == '_') {
            assert(!(char_alphanumeric(trim(cut)[i as int]) || trim(cut)[i as int] == '_'));
            assert(word_of(cut) is None);
            return None;
        }
        i = i + 1;
    }
    Some(crate::text::string_of(t.as_slice()))
}

/// Whether `s` takes at least `n` bytes.
fn fits_in(s: &[char], n: usize) -> (b: bool)
    ensures
        b == (n <= crate::text::utf8_len(s@)),
{
    let mut k: usize = 0;
    let mut used: usize = 0;
    while k < s.len() && used < n
        invariant
            k <= s.len(),
            used <= n,
            used == crate::text::utf8_len(s@.take(k as int)),
        decreases s.len() - k,
    {
        let w = crate::text::utf8_width_of(s[k]);
        assert(s@.take(k as int + 1).drop_last() =~= s@.take(k as int));
        if w >= n - used {
            proof {
                crate::text::lemma_utf8_len_nonneg_prefix(s@, k as int + 1);
            }
            return true;
        }
        used = used + w;
        k = k + 1;
    }
    proof {
        crate::text::lemma_utf8_len_nonneg_prefix(s@, k as int);
        if used < n {
            assert(s@.take(k as int) =~= s@);
        }
    }
    used == n
}

} // verus!
