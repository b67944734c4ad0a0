//! The border between projects: resolving an alias, and reading the least from the
//! provider. **Nothing here goes to the network** but the explicit fetch.
use vstd::prelude::*;

use crate::cache::{path_join, path_join_of};
use crate::accept::names;
use crate::config::has_line;
use crate::text::{
    append, append_str, chars_of, ends_with, ends_with_of, find, insert_unique, slice_of, split_once,
    split_once_of, string_of, strictly_sorted, strip_prefix, strip_prefix_of,
};

verus! {

/// What a consumer declares of a provider: **one file per provider, and the only
/// place of the consumer that knows anything of the other repo.**
#[derive(Debug, Clone, PartialEq, Eq)]
pub struct Provider {
    /// The repo's URL. It lives here and **never in a `.bilink`**.
    pub remote: String,
    /// The project's branch; the tool translates it to `refs/bilink/<branch>`.
    pub branch: String,
}

/// `path` joined with `name`, as `Path::join` does: an absolute name replaces it.
pub open spec fn join_path(path: Seq<char>, name: Seq<char>) -> Seq<char> {
    if name.len() > 0 && name[0] == '/' {
        name
    } else {
        path_join(path, name)
    }
}

fn join_path_of(path: &[char], name: &str) -> (r: Vec<char>)
    ensures
        r@ == join_path(path@, name@),
{
    let n = chars_of(name);
    if n.len() > 0 && n[0] == '/' {
        n
    } else {
        path_join_of(path, name)
    }
}

/// The panorama of a project's worklist: `<root>/.worklist/insecure/all`.
pub(crate) fn joined(root: &str) -> (r: String)
    ensures
        r@ == join_path(join_path(join_path(root@, ".worklist"@), "insecure"@), "all"@),
{
    let r = chars_of(root);
    let a = join_path_of(r.as_slice(), ".worklist");
    let b = join_path_of(a.as_slice(), "insecure");
    let c = join_path_of(b.as_slice(), "all");
    string_of(c.as_slice())
}

impl Provider {
    /// `.bilink/.{alias}.toml`: a dotfile that describes its sibling without a dot.
    /// **In `.bilink/` and not in `.stratum/`**: an outside provider is not a lower
    /// layer of the consumer.
    pub fn declaration_path(layer: &str, alias: &str) -> (r: String)
        ensures
            r@ == join_path(join_path(layer@, ".bilink"@), "."@ + alias@ + ".toml"@),
    {
        let l = chars_of(layer);
        let b = join_path_of(l.as_slice(), ".bilink");
        let mut name: Vec<char> = Vec::new();
        append_str(&mut name, ".");
        append_str(&mut name, alias);
        append_str(&mut name, ".toml");
        let ns = string_of(name.as_slice());
        let r = join_path_of(b.as_slice(), ns.as_str());
        string_of(r.as_slice())
    }

    /// Where the clone lives: beside its declaration, and ignored by git.
    pub fn clone_path(layer: &str, alias: &str) -> (r: String)
        ensures
            r@ == join_path(join_path(layer@, ".bilink"@), alias@),
    {
        let l = chars_of(layer);
        let b = join_path_of(l.as_slice(), ".bilink");
        let r = join_path_of(b.as_slice(), alias);
        string_of(r.as_slice())
    }

    /// The ref of bilinks of the declared branch.
    pub fn ref_name(&self) -> (r: String)
        ensures
            r@ == "refs/bilink/"@ + self.branch@,
    {
        let mut out: Vec<char> = Vec::new();
        append_str(&mut out, "refs/bilink/");
        append_str(&mut out, self.branch.as_str());
        string_of(out.as_slice())
    }
}

/// What the explicit fetch brought.
pub struct FetchReport {
    pub alias: String,
    pub branch: String,
    pub files: usize,
}

// ─── the provider's format ───────────────────────────────────────────────────

/// Why the provider's files are not read. **Not a state: it stops.** A version not
/// understood is not drift, it is not being able to read.
#[derive(Debug, Clone, PartialEq, Eq)]
pub enum FormatError {
    /// No version declared: a provider from before the border.
    Undeclared { alias: String },
    /// Another major version.
    Incompatible { alias: String, theirs: String, ours: String },
}

impl FormatError {
    /// What the error says.
    pub fn message(&self) -> (r: String)
        ensures
            r@ == match *self {
                FormatError::Undeclared { alias } => "el proveedor '"@ + alias@
                    + "' no declara versión de formato: es anterior a la frontera.\n  No se puede interpretar lo que publica."@,
                FormatError::Incompatible { alias, theirs, ours } => "el proveedor '"@ + alias@ + "' publica formato "@
                    + theirs@ + " y este binario lee "@ + ours@
                    + ".\n  No se interpreta lo que no se entiende: actualizar bilinker, o fijar el `.toml` a una rama del proveedor que use un formato compatible."@,
            },
    {
        let mut out: Vec<char> = Vec::new();
        match self {
            FormatError::Undeclared { alias } => {
                append_str(&mut out, "el proveedor '");
                append_str(&mut out, alias.as_str());
                append_str(&mut out, "' no declara versión de formato: es anterior a la frontera.\n  No se puede interpretar lo que publica.");
            },
            FormatError::Incompatible { alias, theirs, ours } => {
                append_str(&mut out, "el proveedor '");
                append_str(&mut out, alias.as_str());
                append_str(&mut out, "' publica formato ");
                append_str(&mut out, theirs.as_str());
                append_str(&mut out, " y este binario lee ");
                append_str(&mut out, ours.as_str());
                append_str(&mut out, ".\n  No se interpreta lo que no se entiende: actualizar bilinker, o fijar el `.toml` a una rama del proveedor que use un formato compatible.");
            },
        }
        string_of(out.as_slice())
    }
}

/// The major part of a version: what precedes the first `.`.
pub open spec fn major(v: Seq<char>) -> Seq<char> {
    match split_once(v, "."@) {
        Some((m, _)) => m,
        None => v,
    }
}

fn major_of(v: &str) -> (r: Vec<char>)
    ensures
        r@ == major(v@),
{
    let all = chars_of(v);
    let dot = chars_of(".");
    match split_once_of(all.as_slice(), dot.as_slice()) {
        Some((m, _)) => m,
        None => all,
    }
}

/// The consumer refuses a provider whose format it does not understand: one that
/// declares none (`theirs` is `None`), or one of another major version than `ours`.
/// **Across projects diverging versions are the rule, not an accident.**
pub fn verify_format_version(theirs: Option<&str>, ours: &str, alias: &str) -> (r: Result<(), FormatError>)
    ensures
        match theirs {
            None => r matches Err(FormatError::Undeclared { alias: a }) && a@ == alias@,
            Some(t) => if major(t@) == major(ours@) {
                r is Ok
            } else {
                r matches Err(FormatError::Incompatible { alias: a, theirs: x, ours: y }) && a@ == alias@ && x@
                    == t@ && y@ == ours@
            },
        },
{
    let t = match theirs {
        None => return Err(FormatError::Undeclared { alias: crate::text::owned(alias) }),
        Some(t) => t,
    };
    let a = major_of(t);
    let b = major_of(ours);
    if crate::text::same(a.as_slice(), b.as_slice()) {
        Ok(())
    } else {
        Err(
            FormatError::Incompatible {
                alias: crate::text::owned(alias),
                theirs: crate::text::owned(t),
                ours: crate::text::owned(ours),
            },
        )
    }
}

// ─── deepening ───────────────────────────────────────────────────────────────

/// How much history each round brings: the common case ends in the first.
pub const DEEPEN_STEP: usize = 50;

/// How much history is brought at most.
pub const DEEPEN_CEILING: usize = 500;

/// What the walk back through the provider's ref does next.
#[derive(Debug, Clone, PartialEq, Eq)]
pub enum Deepen {
    /// The commit where the copied `accepted` held.
    Found(String),
    /// Not found within the ceiling, or no more history: whoever asked degrades.
    GiveUp,
    /// Bring `DEEPEN_STEP` more commits; this many brought so far.
    More(usize),
}

/// One round of the walk: with what the history searched answered (`found`) and
/// how much has been brought.
pub fn deepen_step(found: Option<String>, brought: usize) -> (r: Deepen)
    ensures
        match found {
            Some(c) => r == Deepen::Found(c),
            None => if brought >= DEEPEN_CEILING {
                r == Deepen::GiveUp
            } else {
                r == Deepen::More((brought + DEEPEN_STEP) as usize)
            },
        },
{
    match found {
        Some(c) => Deepen::Found(c),
        None => if brought >= DEEPEN_CEILING {
            Deepen::GiveUp
        } else {
            Deepen::More(brought + DEEPEN_STEP)
        },
    }
}

// ─── what the clone needs ────────────────────────────────────────────────────

/// The provider's files this repo needs, **derived from the bilinks**: the files of
/// the remote captures, each once and in order.
pub fn sparse_set(files: Vec<String>) -> (r: Vec<String>)
    ensures
        strictly_sorted(names(r@)),
        names(r@).to_set() == names(files@).to_set(),
{
    let mut out: Vec<String> = Vec::new();
    let mut i: usize = 0;
    let ghost src = names(files@);
    assert(names(out@).to_set() =~= src.take(0).to_set());
    let ghost all = files@;
    while i < files.len()
        invariant
            i <= all.len(),
            files@ == all,
            src == all.map_values(|s: String| s@),
            strictly_sorted(names(out@)),
            names(out@).to_set() == src.take(i as int).to_set(),
        decreases all.len() - i,
    {
        let f = files[i].clone();
        insert_unique(&mut out, f);
        assert(src.take(i as int + 1) =~= src.take(i as int).push(src[i as int]));
        proof {
            src.take(i as int).lemma_push_to_set_commute(src[i as int]);
        }
        i = i + 1;
    }
    assert(src.take(all.len() as int) =~= src);
    out
}

// ─── ignoring the clone ──────────────────────────────────────────────────────

/// The clone of another repo **is not committed**: the rule goes in
/// `.bilink/.gitignore`. The new text of that file, from what it holds, or nothing
/// when a line already says `<alias>/`.
pub fn ensure_ignored(existing: &str, alias: &str) -> (r: Option<String>)
    ensures
        match r {
            None => has_line(existing@, alias@ + "/"@),
            Some(t) => !has_line(existing@, alias@ + "/"@) && t@ == (if existing@.len() > 0 && existing@.last()
                != '\n' {
                existing@ + "\n"@
            } else {
                existing@
            }) + alias@ + "/\n"@,
        },
{
    let mut entry: Vec<char> = chars_of(alias);
    append_str(&mut entry, "/");
    let es = string_of(entry.as_slice());
    if crate::config::has_line_of(existing, es.as_str()) {
        return None;
    }
    let mut out = chars_of(existing);
    if out.len() > 0 && out[out.len() - 1] != '\n' {
        out.push('\n');
    }
    append_str(&mut out, alias);
    append_str(&mut out, "/\n");
    proof {
        reveal_strlit("\n");
        reveal_strlit("/\n");
        reveal_strlit("/");
    }
    assert(out@ =~= (if existing@.len() > 0 && existing@.last() != '\n' {
        existing@ + "\n"@
    } else {
        existing@
    }) + alias@ + "/\n"@);
    Some(string_of(out.as_slice()))
}

/// The alias a file name of `.bilink/` declares: `.{alias}.toml`.
pub open spec fn alias_in(name: Seq<char>) -> Option<Seq<char>> {
    match strip_prefix(name, "."@) {
        Some(rest) => if ends_with(rest, ".toml"@) {
            Some(rest.take(rest.len() - 5))
        } else {
            None
        },
        None => None,
    }
}

/// The aliases declared in a layer, from the names of the files of its `.bilink/` (`files`),
/// each once and in order.
pub fn declared_aliases(files: &Vec<String>) -> (r: Vec<String>)
    ensures
        strictly_sorted(names(r@)),
        forall|a: Seq<char>| #[trigger] names(r@).contains(a) <==> exists|k: int|
            0 <= k < files@.len() && alias_in(#[trigger] files@[k]@) == Some(a),
{
    let mut found: Vec<String> = Vec::new();
    let dot = chars_of(".");
    let toml = chars_of(".toml");
    let mut i: usize = 0;
    while i < files.len()
        invariant
            i <= files.len(),
            dot@ == "."@,
            toml@ == ".toml"@,
            forall|a: Seq<char>| #[trigger] names(found@).contains(a) <==> exists|k: int|
                0 <= k < i && alias_in(#[trigger] files@[k]@) == Some(a),
        decreases files.len() - i,
    {
        let n = chars_of(files[i].as_str());
        let ghost before = names(found@);
        match strip_prefix_of(n.as_slice(), dot.as_slice()) {
            Some(rest) => {
                if ends_with_of(rest.as_slice(), toml.as_slice()) {
                    proof {
                        reveal_strlit(".toml");
                    }
                    let a = slice_of(rest.as_slice(), 0, rest.len() - 5);
                    assert(a@ =~= rest@.take(rest@.len() - 5));
                    assert(alias_in(files@[i as int]@) == Some(a@));
                    found.push(string_of(a.as_slice()));
                    assert(names(found@) =~= before.push(a@));
                    assert forall|x: Seq<char>| #[trigger] names(found@).contains(x) <==> exists|k: int|
                        0 <= k < i + 1 && alias_in(#[trigger] files@[k]@) == Some(x) by {
                        if names(found@).contains(x) && x != a@ {
                            assert(before.contains(x));
                        }
                        if x == a@ {
                            assert(names(found@)[before.len() as int] == x);
                        }
                        if exists|k: int| 0 <= k < i + 1 && alias_in(#[trigger] files@[k]@) == Some(x) {
                            let k = choose|k: int| 0 <= k < i + 1 && alias_in(#[trigger] files@[k]@) == Some(x);
                            if k < i {
                                assert(before.contains(x));
                                let j = choose|j: int| 0 <= j < before.len() && before[j] == x;
                                assert(names(found@)[j] == x);
                            }
                        }
                    }
                } else {
                    assert(alias_in(files@[i as int]@) is None);
                }
            },
            None => {
                assert(alias_in(files@[i as int]@) is None);
            },
        }
        i = i + 1;
    }
    let r = sparse_set(found);
    assert forall|a: Seq<char>| #[trigger] names(r@).contains(a) <==> names(found@).contains(a) by {
        assert(names(r@).to_set().contains(a) == names(r@).contains(a));
        assert(names(found@).to_set().contains(a) == names(found@).contains(a));
    }
    r
}

} // verus!
