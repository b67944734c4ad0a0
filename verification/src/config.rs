//! The project root, and the only thing bilinker configures: two lines per clone.
//!
//! There is no configuration file of bilinker. What is per clone — and does not
//! travel with a `git clone` — is the exclusion in `.git/info/exclude` and the
//! refspec in `.git/config`. `init` writes them: **bilinker fixes on its own only
//! what is its own, and asks for what belongs to the user's repo.** git runs
//! outside this library; these functions decide from what it answered.
use vstd::prelude::*;

use crate::text::{append_str, chars_of, lines, lines_of, owned, same_str, string_of, trim, trim_of, views};

verus! {

/// The patterns `init` leaves in `.git/info/exclude`.
pub const EXCLUDE_PATTERNS: [&'static str; 2] = [".bilink/", ".bilink-migrate-*"];

/// The refspec that makes `git fetch` bring the bilink refs with the branches.
/// **Without `+`**: a forced fetch would overwrite a diverged local ref silently,
/// and what is lost is a parent.
pub const REFSPEC: &'static str = "refs/bilink/*:refs/bilink/*";

/// The refspec earlier versions wrote, which has to go from a clone that has it.
pub const REFSPEC_FORZADO: &'static str = "+refs/bilink/*:refs/bilink/*";

/// The id of the cut to the ref in the ledger of migrations.
pub const REF_CUTOVER: &'static str = "bilinker-005-ref-cutover";

/// The configuration of a project: nothing beyond where its root is.
#[derive(Debug, Default)]
pub struct Config {}

/// Why a command cannot run on this repo.
#[derive(Debug, Clone, PartialEq)]
pub enum ConfigError {
    /// The repo cut over to the ref and `init` has not run on this clone.
    NotInitialized,
}

/// Some line of `text`, trimmed, is `p`.
pub open spec fn has_line(text: Seq<char>, p: Seq<char>) -> bool {
    exists|k: int| 0 <= k < lines(text).len() && trim(#[trigger] lines(text)[k]) == p
}

/// Whether some line of `text`, trimmed, is `p`.
pub(crate) fn has_line_of(text: &str, p: &str) -> (b: bool)
    ensures
        b == has_line(text@, p@),
{
    let v = chars_of(text);
    let ls = lines_of(v.as_slice());
    let mut i: usize = 0;
    while i < ls.len()
        invariant
            i <= ls.len(),
            views(ls@) == lines(text@),
            forall|k: int| 0 <= k < i ==> trim(#[trigger] lines(text@)[k]) != p@,
        decreases ls.len() - i,
    {
        let t = trim_of(ls[i].as_slice());
        assert(views(ls@)[i as int] == ls@[i as int]@);
        if same_str(t.as_slice(), p) {
            return true;
        }
        i = i + 1;
    }
    false
}

impl Config {
    /// The project root: the nearest of `dir`'s ancestors (itself first, then each
    /// parent) that holds `.bilink/` or `.git`, or `dir` itself when none does.
    /// `ancestors` pairs each of them with whether it does.
    pub fn load_from(dir: &str, ancestors: &Vec<(String, bool)>) -> (r: (String, Config))
        ensures
            match first_marked(ancestors@) {
                Some(i) => r.0@ == ancestors@[i].0@,
                None => r.0@ == dir@,
            },
    {
        let mut i: usize = 0;
        while i < ancestors.len()
            invariant
                i <= ancestors.len(),
                first_marked(ancestors@) == first_marked_from(ancestors@, i as int),
            decreases ancestors.len() - i,
        {
            if ancestors[i].1 {
                return (ancestors[i].0.clone(), Config {});
            }
            i = i + 1;
        }
        (owned(dir), Config {})
    }
}

/// The first ancestor at or after `i` that is marked.
pub open spec fn first_marked_from(a: Seq<(String, bool)>, i: int) -> Option<int>
    decreases a.len() - i,
{
    if i < 0 || i >= a.len() {
        None
    } else if a[i].1 {
        Some(i)
    } else {
        first_marked_from(a, i + 1)
    }
}

/// The first ancestor that is marked.
pub open spec fn first_marked(a: Seq<(String, bool)>) -> Option<int> {
    first_marked_from(a, 0)
}

/// Whether the clone is set up for bilinker: **the exclusion, always** (both
/// patterns in `info/exclude`, which may not exist), and **a refspec on every
/// remote**, either one — the forced one of earlier versions counts too. Each
/// remote comes with whether it has the refspec and whether the forced one.
pub fn is_initialized(exclude: Option<&str>, remotes: Option<&Vec<(bool, bool)>>) -> (b: bool)
    ensures
        b == (match exclude {
            Some(t) => has_line(t@, ".bilink/"@) && has_line(t@, ".bilink-migrate-*"@),
            None => false,
        } && match remotes {
            Some(rs) => forall|k: int| 0 <= k < rs@.len() ==> #[trigger] rs@[k].0 || rs@[k].1,
            None => false,
        }),
{
    let excluded = match exclude {
        Some(t) => has_line_of(t, ".bilink/") && has_line_of(t, ".bilink-migrate-*"),
        None => false,
    };
    let all = match remotes {
        None => false,
        Some(rs) => {
            let mut ok = true;
            let mut i: usize = 0;
            while i < rs.len()
                invariant
                    i <= rs.len(),
                    ok == forall|k: int| 0 <= k < i ==> #[trigger] rs@[k].0 || rs@[k].1,
                decreases rs.len() - i,
            {
                if !rs[i].0 && !rs[i].1 {
                    ok = false;
                }
                proof {
                    if !ok {
                        if rs@[i as int].0 || rs@[i as int].1 {
                            let k = choose|k: int| 0 <= k < i && !(#[trigger] rs@[k].0 || rs@[k].1);
                            assert(0 <= k < i + 1 && !(rs@[k].0 || rs@[k].1));
                        }
                    }
                }
                i = i + 1;
            }
            ok
        },
    };
    excluded && all
}

/// Whether the repo moved its bilinks to the ref: **the ledger says so**, not the
/// filesystem, so a fresh clone knows before it has a single local ref.
pub fn has_cut_over(ledger: Option<&str>) -> (b: bool)
    ensures
        b == match ledger {
            Some(t) => has_line(t@, REF_CUTOVER@),
            None => false,
        },
{
    match ledger {
        Some(t) => has_line_of(t, REF_CUTOVER),
        None => false,
    }
}

/// The error whoever did not run `init` sees, only on a repo that cut over.
pub fn require_initialized(cut_over: bool, initialized: bool) -> (r: Result<(), ConfigError>)
    ensures
        r == if !cut_over || initialized {
            Ok::<(), ConfigError>(())
        } else {
            Err(ConfigError::NotInitialized)
        },
{
    if !cut_over || initialized {
        Ok(())
    } else {
        Err(ConfigError::NotInitialized)
    }
}

/// The heading `write_exclude` adds once.
pub open spec fn exclude_heading() -> Seq<char> {
    "\n# bilinker — los bilinks viven en refs/bilink/*, no en la rama\n"@
}

/// The patterns an exclude text lacks, in order.
pub open spec fn missing_patterns(existing: Seq<char>) -> Seq<Seq<char>> {
    (if has_line(existing, ".bilink/"@) {
        Seq::<Seq<char>>::empty()
    } else {
        seq![".bilink/"@]
    }) + (if has_line(existing, ".bilink-migrate-*"@) {
        Seq::<Seq<char>>::empty()
    } else {
        seq![".bilink-migrate-*"@]
    })
}

/// Each pattern on a line of its own.
pub open spec fn pattern_lines(ps: Seq<Seq<char>>) -> Seq<char>
    decreases ps.len(),
{
    if ps.len() == 0 {
        seq![]
    } else {
        pattern_lines(ps.drop_last()) + ps.last() + seq!['\n']
    }
}

/// The exclude text with the missing patterns added: a line break where the text
/// does not end in one, the heading where it is not yet, then the patterns.
pub open spec fn excluded_text(existing: Seq<char>) -> Seq<char> {
    let a = if existing.len() > 0 && existing.last() != '\n' {
        existing + seq!['\n']
    } else {
        existing
    };
    let b = if crate::text::find(a, "# bilinker"@) is None {
        a + exclude_heading()
    } else {
        a
    };
    b + pattern_lines(missing_patterns(existing))
}

/// The views of a list of names.
pub open spec fn name_views(v: Seq<&str>) -> Seq<Seq<char>> {
    v.map_values(|s: &str| s@)
}

/// Adds to `.git/info/exclude` the patterns it lacks, touching nothing else. Gives
/// the patterns added — none for a repeated `init` — and the new text to write,
/// nothing when there is nothing to add or on a dry run.
pub fn write_exclude(existing: &str, dry_run: bool) -> (r: (Vec<&'static str>, Option<String>))
    ensures
        name_views(r.0@) == missing_patterns(existing@),
        match r.1 {
            Some(t) => !dry_run && missing_patterns(existing@).len() > 0 && t@ == excluded_text(existing@),
            None => dry_run || missing_patterns(existing@).len() == 0,
        },
{
    let mut missing: Vec<&'static str> = Vec::new();
    if !has_line_of(existing, ".bilink/") {
        missing.push(".bilink/");
    }
    if !has_line_of(existing, ".bilink-migrate-*") {
        missing.push(".bilink-migrate-*");
    }
    assert(name_views(missing@) =~= missing_patterns(existing@));
    if missing.len() == 0 || dry_run {
        return (missing, None);
    }
    let mut out = chars_of(existing);
    if out.len() > 0 && out[out.len() - 1] != '\n' {
        out.push('\n');
    }
    let ghost a = out@;
    assert(a == (if existing@.len() > 0 && existing@.last() != '\n' {
        existing@ + seq!['\n']
    } else {
        existing@
    }));
    let mark = chars_of("# bilinker");
    let found = crate::text::find_of(out.as_slice(), mark.as_slice());
    let absent = match found {
        Some(_) => false,
        None => true,
    };
    if absent {
        append_str(&mut out, "\n# bilinker — los bilinks viven en refs/bilink/*, no en la rama\n");
    }
    let ghost head = out@;
    assert(head == (if crate::text::find(a, "# bilinker"@) is None {
        a + exclude_heading()
    } else {
        a
    }));
    let mut i: usize = 0;
    while i < missing.len()
        invariant
            i <= missing.len(),
            out@ == head + pattern_lines(name_views(missing@).take(i as int)),
        decreases missing.len() - i,
    {
        let ghost next = name_views(missing@).take(i as int + 1);
        assert(next.drop_last() =~= name_views(missing@).take(i as int));
        assert(next.last() == missing@[i as int]@);
        append_str(&mut out, missing[i]);
        out.push('\n');
        assert(out@ =~= head + pattern_lines(next));
        i = i + 1;
    }
    assert(name_views(missing@).take(i as int) =~= name_views(missing@));
    assert(name_views(missing@).len() == missing@.len());
    assert(out@ == excluded_text(existing@));
    (missing, Some(string_of(out.as_slice())))
}

/// The refspec as a regex for `git config --unset-all`, which matches the
/// **value**: each of `+*.^$[]()|\\` behind a `\\`, anchored at both ends.
pub open spec fn regex_text(refspec: Seq<char>) -> Seq<char> {
    seq!['^'] + escaped_regex(refspec) + seq!['$']
}

/// The characters a regex gives meaning to.
pub open spec fn regex_special(c: char) -> bool {
    c == '+' || c == '*' || c == '.' || c == '^' || c == '$' || c == '[' || c == ']' || c == '('
        || c == ')' || c == '|' || c == '\\'
}

/// Each special character behind a `\\`.
pub open spec fn escaped_regex(s: Seq<char>) -> Seq<char>
    decreases s.len(),
{
    if s.len() == 0 {
        seq![]
    } else {
        escaped_regex(s.drop_last()) + if regex_special(s.last()) {
            seq!['\\', s.last()]
        } else {
            seq![s.last()]
        }
    }
}

/// The refspec as a regex that matches exactly its value.
pub fn regex_of(refspec: &str) -> (r: String)
    ensures
        r@ == regex_text(refspec@),
{
    let s = chars_of(refspec);
    let mut out: Vec<char> = vec!['^'];
    let mut i: usize = 0;
    while i < s.len()
        invariant
            i <= s.len(),
            s@ == refspec@,
            out@ == seq!['^'] + escaped_regex(s@.take(i as int)),
        decreases s.len() - i,
    {
        let c = s[i];
        let ghost next = s@.take(i as int + 1);
        assert(next.drop_last() =~= s@.take(i as int));
        if c == '+' || c == '*' || c == '.' || c == '^' || c == '$' || c == '[' || c == ']' || c
            == '(' || c == ')' || c == '|' || c == '\\' {
            out.push('\\');
        }
        out.push(c);
        assert(out@ =~= seq!['^'] + escaped_regex(next));
        i = i + 1;
    }
    assert(s@.take(i as int) =~= s@);
    out.push('$');
    string_of(out.as_slice())
}

/// The filled lines, trimmed, in order.
pub open spec fn filled_lines(ls: Seq<Seq<char>>) -> Seq<Seq<char>>
    decreases ls.len(),
{
    if ls.len() == 0 {
        seq![]
    } else {
        filled_lines(ls.drop_last()) + if trim(ls.last()).len() > 0 {
            seq![trim(ls.last())]
        } else {
            Seq::<Seq<char>>::empty()
        }
    }
}

/// The views of strings.
pub open spec fn string_views(v: Seq<String>) -> Seq<Seq<char>> {
    v.map_values(|s: String| s@)
}

/// The remotes of the repo, from what `git remote` listed.
pub fn remotes(listing: &str) -> (r: Vec<String>)
    ensures
        string_views(r@) == filled_lines(lines(listing@)),
{
    let v = chars_of(listing);
    let ls = lines_of(v.as_slice());
    let mut out: Vec<String> = Vec::new();
    let mut i: usize = 0;
    while i < ls.len()
        invariant
            i <= ls.len(),
            views(ls@) == lines(listing@),
            string_views(out@) == filled_lines(views(ls@).take(i as int)),
        decreases ls.len() - i,
    {
        let ghost next = views(ls@).take(i as int + 1);
        assert(next.drop_last() =~= views(ls@).take(i as int));
        assert(next.last() == ls@[i as int]@);
        let t = trim_of(ls[i].as_slice());
        let ghost before = out@;
        if t.len() > 0 {
            let s = string_of(t.as_slice());
            out.push(s);
            assert(string_views(out@) =~= string_views(before).push(s@));
        }
        assert(string_views(out@) =~= filled_lines(next));
        i = i + 1;
    }
    assert(views(ls@).take(i as int) =~= views(ls@));
    out
}

/// Whether a remote's fetch refspecs, as `git config --get-all remote.<r>.fetch`
/// listed them (nothing when git fails), hold `refspec`.
pub fn has_refspec_in(fetch: Option<&str>, refspec: &str) -> (b: bool)
    ensures
        b == match fetch {
            Some(t) => has_line(t@, refspec@),
            None => false,
        },
{
    match fetch {
        Some(t) => has_line_of(t, refspec),
        None => false,
    }
}

/// Whether the remote still carries the forced refspec of earlier versions.
pub fn has_forced_refspec(fetch: Option<&str>) -> (b: bool)
    ensures
        b == match fetch {
            Some(t) => has_line(t@, REFSPEC_FORZADO@),
            None => false,
        },
{
    has_refspec_in(fetch, REFSPEC_FORZADO)
}

/// The `git config` argument lists that set a remote's refspec: **first the forced
/// one goes** — the new one beside it would leave both, and the `+` would win —
/// then the new one where it is missing.
pub open spec fn refspec_commands(remote: Seq<char>, present: bool, forced: bool) -> Seq<Seq<Seq<char>>> {
    let key = "remote."@ + remote + ".fetch"@;
    (if forced {
        seq![seq!["config"@, "--unset-all"@, key, regex_text(REFSPEC_FORZADO@)]]
    } else {
        Seq::<Seq<Seq<char>>>::empty()
    }) + (if !present {
        seq![seq!["config"@, "--add"@, key, REFSPEC@]]
    } else {
        Seq::<Seq<Seq<char>>>::empty()
    })
}

/// The remotes to touch: those without the refspec or with the forced one.
pub open spec fn pending_of(rs: Seq<(String, bool, bool)>) -> Seq<Seq<char>>
    decreases rs.len(),
{
    if rs.len() == 0 {
        seq![]
    } else {
        pending_of(rs.drop_last()) + if !rs.last().1 || rs.last().2 {
            seq![rs.last().0@]
        } else {
            Seq::<Seq<char>>::empty()
        }
    }
}

/// The commands that set the refspec of every remote, in order.
pub open spec fn commands_of(rs: Seq<(String, bool, bool)>) -> Seq<Seq<Seq<char>>>
    decreases rs.len(),
{
    if rs.len() == 0 {
        seq![]
    } else {
        commands_of(rs.drop_last()) + refspec_commands(rs.last().0@, rs.last().1, rs.last().2)
    }
}

/// The views of argument lists.
pub open spec fn arg_lists(v: Seq<Vec<String>>) -> Seq<Seq<Seq<char>>> {
    v.map_values(|a: Vec<String>| string_views(a@))
}

/// Adds the refspec of `refs/bilink/*` to every remote that lacks it or carries the
/// forced one. Each remote comes with whether it has the refspec and the forced
/// one; the answer is the remotes touched and, unless on a dry run, the `git
/// config` commands for each. Without remotes there is nothing to write, and that
/// is no error.
pub fn write_refspec(remotes: &Vec<(String, bool, bool)>, dry_run: bool) -> (r: (
    Vec<String>,
    Vec<Vec<String>>,
))
    ensures
        string_views(r.0@) == pending_of(remotes@),
        arg_lists(r.1@) == if dry_run {
            Seq::<Seq<Seq<char>>>::empty()
        } else {
            commands_of(remotes@)
        },
{
    let mut pending: Vec<String> = Vec::new();
    let mut commands: Vec<Vec<String>> = Vec::new();
    let mut i: usize = 0;
    while i < remotes.len()
        invariant
            i <= remotes.len(),
            string_views(pending@) == pending_of(remotes@.take(i as int)),
            arg_lists(commands@) == if dry_run {
                Seq::<Seq<Seq<char>>>::empty()
            } else {
                commands_of(remotes@.take(i as int))
            },
        decreases remotes.len() - i,
    {
        let ghost next = remotes@.take(i as int + 1);
        assert(next.drop_last() =~= remotes@.take(i as int));
        assert(next.last() == remotes@[i as int]);
        let present = remotes[i].1;
        let forced = remotes[i].2;
        let ghost before = pending@;
        let ghost cmds_before = commands@;
        if !present || forced {
            let name = remotes[i].0.clone();
            pending.push(name);
            assert(string_views(pending@) =~= string_views(before).push(name@));
        }
        assert(string_views(pending@) =~= pending_of(next));
        if !dry_run {
            let mut key = chars_of("remote.");
            append_str(&mut key, remotes[i].0.as_str());
            append_str(&mut key, ".fetch");
            let key = string_of(key.as_slice());
            let ghost added: Seq<Seq<Seq<char>>> = seq![];
            if forced {
                let mut c: Vec<String> = Vec::new();
                c.push(owned("config"));
                c.push(owned("--unset-all"));
                c.push(key.clone());
                c.push(regex_of(REFSPEC_FORZADO));
                let ghost mid = commands@;
                commands.push(c);
                assert(string_views(c@) =~= seq!["config"@, "--unset-all"@, key@, regex_text(REFSPEC_FORZADO@)]);
                assert(arg_lists(commands@) =~= arg_lists(mid).push(string_views(c@)));
            }
            if !present {
                let mut c: Vec<String> = Vec::new();
                c.push(owned("config"));
                c.push(owned("--add"));
                c.push(key.clone());
                c.push(owned(REFSPEC));
                let ghost mid = commands@;
                commands.push(c);
                assert(string_views(c@) =~= seq!["config"@, "--add"@, key@, REFSPEC@]);
                assert(arg_lists(commands@) =~= arg_lists(mid).push(string_views(c@)));
            }
            assert(arg_lists(commands@) =~= arg_lists(cmds_before) + refspec_commands(
                remotes@[i as int].0@,
                present,
                forced,
            ));
        }
        i = i + 1;
    }
    assert(remotes@.take(i as int) =~= remotes@);
    (pending, commands)
}

/// The repo's git directory, from `git rev-parse --absolute-git-dir`.
pub fn git_dir(answer: &str) -> (r: String)
    ensures
        r@ == trim(answer@),
{
    let v = chars_of(answer);
    string_of(trim_of(v.as_slice()).as_slice())
}

/// The root of the git repo, from `git rev-parse --show-toplevel`. Not the layer's
/// root: the exclusion and the refspec are **per repo**.
pub fn repo_root(answer: &str) -> (r: String)
    ensures
        r@ == trim(answer@),
{
    git_dir(answer)
}


// ─── writing the refspec twice ──────────────────────────────────────────────

/// The command that adds the refspec to a remote.
pub open spec fn add_command(remote: Seq<char>) -> Seq<Seq<char>> {
    seq!["config"@, "--add"@, "remote."@ + remote + ".fetch"@, REFSPEC@]
}

/// The command that takes the forced refspec away from a remote.
pub open spec fn unset_command(remote: Seq<char>) -> Seq<Seq<char>> {
    seq!["config"@, "--unset-all"@, "remote."@ + remote + ".fetch"@, regex_text(REFSPEC_FORZADO@)]
}

/// Whether a remote has the refspec and the forced one after `git config` runs
/// `cmds`: `--add` of the refspec adds it, and `--unset-all` of the forced one's
/// pattern takes every forced line away.
pub open spec fn refspec_after(remote: Seq<char>, present: bool, forced: bool, cmds: Seq<Seq<Seq<char>>>) -> (bool, bool) {
    (present || cmds.contains(add_command(remote)), forced && !cmds.contains(unset_command(remote)))
}

/// The remotes as they stand after the commands.
pub open spec fn remotes_after(rs: Seq<(String, bool, bool)>, cmds: Seq<Seq<Seq<char>>>) -> Seq<(String, bool, bool)> {
    rs.map_values(
        |r: (String, bool, bool)|
            (r.0, refspec_after(r.0@, r.1, r.2, cmds).0, refspec_after(r.0@, r.1, r.2, cmds).1),
    )
}

proof fn lemma_commands_hold(rs: Seq<(String, bool, bool)>, i: int)
    requires
        0 <= i < rs.len(),
    ensures
        !rs[i].1 ==> commands_of(rs).contains(add_command(rs[i].0@)),
        rs[i].2 ==> commands_of(rs).contains(unset_command(rs[i].0@)),
    decreases rs.len(),
{
    let last = rs.len() - 1;
    let head = commands_of(rs.drop_last());
    let tail = refspec_commands(rs.last().0@, rs.last().1, rs.last().2);
    assert(commands_of(rs) == head + tail);
    if i < last {
        assert(rs.drop_last()[i] == rs[i]);
        lemma_commands_hold(rs.drop_last(), i);
        if !rs[i].1 {
            let k = choose|k: int| 0 <= k < head.len() && head[k] == add_command(rs[i].0@);
            assert((head + tail)[k] == head[k]);
        }
        if rs[i].2 {
            let k = choose|k: int| 0 <= k < head.len() && head[k] == unset_command(rs[i].0@);
            assert((head + tail)[k] == head[k]);
        }
    } else {
        let u: Seq<Seq<Seq<char>>> = if rs[i].2 { seq![unset_command(rs[i].0@)] } else { seq![] };
        let a: Seq<Seq<Seq<char>>> = if !rs[i].1 { seq![add_command(rs[i].0@)] } else { seq![] };
        assert(tail =~= u + a);
        if !rs[i].1 {
            assert((head + tail)[(head.len() + u.len()) as int] == add_command(rs[i].0@));
        }
        if rs[i].2 {
            assert((head + tail)[head.len() as int] == unset_command(rs[i].0@));
        }
    }
}

proof fn lemma_nothing_pending(rs: Seq<(String, bool, bool)>)
    requires
        forall|i: int| 0 <= i < rs.len() ==> #[trigger] rs[i].1 && !rs[i].2,
    ensures
        pending_of(rs) == Seq::<Seq<char>>::empty(),
    decreases rs.len(),
{
    if rs.len() > 0 {
        assert forall|i: int| 0 <= i < rs.drop_last().len() implies #[trigger] rs.drop_last()[i].1 && !rs.drop_last()[i].2 by {
            assert(rs.drop_last()[i] == rs[i]);
        }
        lemma_nothing_pending(rs.drop_last());
        assert(rs.last() == rs[rs.len() - 1]);
    }
}

/// **Writing the refspec twice writes it once.** After `git config` runs the
/// commands a write asks for, every remote has the refspec and none has the forced
/// one, so a second write touches no remote and asks for no command.
pub proof fn lemma_refspec_written_once(rs: Seq<(String, bool, bool)>)
    ensures
        forall|i: int| 0 <= i < rs.len() ==> #[trigger] remotes_after(rs, commands_of(rs))[i].1 && !remotes_after(
            rs,
            commands_of(rs),
        )[i].2,
        pending_of(remotes_after(rs, commands_of(rs))) == Seq::<Seq<char>>::empty(),
        commands_of(remotes_after(rs, commands_of(rs))) == Seq::<Seq<Seq<char>>>::empty(),
{
    let after = remotes_after(rs, commands_of(rs));
    assert forall|i: int| 0 <= i < rs.len() implies #[trigger] after[i].1 && !after[i].2 by {
        lemma_commands_hold(rs, i);
    }
    lemma_nothing_pending(after);
    lemma_no_commands(after);
}

proof fn lemma_no_commands(rs: Seq<(String, bool, bool)>)
    requires
        forall|i: int| 0 <= i < rs.len() ==> #[trigger] rs[i].1 && !rs[i].2,
    ensures
        commands_of(rs) == Seq::<Seq<Seq<char>>>::empty(),
    decreases rs.len(),
{
    if rs.len() > 0 {
        assert forall|i: int| 0 <= i < rs.drop_last().len() implies #[trigger] rs.drop_last()[i].1 && !rs.drop_last()[i].2 by {
            assert(rs.drop_last()[i] == rs[i]);
        }
        lemma_no_commands(rs.drop_last());
        assert(rs.last() == rs[rs.len() - 1]);
        assert(refspec_commands(rs.last().0@, rs.last().1, rs.last().2) =~= Seq::<Seq<Seq<char>>>::empty());
    }
}

} // verus!
