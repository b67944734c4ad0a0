//! `bilinker adopt`: bring the neighbour's decisions, and none of mine to it.
//!
//! Not called `merge` on purpose: it is asymmetric, and that is the truth. A field
//! of `accepted` is compared three ways — mine, the neighbour's, their merge base —
//! and the row that does **not** exist is what makes it asymmetric: a field only I
//! changed stays as it is, and does not travel the other way.
use vstd::prelude::*;

use crate::text::{chars_of, owned, rsplit_once_char, rsplit_once_char_of, same_text, string_of};

verus! {

/// What happens to an `accepted` field when adopting.
#[derive(Debug, Clone, Copy, PartialEq, Eq, Structural)]
pub enum Row {
    /// The neighbour changed it and here nobody touched it since the base.
    Clean,
    /// Both wrote the same value. **It is the convergence.**
    Converged,
    /// Both changed it, to different values.
    Conflict,
}

/// One field that differs, of one endpoint.
pub struct Change {
    pub path: String,
    pub uuid: String,
    pub n: u8,
    /// `ubicación` or `contenido`: the dimension that differs.
    pub dimension: &'static str,
    pub row: Row,
    pub mine: Option<String>,
    pub theirs: Option<String>,
}

/// What `adopt` did.
pub struct AdoptResult {
    pub branch: String,
    pub neighbour: String,
    pub base: Option<String>,
    pub changes: Vec<Change>,
    pub absorbed: Option<String>,
    pub commits: usize,
}

/// The changes of a given row.
pub open spec fn count_row(cs: Seq<Change>, row: Row) -> nat
    decreases cs.len(),
{
    if cs.len() == 0 {
        0
    } else {
        count_row(cs.drop_last(), row) + if cs.last().row == row {
            1nat
        } else {
            0nat
        }
    }
}

/// How many changes have `row`.
pub fn count_of(cs: &Vec<Change>, row: Row) -> (r: usize)
    ensures
        r == count_row(cs@, row),
{
    let mut k: usize = 0;
    let mut i: usize = 0;
    while i < cs.len()
        invariant
            i <= cs.len(),
            k <= i,
            k == count_row(cs@.take(i as int), row),
        decreases cs.len() - i,
    {
        assert(cs@.take(i as int + 1).drop_last() =~= cs@.take(i as int));
        if cs[i].row == row {
            k = k + 1;
        }
        i = i + 1;
    }
    assert(cs@.take(i as int) =~= cs@);
    k
}

impl AdoptResult {
    /// The fields in conflict.
    pub fn conflicts(&self) -> (r: usize)
        ensures
            r == count_row(self.changes@, Row::Conflict),
    {
        count_of(&self.changes, Row::Conflict)
    }

    /// The fields adopted.
    pub fn adopted(&self) -> (r: usize)
        ensures
            r == count_row(self.changes@, Row::Clean),
    {
        count_of(&self.changes, Row::Clean)
    }
}

/// The views of optional strings.
pub open spec fn opt(o: Option<&str>) -> Option<Seq<char>> {
    match o {
        Some(s) => Some(s@),
        None => None,
    }
}

/// The three-way merge of one field: mine `m`, theirs `t`, their base `b`.
pub open spec fn row_of(m: Option<Seq<char>>, t: Option<Seq<char>>, b: Option<Seq<char>>) -> Option<Row> {
    if t == m {
        if t is Some && b != t {
            Some(Row::Converged)
        } else {
            None
        }
    } else if m == b {
        Some(Row::Clean)
    } else if t == b {
        None
    } else {
        Some(Row::Conflict)
    }
}

fn same_opt(a: Option<&str>, b: Option<&str>) -> (r: bool)
    ensures
        r == (opt(a) == opt(b)),
{
    match (a, b) {
        (Some(x), Some(y)) => same_text(x, y),
        (None, None) => true,
        _ => false,
    }
}

/// The row of one field in the three-way merge, or none when nothing travels: a
/// field nobody changed, or **one only I changed** — it does not travel, and it is
/// not overwritten.
pub fn field_row(mine: Option<&str>, theirs: Option<&str>, base: Option<&str>) -> (r: Option<Row>)
    ensures
        r == row_of(opt(mine), opt(theirs), opt(base)),
{
    if same_opt(theirs, mine) {
        if theirs.is_some() && !same_opt(base, theirs) {
            Some(Row::Converged)
        } else {
            None
        }
    } else if same_opt(mine, base) {
        Some(Row::Clean)
    } else if same_opt(theirs, base) {
        None
    } else {
        Some(Row::Conflict)
    }
}

/// **Adopting is asymmetric, and never loses a decision.** What only the neighbour
/// changed comes clean; what only I changed does not travel; what both changed the
/// same converges, and what both changed differently is a conflict, never an
/// overwrite. Swapping the sides turns what comes into what stays.
pub proof fn lemma_adopt_is_asymmetric(m: Option<Seq<char>>, t: Option<Seq<char>>, b: Option<Seq<char>>)
    ensures
        m == b && t != b ==> row_of(m, t, b) == Some(Row::Clean),
        t == b && m != b ==> row_of(m, t, b) is None,
        m == b && t != b ==> row_of(t, m, b) is None,
        m == t ==> row_of(m, t, b) == row_of(t, m, b),
        m != b && t != b && m != t ==> row_of(m, t, b) == Some(Row::Conflict) && row_of(t, m, b)
            == Some(Row::Conflict),
        row_of(m, t, b) != Some(Row::Clean) || m == b,
{
}

/// What adopting does next, once the neighbour's ref and the merge base are known.
#[derive(Debug, Clone, Copy, PartialEq, Eq, Structural)]
pub enum AdoptStep {
    /// The base is the neighbour's tip: there is nothing to bring.
    UpToDate,
    /// Nothing is written: a conflict (all or nothing), a dry run, or nothing that
    /// comes clean.
    Stop,
    /// The neighbour's decisions come: absorb, write them, commit with its ref as
    /// second parent.
    Bring,
}

/// Why nothing can be adopted.
#[derive(Debug, Clone, PartialEq)]
pub enum AdoptError {
    /// The neighbour is the current branch.
    Itself { neighbour: String },
}

/// What `adopt` does: nothing from oneself; nothing when the base is the
/// neighbour's tip; **all or nothing**: with a conflict no commit is written, not
/// even the absorption, and neither on a dry run or when nothing comes clean.
pub fn adopt(
    branch: &str,
    neighbour: &str,
    neighbour_branch: &str,
    base: Option<&str>,
    theirs: &str,
    changes: &Vec<Change>,
    dry_run: bool,
) -> (r: Result<AdoptStep, AdoptError>)
    ensures
        neighbour_branch@ == branch@ ==> (r matches Err(AdoptError::Itself { neighbour: x })
            && x@ == neighbour@),
        neighbour_branch@ != branch@ ==> r == Ok::<AdoptStep, AdoptError>(
            if opt(base) == Some(theirs@) {
                AdoptStep::UpToDate
            } else if count_row(changes@, Row::Conflict) > 0 || dry_run || count_row(
                changes@,
                Row::Clean,
            ) == 0 {
                AdoptStep::Stop
            } else {
                AdoptStep::Bring
            },
        ),
{
    if same_text(neighbour_branch, branch) {
        return Err(AdoptError::Itself { neighbour: owned(neighbour) });
    }
    if same_opt(base, Some(theirs)) {
        return Ok(AdoptStep::UpToDate);
    }
    let conflicts = count_of(changes, Row::Conflict);
    let clean = count_of(changes, Row::Clean);
    if conflicts > 0 || dry_run || clean == 0 {
        Ok(AdoptStep::Stop)
    } else {
        Ok(AdoptStep::Bring)
    }
}

/// `s` without every trailing `.yaml`.
pub open spec fn without_yaml(s: Seq<char>) -> Seq<char>
    decreases s.len(),
{
    if s.len() >= 5 && s.skip(s.len() - 5) == ".yaml"@ {
        without_yaml(s.take(s.len() - 5))
    } else {
        s
    }
}

/// The uuid of a bilink: the name of its file, without `.yaml`.
pub fn uuid_of(path: &str) -> (r: String)
    ensures
        r@ == without_yaml(match rsplit_once_char(path@, '/') {
            Some((_, last)) => last,
            None => path@,
        }),
{
    let p = chars_of(path);
    let mut s = match rsplit_once_char_of(p.as_slice(), '/') {
        Some((_, last)) => last,
        None => p,
    };
    let ext = chars_of(".yaml");
    proof {
        reveal_strlit(".yaml");
    }
    while s.len() >= 5 && crate::text::ends_with_of(s.as_slice(), ext.as_slice())
        invariant
            ext@ == ".yaml"@,
            without_yaml(s@) == without_yaml(match rsplit_once_char(path@, '/') {
                Some((_, last)) => last,
                None => path@,
            }),
        decreases s.len(),
    {
        let cut = s.len() - 5;
        let t = crate::text::slice_of(s.as_slice(), 0, cut);
        assert(t@ =~= s@.take(s@.len() - 5));
        proof {
            reveal_strlit(".yaml");
        }
        assert(".yaml"@.len() == 5);
        assert(s@.skip(s@.len() - 5) == ".yaml"@);
        assert(without_yaml(s@) == without_yaml(t@));
        s = t;
    }
    string_of(s.as_slice())
}

} // verus!
