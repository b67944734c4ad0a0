//! `bilinker restore-n1`: gives back the neighbourhood the cut to format 4
//! discarded. The migration held both hashes of each level and replaced them by
//! `declined`; now `link: unknown` can say "I have the content and not the
//! location", so the contract can be given back.
use vstd::prelude::*;

use crate::accept::{Accepted, N, Neighbourhood};
use crate::index::parse_u8;
use crate::text::{append, append_str, byte_prefix, byte_prefix_of, chars_of, same_text, string_of, trim, trim_of};

verus! {

/// The directory the cut left, beside the layer's `.bilink/`.
pub const DEFAULT_BACKUP_DIR: &'static str = ".bilink-formato-3";

/// Why a gap could not be filled. **Both are about an endpoint that did have a
/// contract in the backup.**
#[derive(Debug, Clone, Copy, PartialEq, Eq, Structural)]
pub enum Skipped {
    /// The fragment's `hash` moved: the backup is of another version of the
    /// signature.
    HashMoved,
    /// More than one `accepted`: there is no value to compare the hash against.
    Diverged,
}

impl Skipped {
    /// What the reason says.
    pub fn message(&self) -> (r: &'static str)
        ensures
            r@ == match *self {
                Skipped::HashMoved => "el hash del fragmento se movió: el backup es de otra versión"@,
                Skipped::Diverged => "más de un accepted: no hay un valor contra el cual comparar"@,
            },
    {
        match self {
            Skipped::HashMoved => "el hash del fragmento se movió: el backup es de otra versión",
            Skipped::Diverged => "más de un accepted: no hay un valor contra el cual comparar",
        }
    }
}

/// What happened in a layer.
pub struct Report {
    pub layer: String,
    /// `<short-uuid>.<N>` of each level given back.
    pub restored: Vec<String>,
    /// The gaps left, with their reason. **Named, not only counted.**
    pub skipped: Vec<(String, Skipped)>,
    /// The layer has no backup of the cut. Not an error.
    pub no_backup: bool,
}

impl Report {
    /// Whether anything was given back.
    pub fn touched(&self) -> (b: bool)
        ensures
            b == (self.restored@.len() > 0),
    {
        self.restored.len() > 0
    }
}

/// A level of the backup: the two folds, **without `link`**. That it has none is
/// why `unknown` is needed: the location is not there to bring.
pub struct Level {
    pub hash: String,
    pub hash_ast: Option<String>,
}

/// What becomes of one endpoint of a backed-up bilink.
#[derive(Debug, Clone, Copy, PartialEq, Eq, Structural)]
pub enum Restore {
    /// There is no gap: nothing to give back, and no skip either.
    Nothing,
    /// A gap that stays, and why.
    Skip(Skipped),
    /// The contract is given back.
    Give,
}

/// The decision over an endpoint: its key in the backup, the live entries of
/// `accepted`, and the backup's fragment hash. Only over a written `declined`, and
/// only with the same fragment.
pub open spec fn restore_decision(key: Seq<char>, live: Seq<Accepted>, backup_hash: Seq<char>) -> Restore {
    match parse_u8(trim(key)) {
        Some(n) => if n >= 2 {
            Restore::Nothing
        } else if live.len() > 1 {
            Restore::Skip(Skipped::Diverged)
        } else if live.len() == 0 {
            Restore::Nothing
        } else {
            match live[0].n {
                Some(N::Declined) => if live[0].hash@ != backup_hash {
                    Restore::Skip(Skipped::HashMoved)
                } else {
                    Restore::Give
                },
                _ => Restore::Nothing,
            }
        },
        None => Restore::Nothing,
    }
}

/// Where an endpoint is named in the report: the uuid's first eight bytes, a dot
/// and the endpoint.
pub open spec fn endpoint_label(uuid: Seq<char>, n: u8) -> Seq<char> {
    byte_prefix(uuid, 8) + "."@ + crate::refmsg::decimal(n as nat)
}

/// Gives back what can be given back of one endpoint (`key`, as the backup names
/// it) of the bilink `uuid`: over `live`, its live `accepted`, with `level`, the
/// backup's level 1, and `backup_hash`, the backup's fragment hash. The report
/// names what was given back or skipped; the answer says whether the bilink
/// changed.
pub fn restore_endpoint(
    report: &mut Report,
    uuid: &str,
    key: &str,
    backup_hash: &str,
    live: &mut Vec<Accepted>,
    level: Level,
) -> (changed: bool)
    requires
        crate::text::cut_is_clean(uuid@, 8),
    ensures
        final(report).layer == old(report).layer,
        final(report).no_backup == old(report).no_backup,
        changed == (restore_decision(key@, old(live)@, backup_hash@) == Restore::Give),
        match restore_decision(key@, old(live)@, backup_hash@) {
            Restore::Nothing => *final(live) == *old(live) && final(report).restored == old(report).restored
                && final(report).skipped == old(report).skipped,
            Restore::Skip(why) => *final(live) == *old(live) && final(report).restored == old(report).restored
                && final(report).skipped@.len() == old(report).skipped@.len() + 1
                && final(report).skipped@.drop_last() == old(report).skipped@
                && final(report).skipped@.last().1 == why
                && final(report).skipped@.last().0@ == endpoint_label(uuid@, parse_u8(trim(key@)).unwrap()),
            Restore::Give => final(report).skipped == old(report).skipped
                && final(report).restored@.len() == old(report).restored@.len() + 1
                && final(report).restored@.drop_last() == old(report).restored@
                && final(report).restored@.last()@ == endpoint_label(uuid@, parse_u8(trim(key@)).unwrap())
                && final(live)@.len() == 1
                && final(live)@[0].agree == old(live)@[0].agree
                && final(live)@[0].link == old(live)@[0].link
                && final(live)@[0].hash == old(live)@[0].hash
                && final(live)@[0].hash_ast == old(live)@[0].hash_ast
                && final(live)@[0].dimensions == old(live)@[0].dimensions
                && match final(live)@[0].n {
                    Some(N::Level1(nb)) => nb.link@ == "unknown"@ && nb.hash == level.hash && nb.hash_ast == level.hash_ast,
                    _ => false,
                },
        },
{
    let kv = chars_of(key);
    let kt = trim_of(kv.as_slice());
    let n = match crate::index::parse_u8_of(kt.as_slice()) {
        Some(n) => n,
        None => return false,
    };
    if n >= 2 {
        return false;
    }
    let uv = chars_of(uuid);
    let mut at = byte_prefix_of(uv.as_slice(), 8);
    append_str(&mut at, ".");
    let d = crate::refmsg::decimal_of(n as u64);
    append(&mut at, d.as_slice());
    let at = string_of(at.as_slice());
    if live.len() > 1 {
        report.skipped.push((at, Skipped::Diverged));
        return false;
    }
    if live.len() == 0 {
        return false;
    }
    let declined = match &live[0].n {
        Some(N::Declined) => true,
        _ => false,
    };
    if !declined {
        return false;
    }
    if !same_text(live[0].hash.as_str(), backup_hash) {
        report.skipped.push((at, Skipped::HashMoved));
        return false;
    }
    let mut acc = live.remove(0);
    acc.n = Some(N::Level1(Neighbourhood { link: crate::text::owned("unknown"), hash: level.hash, hash_ast: level.hash_ast }));
    live.insert(0, acc);
    report.restored.push(at);
    true
}


/// **Idempotent, by the conditions and not by a record**: once a contract was given
/// back the live `n` is no longer `declined`, so a second run over the same backup
/// gives nothing back and skips nothing.
pub proof fn lemma_second_run_is_a_no_op(key: Seq<char>, before: Seq<Accepted>, after: Seq<Accepted>, backup_hash: Seq<char>)
    requires
        restore_decision(key, before, backup_hash) == Restore::Give,
        after.len() == 1,
        after[0].n matches Some(N::Level1(_)),
    ensures
        restore_decision(key, after, backup_hash) == Restore::Nothing,
{
}

} // verus!
