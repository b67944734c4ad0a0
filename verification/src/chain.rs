//! `bilinker chain new`: a chain of bilinks across layers, or a direct link.
use vstd::prelude::*;

verus! {

/// What `chain new` created.
pub struct ChainNew {
    pub uuid: String,
    pub files: Vec<String>,
}

/// The declaration fields of a new chain. They are inert (no hash, no state sees
/// them) and go **only on the tips**, but `kind`, which classifies the whole
/// relation.
pub struct Declaration {
    pub kind: Option<String>,
    /// The `name` of each tip, in the order given.
    pub name: [Option<String>; 2],
    /// The generator that captured each tip: what `--as.N` said.
    pub as_name: [Option<String>; 2],
    /// The uuid of the remote bilink, when a tip is `repo`.
    pub uuid: Option<String>,
}

impl Default for Declaration {
    /// Nothing declared.
    fn default() -> (r: Declaration)
        ensures
            r.kind is None,
            r.name[0] is None && r.name[1] is None,
            r.as_name[0] is None && r.as_name[1] is None,
            r.uuid is None,
    {
        Declaration { kind: None, name: [None, None], as_name: [None, None], uuid: None }
    }
}

/// Why a chain could not be created.
#[derive(Debug, Clone, PartialEq, Eq)]
pub enum ChainError {
    /// Not exactly two tips.
    Tips,
    /// A `repo` tip without the remote bilink's uuid.
    NoRemoteUuid,
}

impl ChainError {
    /// What the error says.
    pub fn message(&self) -> (r: &'static str)
        ensures
            r@ == match *self {
                ChainError::Tips => "chain new requires exactly 2 --tip arguments"@,
                ChainError::NoRemoteUuid => "un tip `repo` necesita el uuid del bilink remoto: `--from-repo <alias>:<uuid>`"@,
            },
    {
        match self {
            ChainError::Tips => "chain new requires exactly 2 --tip arguments",
            ChainError::NoRemoteUuid => "un tip `repo` necesita el uuid del bilink remoto: `--from-repo <alias>:<uuid>`",
        }
    }
}

/// The uuid of a new chain. **The uuid is the rendezvous**: with a `repo` tip it is
/// not generated but taken from the bilink the provider published (`declared`);
/// otherwise it is the fresh one given. Exactly two tips are required.
pub fn chain_uuid(tips: usize, repo_tip: bool, declared: Option<String>, fresh: String) -> (r: Result<String, ChainError>)
    ensures
        tips != 2 ==> r == Err::<String, ChainError>(ChainError::Tips),
        tips == 2 && repo_tip ==> match declared {
            Some(u) => r == Ok::<String, ChainError>(u),
            None => r == Err::<String, ChainError>(ChainError::NoRemoteUuid),
        },
        tips == 2 && !repo_tip ==> r == Ok::<String, ChainError>(fresh),
{
    if tips != 2 {
        return Err(ChainError::Tips);
    }
    if repo_tip {
        match declared {
            Some(u) => Ok(u),
            None => Err(ChainError::NoRemoteUuid),
        }
    } else {
        Ok(fresh)
    }
}

/// Which tip declarations the bilink of the `i`-th of `n` layers carries: the first
/// carries tip 0's on its endpoint 0, the last tip 1's on its endpoint 1, and a
/// middle one none, since a stretch of the chain has no semantic role to label.
pub fn carries_tips(i: usize, n: usize) -> (r: (bool, bool))
    requires
        n >= 2,
        i < n,
    ensures
        r == (i == 0, i == n - 1),
{
    (i == 0, i == n - 1)
}

} // verus!
