//! The neighbourhood of a signature: the types it mentions, one hop away.
//!
//! **Bilinker does not go looking for them.** Resolving a type to its declaration
//! is a language server's work; what is here is the **port** through which the
//! locations come in. The port names nobody: whoever answers implements
//! [`Neighbours`].
use vstd::prelude::*;
use vstd::string::StringSliceAdditionalSpecFns;

use crate::grammar::{language_of, signatures};
use crate::text::same_text;

verus! {

/// Where a neighbour lives. `file` and `symbol` are **its identity**; the range is
/// raw.
#[derive(Debug, Clone, PartialEq, Eq)]
pub struct Location {
    /// Path relative to the layer's root.
    pub file: String,
    /// The name of the declared symbol.
    pub symbol: String,
    pub start: usize,
    pub end: usize,
}

/// Who resolves the neighbourhood. **It answers or it fails**: there is no third
/// value for "I could not look", and a provider that cannot answer returns `Err`.
/// It receives positions, each the start of a type identifier.
pub trait Neighbours {
    /// Whether there is someone to ask in this layer. Consulted before working.
    fn available(&self, layer: &str) -> bool;

    /// The declarations of the types at the positions of `file`.
    fn of(&self, layer: &str, file: &str, at: &[usize]) -> Result<Vec<Location>, String>;
}

/// How many endpoints of a run have a level 1 to resolve, and of which languages:
/// what the error says when there is nobody to ask.
#[derive(Debug, Default, Clone, PartialEq, Eq)]
pub struct Demand {
    pub endpoints: usize,
    /// The languages, in order and each once.
    pub languages: Vec<&'static str>,
}

/// The languages whose signatures a provider answers for, in order.
pub open spec fn served(java: bool, rust: bool, typescript: bool) -> Seq<Seq<char>> {
    (if java { seq!["java"@] } else { Seq::<Seq<char>>::empty() }) + (if rust {
        seq!["rust"@]
    } else {
        Seq::<Seq<char>>::empty()
    }) + (if typescript { seq!["typescript"@] } else { Seq::<Seq<char>>::empty() })
}

/// The language a file asks a provider for: `tsx` is a grammar, not a language —
/// the same server answers it; prose and data ask for nothing.
pub open spec fn demanded(file: Seq<char>) -> Option<Seq<char>> {
    let lang = language_of(file);
    if lang == "tsx"@ {
        Some("typescript"@)
    } else if signatures(lang).len() > 0 {
        Some(lang)
    } else {
        None
    }
}

/// The views of the languages.
pub open spec fn language_views(v: Seq<&'static str>) -> Seq<Seq<char>> {
    v.map_values(|s: &'static str| s@)
}

/// The three languages are different words.
proof fn lemma_languages_differ()
    ensures
        "java"@ != "rust"@,
        "java"@ != "typescript"@,
        "rust"@ != "typescript"@,
{
    reveal_strlit("java");
    reveal_strlit("rust");
    reveal_strlit("typescript");
    assert("java"@[0] != "rust"@[0]);
    assert("java"@[0] != "typescript"@[0]);
    assert("rust"@[0] != "typescript"@[0]);
}

/// What the served languages hold: exactly the flagged ones.
pub proof fn lemma_served(java: bool, rust: bool, typescript: bool)
    ensures
        forall|x: Seq<char>| #[trigger] served(java, rust, typescript).contains(x) <==> ((x
            == "java"@ && java) || (x == "rust"@ && rust) || (x == "typescript"@ && typescript)),
{
    reveal_strlit("java");
    reveal_strlit("rust");
    reveal_strlit("typescript");
    let s = served(java, rust, typescript);
    assert forall|x: Seq<char>| #[trigger] s.contains(x) implies ((x == "java"@ && java) || (x
        == "rust"@ && rust) || (x == "typescript"@ && typescript)) by {
        let k = choose|k: int| 0 <= k < s.len() && s[k] == x;
    }
    assert forall|x: Seq<char>| ((x == "java"@ && java) || (x == "rust"@ && rust) || (x
        == "typescript"@ && typescript)) implies #[trigger] s.contains(x) by {
        if x == "java"@ && java {
            assert(s[0] == x);
        } else if x == "rust"@ && rust {
            assert(s[if java { 1int } else { 0int }] == x);
        } else {
            assert(s[s.len() - 1] == x);
        }
    }
}

impl Demand {
    /// The languages as a set of flags, java, rust, typescript.
    pub open spec fn flags(&self) -> (bool, bool, bool) {
        let ls = language_views(self.languages@);
        (ls.contains("java"@), ls.contains("rust"@), ls.contains("typescript"@))
    }

    /// The languages are those a provider serves, in their order.
    pub open spec fn well_formed(&self) -> bool {
        language_views(self.languages@) == served(self.flags().0, self.flags().1, self.flags().2)
    }

    /// One more endpoint with a level 1, in `file`.
    pub fn add(&mut self, file: &str)
        requires
            old(self).endpoints < usize::MAX,
            old(self).well_formed(),
        ensures
            final(self).well_formed(),
            final(self).endpoints == old(self).endpoints + 1,
            language_views(final(self).languages@).to_set() == match demanded(file@) {
                Some(l) => language_views(old(self).languages@).to_set().insert(l),
                None => language_views(old(self).languages@).to_set(),
            },
    {
        self.endpoints = self.endpoints + 1;
        let lang = crate::grammar::language_for_file(file);
        let kinds = crate::grammar::signature_kinds(lang);
        let ghost before = language_views(self.languages@);
        let ghost (j0, r0, t0) = self.flags();
        proof {
            lemma_served(j0, r0, t0);
        }
        let mut java = false;
        let mut rust = false;
        let mut ts = false;
        let mut i: usize = 0;
        while i < self.languages.len()
            invariant
                i <= self.languages.len(),
                before == language_views(self.languages@),
                java == language_views(self.languages@).take(i as int).contains("java"@),
                rust == language_views(self.languages@).take(i as int).contains("rust"@),
                ts == language_views(self.languages@).take(i as int).contains("typescript"@),
            decreases self.languages.len() - i,
        {
            proof {
                lemma_languages_differ();
            }
            let l = self.languages[i];
            let ghost prev = language_views(self.languages@).take(i as int);
            let ghost next = language_views(self.languages@).take(i as int + 1);
            assert(next =~= prev.push(l@));
            assert(forall|x: Seq<char>| #[trigger] next.contains(x) <==> prev.contains(x) || x == l@) by {
                assert forall|x: Seq<char>| #[trigger] next.contains(x) implies prev.contains(x) || x == l@ by {
                    let k = choose|k: int| 0 <= k < next.len() && next[k] == x;
                    if k < prev.len() {
                        assert(prev[k] == next[k]);
                    }
                }
                assert forall|x: Seq<char>| prev.contains(x) || x == l@ implies #[trigger] next.contains(x) by {
                    if prev.contains(x) {
                        let k = choose|k: int| 0 <= k < prev.len() && prev[k] == x;
                        assert(next[k] == x);
                    } else {
                        assert(next[prev.len() as int] == x);
                    }
                }
            }
            if same_text(l, "java") {
                java = true;
            } else if same_text(l, "rust") {
                rust = true;
            } else if same_text(l, "typescript") {
                ts = true;
            }
            i = i + 1;
        }
        assert(language_views(self.languages@).take(i as int) =~= language_views(self.languages@));
        proof {
            reveal_strlit("java");
            reveal_strlit("rust");
            reveal_strlit("typescript");
            reveal_strlit("tsx");
        }
        assert(java == j0 && rust == r0 && ts == t0);
        if same_text(lang, "tsx") {
            ts = true;
        } else if kinds.len() > 0 {
            if same_text(lang, "java") {
                java = true;
            } else if same_text(lang, "rust") {
                rust = true;
            } else {
                assert(lang@ == "typescript"@);
                ts = true;
            }
        }
        let mut out: Vec<&'static str> = Vec::new();
        if java {
            out.push("java");
        }
        if rust {
            out.push("rust");
        }
        if ts {
            out.push("typescript");
        }
        proof {
            lemma_languages_differ();
            assert(language_views(out@) =~= served(java, rust, ts));
            lemma_served(java, rust, ts);
            assert(language_views(out@).to_set() =~= match demanded(file@) {
                Some(l) => before.to_set().insert(l),
                None => before.to_set(),
            });
        }
        self.languages = out;
    }

    /// Whether no endpoint has a level 1 to resolve.
    pub fn is_empty(&self) -> (b: bool)
        ensures
            b == (self.endpoints == 0),
    {
        self.endpoints == 0
    }
}

/// There is level 1 to resolve and nobody to ask.
#[derive(Debug, Clone, PartialEq, Eq)]
pub struct NoProvider(pub Demand);

/// The provider failed while it was asked: the command did not finish.
#[derive(Debug, Clone, PartialEq, Eq)]
pub struct ProviderFailed {
    /// What the provider said.
    pub cause: String,
}

/// What can be known of a fragment's neighbourhood **before asking anyone**: three
/// values and not a boolean, which is what tells "there is none" from "I could not".
#[derive(Debug, Clone, PartialEq, Eq)]
pub enum Reach {
    /// There is no neighbourhood: prose, YAML, a language without types.
    Absent,
    /// There is, and where to ask is known: the first byte of each type identifier.
    At(Vec<usize>),
    /// There is, and **it cannot be reached from this fragment**.
    Unreachable { what: String },
}

/// Fails before working when there is level 1 to resolve and the provider is not
/// there. Without a provider — asking nobody — or without demand there is nothing
/// to require, and the provider is asked only when there is demand.
pub fn require<N: Neighbours>(nb: Option<&N>, layer: &str, demand: Demand) -> (r: Result<(), NoProvider>)
    ensures
        nb is None || demand.endpoints == 0 ==> r is Ok,
        r matches Err(NoProvider(d)) ==> d == demand && nb is Some && demand.endpoints > 0,
{
    let answer = match nb {
        Some(p) => if demand.is_empty() {
            None
        } else {
            Some(p.available(layer))
        },
        None => None,
    };
    requirement(demand, answer)
}

/// What requiring a provider gives, by what the provider answered when it was asked
/// whether it is there (`None`: it was not asked). It fails, with the demand, only
/// where there is demand and the provider said it is not there.
pub fn requirement(demand: Demand, available: Option<bool>) -> (r: Result<(), NoProvider>)
    ensures
        available == Some(false) && demand.endpoints > 0 ==> r == Err::<(), NoProvider>(NoProvider(demand)),
        !(available == Some(false) && demand.endpoints > 0) ==> r is Ok,
{
    match available {
        Some(false) => if demand.is_empty() {
            Ok(())
        } else {
            Err(NoProvider(demand))
        },
        _ => Ok(()),
    }
}

/// Asks the provider, and marks its failure as [`ProviderFailed`], keeping what it
/// said.
pub fn ask<N: Neighbours>(p: &N, layer: &str, file: &str, at: &[usize]) -> (r: Result<Vec<Location>, ProviderFailed>)
{
    answered(p.of(layer, file, at))
}

/// What asking gives, by what the provider answered: its locations, or its failure
/// marked as [`ProviderFailed`] with what it said.
pub fn answered(answer: Result<Vec<Location>, String>) -> (r: Result<Vec<Location>, ProviderFailed>)
    ensures
        match answer {
            Ok(v) => r == Ok::<_, ProviderFailed>(v),
            Err(cause) => r == Err::<Vec<Location>, _>(ProviderFailed { cause }),
        },
{
    match answer {
        Ok(v) => Ok(v),
        Err(cause) => Err(ProviderFailed { cause }),
    }
}

impl NoProvider {
    /// What the error says.
    pub fn message(&self) -> (r: String)
        ensures
            r@ == crate::refmsg::decimal(self.0.endpoints as nat)
                + " endpoint(s) tienen nivel 1 y no hay daemon en esta capa."@,
    {
        let d = crate::refmsg::decimal_of(self.0.endpoints as u64);
        let mut out = d;
        crate::text::append_str(&mut out, " endpoint(s) tienen nivel 1 y no hay daemon en esta capa.");
        crate::text::string_of(out.as_slice())
    }
}


/// Line and column, **1-based**, of a byte offset: what `capture` takes. Counted over
/// bytes, up to the end of the source.
pub fn line_col_1based(source: &str, byte: usize) -> (r: (usize, usize))
    requires
        source.spec_bytes().len() < usize::MAX,
    ensures
        ({
            let b = source.spec_bytes();
            let end = if byte <= b.len() { byte as int } else { b.len() as int };
            let p = b.take(end);
            &&& r.0 == crate::get::newlines(p) + 1
            &&& r.1 == match crate::impact::last_newline(p) {
                Some(i) => end - i,
                None => end + 1,
            }
        }),
{
    let b = source.as_bytes();
    let end = if byte <= b.len() {
        byte
    } else {
        b.len()
    };
    let mut lines: usize = 0;
    let mut last: Option<usize> = None;
    let mut i: usize = 0;
    while i < end
        invariant
            i <= end,
            end <= b@.len(),
            b@.len() < usize::MAX,
            b@ == source.spec_bytes(),
            lines <= i,
            lines == crate::get::newlines(b@.take(i as int)),
            match last {
                Some(k) => crate::impact::last_newline(b@.take(i as int)) == Some(k as int) && k < i,
                None => crate::impact::last_newline(b@.take(i as int)) is None,
            },
        decreases end - i,
    {
        assert(b@.take(i as int + 1).drop_last() =~= b@.take(i as int));
        if b[i] == 10u8 {
            lines = lines + 1;
            last = Some(i);
        }
        i = i + 1;
    }
    let col = match last {
        Some(k) => end - k,
        None => end + 1,
    };
    (lines + 1, col)
}
} // verus!
