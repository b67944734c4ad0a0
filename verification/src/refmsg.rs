//! The message of a commit on the ref **is** the command that produced it.
//!
//! A closed vocabulary, with every argument checked against its type. A message is
//! parsed and never run: what comes out is a structured command, never a command
//! line. Without the `Bilinker-Version` trailer a message predates the grammar and
//! is not an error ([`read`]); with it, it has to parse ([`parse`]).
use vstd::prelude::*;

use crate::text::{lemma_one_line_clean, append, append_str, byte_prefix, byte_prefix_of, chars_of, cut_is_clean, ends_with, ends_with_of, find, find_of, join, lacks, lemma_ascii_byte_prefix, lemma_find_first, lemma_find_none, lemma_lines_split, lemma_rfind_last, lemma_trim_fixed, lemma_utf8_len_nonneg_prefix, lemma_words_gap, lemma_words_run, lemma_words_single, lines, lines_of, no_ws, occurs_at, one_line, one_line_of, owned, rsplit_once_char, rsplit_once_char_of, same, same_str, split_once, split_once_of, string_of, strip_cr, strip_prefix, strip_prefix_of, to_vec, trim, trim_end, trim_end_of, trim_of, utf8_len, utf8_width_of, views, words, words_of, ws};

verus! {

/// The version of this crate, written in every message.
pub const VERSION: &'static str = "0.1.0";

/// The canonical command of a commit on the ref.
#[derive(Debug, Clone, PartialEq)]
pub enum RefCommand {
    /// Brings the project's tip in. The commit goes abbreviated on purpose: it is
    /// the commit's second parent, so here it is a reading aid.
    Absorb { project: String },
    /// The ref is born, inheriting or not.
    Track { branch: String },
    /// A decision, per endpoint.
    Accept { place: bool, content: bool, uuid: String, n: u8 },
    /// A decision, per repointed `link`.
    Apply { uuid: String, n: u8, capture: String },
    /// Brings everything a neighbour branch decided.
    Adopt { branch: String },
    /// Brings what another clone accepted on this same branch.
    Pull { remote: String },
}

/// What a command says, as character sequences.
pub enum CommandView {
    Absorb { project: Seq<char> },
    Track { branch: Seq<char> },
    Accept { place: bool, content: bool, uuid: Seq<char>, n: u8 },
    Apply { uuid: Seq<char>, n: u8, capture: Seq<char> },
    Adopt { branch: Seq<char> },
    Pull { remote: Seq<char> },
}

impl View for RefCommand {
    type V = CommandView;

    open spec fn view(&self) -> CommandView {
        match self {
            RefCommand::Absorb { project } => CommandView::Absorb { project: project@ },
            RefCommand::Track { branch } => CommandView::Track { branch: branch@ },
            RefCommand::Accept { place, content, uuid, n } => CommandView::Accept {
                place: *place,
                content: *content,
                uuid: uuid@,
                n: *n,
            },
            RefCommand::Apply { uuid, n, capture } => CommandView::Apply {
                uuid: uuid@,
                n: *n,
                capture: capture@,
            },
            RefCommand::Adopt { branch } => CommandView::Adopt { branch: branch@ },
            RefCommand::Pull { remote } => CommandView::Pull { remote: remote@ },
        }
    }
}

/// A whole message: command, optional prose, and the trailers.
#[derive(Debug, Clone, PartialEq)]
pub struct RefMessage {
    pub command: RefCommand,
    /// What goes after `: ` on the first line. For whoever reads.
    pub prose: Option<String>,
    /// What the person typed. Audit, not verification.
    pub invocation: Option<String>,
    pub version: String,
}

/// What a message says, as character sequences.
pub struct MessageView {
    pub command: CommandView,
    pub prose: Option<Seq<char>>,
    pub invocation: Option<Seq<char>>,
    pub version: Seq<char>,
}

/// The view of an optional string.
pub open spec fn opt_view(o: Option<String>) -> Option<Seq<char>> {
    match o {
        Some(s) => Some(s@),
        None => None,
    }
}

impl View for RefMessage {
    type V = MessageView;

    open spec fn view(&self) -> MessageView {
        MessageView {
            command: self.command@,
            prose: opt_view(self.prose),
            invocation: opt_view(self.invocation),
            version: self.version@,
        }
    }
}

/// What the message of an already written commit says.
#[derive(Debug, Clone, PartialEq)]
pub enum Read {
    /// Without `Bilinker-Version`: a commit from before the grammar. Not an error.
    PreGrammar,
    Parsed(RefMessage),
}

/// What a read message says.
pub enum ReadView {
    PreGrammar,
    Parsed(MessageView),
}

impl View for Read {
    type V = ReadView;

    open spec fn view(&self) -> ReadView {
        match self {
            Read::PreGrammar => ReadView::PreGrammar,
            Read::Parsed(m) => ReadView::Parsed(m@),
        }
    }
}

/// Why a message does not parse.
#[derive(Debug, Clone, PartialEq)]
pub enum RefMsgError {
    /// A trailer appears more than once: two answers to the same question.
    TwoTrailers { key: String },
    /// No `Bilinker-Version` trailer, where one is required.
    NoVersion,
    /// The first line has no verb.
    Empty,
    /// `accept` with a flag other than `--place` or `--content`.
    BadFlag { flag: String },
    /// A verb of the vocabulary with the wrong arguments.
    WrongArgs { verb: String, args: String },
    /// A verb outside the vocabulary.
    UnknownVerb { verb: String },
    /// Not of the form `<uuid>.<N>`.
    NotEndpoint { text: String },
    /// An endpoint index other than `0` or `1`.
    BadIndex { text: String },
    NotUuid { text: String },
    NotCapture { text: String },
    NotCommit { text: String },
    NotBranch { text: String },
}

/// Why a message does not parse, as character sequences.
pub enum ErrorView {
    TwoTrailers { key: Seq<char> },
    NoVersion,
    Empty,
    BadFlag { flag: Seq<char> },
    WrongArgs { verb: Seq<char>, args: Seq<char> },
    UnknownVerb { verb: Seq<char> },
    NotEndpoint { text: Seq<char> },
    BadIndex { text: Seq<char> },
    NotUuid { text: Seq<char> },
    NotCapture { text: Seq<char> },
    NotCommit { text: Seq<char> },
    NotBranch { text: Seq<char> },
}

impl View for RefMsgError {
    type V = ErrorView;

    open spec fn view(&self) -> ErrorView {
        match self {
            RefMsgError::TwoTrailers { key } => ErrorView::TwoTrailers { key: key@ },
            RefMsgError::NoVersion => ErrorView::NoVersion,
            RefMsgError::Empty => ErrorView::Empty,
            RefMsgError::BadFlag { flag } => ErrorView::BadFlag { flag: flag@ },
            RefMsgError::WrongArgs { verb, args } => ErrorView::WrongArgs {
                verb: verb@,
                args: args@,
            },
            RefMsgError::UnknownVerb { verb } => ErrorView::UnknownVerb { verb: verb@ },
            RefMsgError::NotEndpoint { text } => ErrorView::NotEndpoint { text: text@ },
            RefMsgError::BadIndex { text } => ErrorView::BadIndex { text: text@ },
            RefMsgError::NotUuid { text } => ErrorView::NotUuid { text: text@ },
            RefMsgError::NotCapture { text } => ErrorView::NotCapture { text: text@ },
            RefMsgError::NotCommit { text } => ErrorView::NotCommit { text: text@ },
            RefMsgError::NotBranch { text } => ErrorView::NotBranch { text: text@ },
        }
    }
}

/// What an error says, as the person reads it.
pub open spec fn error_text(e: ErrorView) -> Seq<char> {
    match e {
        ErrorView::TwoTrailers { key } => "el mensaje tiene más de un trailer "@ + key,
        ErrorView::NoVersion => "el mensaje no tiene el trailer Bilinker-Version"@,
        ErrorView::Empty => "el mensaje está vacío"@,
        ErrorView::BadFlag { flag } => "`accept` no acepta la flag '"@ + flag + "'"@,
        ErrorView::WrongArgs { verb, args } => "`"@ + verb + "` no lleva los argumentos '"@ + args
            + "'"@,
        ErrorView::UnknownVerb { verb } => "'"@ + verb
            + "' no es un verbo del vocabulario de la ref (absorb, track, accept, apply, adopt, pull)"@,
        ErrorView::NotEndpoint { text } => "'"@ + text + "' no tiene la forma <uuid>.<N>"@,
        ErrorView::BadIndex { text } => "'"@ + text + "' no es un índice de endpoint: son 0 o 1"@,
        ErrorView::NotUuid { text } => "'"@ + text + "' no es un uuid de bilink"@,
        ErrorView::NotCapture { text } => "'"@ + text + "' no es un id de capture"@,
        ErrorView::NotCommit { text } => "'"@ + text + "' no es un commit"@,
        ErrorView::NotBranch { text } => "'"@ + text + "' no es un nombre de rama"@,
    }
}

impl RefMsgError {
    /// What the error says, as the person reads it.
    pub fn message(&self) -> (r: String)
        ensures
            r@ == error_text(self@),
    {
        let mut out: Vec<char> = Vec::new();
        match self {
            RefMsgError::TwoTrailers { key } => {
                append_str(&mut out, "el mensaje tiene más de un trailer ");
                append_str(&mut out, key.as_str());
            },
            RefMsgError::NoVersion => {
                append_str(&mut out, "el mensaje no tiene el trailer Bilinker-Version");
            },
            RefMsgError::Empty => {
                append_str(&mut out, "el mensaje está vacío");
            },
            RefMsgError::BadFlag { flag } => {
                append_str(&mut out, "`accept` no acepta la flag '");
                append_str(&mut out, flag.as_str());
                append_str(&mut out, "'");
            },
            RefMsgError::WrongArgs { verb, args } => {
                append_str(&mut out, "`");
                append_str(&mut out, verb.as_str());
                append_str(&mut out, "` no lleva los argumentos '");
                append_str(&mut out, args.as_str());
                append_str(&mut out, "'");
            },
            RefMsgError::UnknownVerb { verb } => {
                append_str(&mut out, "'");
                append_str(&mut out, verb.as_str());
                append_str(
                    &mut out,
                    "' no es un verbo del vocabulario de la ref (absorb, track, accept, apply, adopt, pull)",
                );
            },
            RefMsgError::NotEndpoint { text } => {
                append_str(&mut out, "'");
                append_str(&mut out, text.as_str());
                append_str(&mut out, "' no tiene la forma <uuid>.<N>");
            },
            RefMsgError::BadIndex { text } => {
                append_str(&mut out, "'");
                append_str(&mut out, text.as_str());
                append_str(&mut out, "' no es un índice de endpoint: son 0 o 1");
            },
            RefMsgError::NotUuid { text } => {
                append_str(&mut out, "'");
                append_str(&mut out, text.as_str());
                append_str(&mut out, "' no es un uuid de bilink");
            },
            RefMsgError::NotCapture { text } => {
                append_str(&mut out, "'");
                append_str(&mut out, text.as_str());
                append_str(&mut out, "' no es un id de capture");
            },
            RefMsgError::NotCommit { text } => {
                append_str(&mut out, "'");
                append_str(&mut out, text.as_str());
                append_str(&mut out, "' no es un commit");
            },
            RefMsgError::NotBranch { text } => {
                append_str(&mut out, "'");
                append_str(&mut out, text.as_str());
                append_str(&mut out, "' no es un nombre de rama");
            },
        }
        assert(out@ =~= error_text(self@));
        string_of(out.as_slice())
    }
}

// ─── the meaning of writing ─────────────────────────────────────────────────

/// The decimal digit `d`.
pub open spec fn digit(d: nat) -> char {
    if d == 0 {
        '0'
    } else if d == 1 {
        '1'
    } else if d == 2 {
        '2'
    } else if d == 3 {
        '3'
    } else if d == 4 {
        '4'
    } else if d == 5 {
        '5'
    } else if d == 6 {
        '6'
    } else if d == 7 {
        '7'
    } else if d == 8 {
        '8'
    } else {
        '9'
    }
}

/// `n` written in decimal, as `format!("{n}")` writes it.
pub open spec fn decimal(n: nat) -> Seq<char>
    decreases n,
{
    if n < 10 {
        seq![digit(n)]
    } else {
        decimal(n / 10).push(digit(n % 10))
    }
}

/// The flag `accept` carries for the dimensions it approves.
pub open spec fn accept_flag(place: bool, content: bool) -> Seq<char> {
    if place && !content {
        " --place"@
    } else if !place && content {
        " --content"@
    } else {
        seq![]
    }
}

/// The first line of a command, without prose.
pub open spec fn command_line(c: CommandView) -> Seq<char> {
    match c {
        CommandView::Absorb { project } => "absorb "@ + byte_prefix(project, 12),
        CommandView::Track { branch } => "track "@ + branch,
        CommandView::Accept { place, content, uuid, n } => "accept"@ + accept_flag(place, content)
            + " "@ + uuid + "."@ + decimal(n as nat),
        CommandView::Apply { uuid, n, capture } => "apply "@ + uuid + "."@ + decimal(n as nat)
            + " "@ + capture,
        CommandView::Adopt { branch } => "adopt "@ + branch,
        CommandView::Pull { remote } => "pull "@ + remote,
    }
}

/// What writing the command line asks of its arguments: the abbreviated commit has
/// to end between characters.
pub open spec fn line_writable(c: CommandView) -> bool {
    match c {
        CommandView::Absorb { project } => cut_is_clean(project, 12),
        _ => true,
    }
}

/// A whole message, rendered.
pub open spec fn message_text(m: MessageView) -> Seq<char> {
    command_line(m.command) + (match m.prose {
        Some(p) => ": "@ + p,
        None => seq![],
    }) + "\n\n"@ + (match m.invocation {
        Some(i) => "Invocation: "@ + i + "\n"@,
        None => seq![],
    }) + "Bilinker-Version: "@ + m.version + "\n"@
}

// ─── the meaning of reading ─────────────────────────────────────────────────

/// The values of the lines that carry `prefix`, in order.
pub open spec fn trailer_hits(ls: Seq<Seq<char>>, prefix: Seq<char>) -> Seq<Seq<char>>
    decreases ls.len(),
{
    if ls.len() == 0 {
        seq![]
    } else {
        trailer_hits(ls.drop_last(), prefix) + match strip_prefix(ls.last(), prefix) {
            Some(v) => seq![v],
            None => seq![],
        }
    }
}

/// The value of the trailer `key`, and the error when it appears twice.
pub open spec fn trailer_value(message: Seq<char>, key: Seq<char>) -> Result<
    Option<Seq<char>>,
    ErrorView,
> {
    let hits = trailer_hits(lines(message), key + ": "@);
    if hits.len() >= 2 {
        Err(ErrorView::TwoTrailers { key })
    } else if hits.len() == 1 {
        Ok(Some(trim(hits[0])))
    } else {
        Ok(None)
    }
}

pub open spec fn hexdigit(c: char) -> bool {
    ('0' <= c && c <= '9') || ('a' <= c && c <= 'f') || ('A' <= c && c <= 'F')
}

pub open spec fn ascii_control(c: char) -> bool {
    c <= '\x1F' || c == '\x7F'
}

pub open spec fn all_hex(s: Seq<char>) -> bool {
    forall|i: int| 0 <= i < s.len() ==> hexdigit(#[trigger] s[i])
}

/// A bilink uuid: eight characters or more, hexadecimal or `-`, with some digit.
pub open spec fn uuid_ok(s: Seq<char>) -> bool {
    &&& s.len() >= 8
    &&& forall|i: int| 0 <= i < s.len() ==> hexdigit(#[trigger] s[i]) || s[i] == '-'
    &&& exists|i: int| 0 <= i < s.len() && hexdigit(#[trigger] s[i])
}

/// A capture id: the hash of its place, 32 hexadecimal characters.
pub open spec fn capture_ok(s: Seq<char>) -> bool {
    s.len() == 32 && all_hex(s)
}

/// A commit, whole or abbreviated: never fewer than 7 hexadecimal characters.
pub open spec fn commit_ok(s: Seq<char>) -> bool {
    7 <= s.len() <= 40 && all_hex(s)
}

/// The characters a branch name may not hold.
pub open spec fn forbidden(c: char) -> bool {
    c == ' ' || c == '\t' || c == '~' || c == '^' || c == ':' || c == '?' || c == '*' || c
        == '[' || c == '\\' || c == '"' || c == '\'' || c == '`' || c == '$' || c == '&' || c
        == ';' || c == '|' || c == '<' || c == '>' || c == '(' || c == ')' || c == '{' || c
        == '}' || c == '!' || c == '#' || c == '\n' || c == '\r'
}

/// A branch name, by the rules of `git check-ref-format` that matter here. It is the
/// check that keeps a message from being a shell command.
pub open spec fn branch_ok(s: Seq<char>) -> bool {
    &&& s.len() > 0
    &&& utf8_len(s) <= 255
    &&& find(s, ".."@) is None
    &&& find(s, "//"@) is None
    &&& find(s, "@{"@) is None
    &&& s[0] != '/'
    &&& s[0] != '-'
    &&& s.last() != '/'
    &&& !ends_with(s, ".lock"@)
    &&& s.last() != '.'
    &&& forall|i: int| 0 <= i < s.len() ==> !ascii_control(#[trigger] s[i]) && !forbidden(s[i])
}

pub open spec fn check_uuid(s: Seq<char>) -> Result<Seq<char>, ErrorView> {
    if uuid_ok(s) {
        Ok(s)
    } else {
        Err(ErrorView::NotUuid { text: s })
    }
}

pub open spec fn check_capture(s: Seq<char>) -> Result<Seq<char>, ErrorView> {
    if capture_ok(s) {
        Ok(s)
    } else {
        Err(ErrorView::NotCapture { text: s })
    }
}

pub open spec fn check_commit(s: Seq<char>) -> Result<Seq<char>, ErrorView> {
    if commit_ok(s) {
        Ok(s)
    } else {
        Err(ErrorView::NotCommit { text: s })
    }
}

pub open spec fn check_branch(s: Seq<char>) -> Result<Seq<char>, ErrorView> {
    if branch_ok(s) {
        Ok(s)
    } else {
        Err(ErrorView::NotBranch { text: s })
    }
}

/// `<uuid>.<N>`: a uuid and an index that is `0` or `1`, never anything else.
pub open spec fn check_endpoint(s: Seq<char>) -> Result<(Seq<char>, u8), ErrorView> {
    match rsplit_once_char(s, '.') {
        None => Err(ErrorView::NotEndpoint { text: s }),
        Some((u, n)) => if n != "0"@ && n != "1"@ {
            Err(ErrorView::BadIndex { text: n })
        } else {
            match check_uuid(u) {
                Ok(u) => Ok((u, if n == "0"@ { 0u8 } else { 1u8 })),
                Err(e) => Err(e),
            }
        },
    }
}

/// The verbs of the vocabulary.
pub open spec fn known_verb(v: Seq<char>) -> bool {
    v == "absorb"@ || v == "track"@ || v == "adopt"@ || v == "pull"@ || v == "accept"@ || v
        == "apply"@
}

/// The command a verb and its arguments name.
pub open spec fn command_of(verb: Seq<char>, args: Seq<Seq<char>>) -> Result<
    CommandView,
    ErrorView,
> {
    if verb == "absorb"@ && args.len() == 1 {
        match check_commit(args[0]) {
            Ok(c) => Ok(CommandView::Absorb { project: c }),
            Err(e) => Err(e),
        }
    } else if verb == "track"@ && args.len() == 1 {
        match check_branch(args[0]) {
            Ok(b) => Ok(CommandView::Track { branch: b }),
            Err(e) => Err(e),
        }
    } else if verb == "adopt"@ && args.len() == 1 {
        match check_branch(args[0]) {
            Ok(b) => Ok(CommandView::Adopt { branch: b }),
            Err(e) => Err(e),
        }
    } else if verb == "pull"@ && args.len() == 1 {
        match check_branch(args[0]) {
            Ok(b) => Ok(CommandView::Pull { remote: b }),
            Err(e) => Err(e),
        }
    } else if verb == "accept"@ && args.len() == 1 {
        match check_endpoint(args[0]) {
            Ok((u, n)) => Ok(CommandView::Accept { place: true, content: true, uuid: u, n }),
            Err(e) => Err(e),
        }
    } else if verb == "accept"@ && args.len() == 2 {
        if args[0] != "--place"@ && args[0] != "--content"@ {
            Err(ErrorView::BadFlag { flag: args[0] })
        } else {
            match check_endpoint(args[1]) {
                Ok((u, n)) => Ok(
                    CommandView::Accept {
                        place: args[0] == "--place"@,
                        content: args[0] == "--content"@,
                        uuid: u,
                        n,
                    },
                ),
                Err(e) => Err(e),
            }
        }
    } else if verb == "apply"@ && args.len() == 2 {
        match check_endpoint(args[0]) {
            Ok((u, n)) => match check_capture(args[1]) {
                Ok(c) => Ok(CommandView::Apply { uuid: u, n, capture: c }),
                Err(e) => Err(e),
            },
            Err(e) => Err(e),
        }
    } else if known_verb(verb) {
        Err(ErrorView::WrongArgs { verb, args: join(args, seq![' ']) })
    } else {
        Err(ErrorView::UnknownVerb { verb })
    }
}

/// The first line, without trailing whitespace.
pub open spec fn subject_of(message: Seq<char>) -> Seq<char> {
    let ls = lines(message);
    trim_end(
        if ls.len() > 0 {
            ls[0]
        } else {
            seq![]
        },
    )
}

/// The head of the subject — the command — and the prose after `: `.
pub open spec fn head_and_prose(subject: Seq<char>) -> (Seq<char>, Option<Seq<char>>) {
    match split_once(subject, ": "@) {
        Some((h, p)) => (h, Some(trim(p))),
        None => (subject, None),
    }
}

/// A message read strictly: without the trailer, with an unknown verb or with an
/// argument of the wrong type, it fails.
pub open spec fn parse_text(message: Seq<char>) -> Result<MessageView, ErrorView> {
    match trailer_value(message, "Bilinker-Version"@) {
        Err(e) => Err(e),
        Ok(None) => Err(ErrorView::NoVersion),
        Ok(Some(version)) => match trailer_value(message, "Invocation"@) {
            Err(e) => Err(e),
            Ok(invocation) => {
                let (head, prose) = head_and_prose(subject_of(message));
                let ws = words(head);
                if ws.len() == 0 {
                    Err(ErrorView::Empty)
                } else {
                    match command_of(ws[0], ws.drop_first()) {
                        Ok(c) => Ok(MessageView { command: c, prose, invocation, version }),
                        Err(e) => Err(e),
                    }
                }
            },
        },
    }
}

/// A message read tolerating the history from before the grammar.
pub open spec fn read_text(message: Seq<char>) -> Result<ReadView, ErrorView> {
    match trailer_value(message, "Bilinker-Version"@) {
        Err(e) => Err(e),
        Ok(None) => Ok(ReadView::PreGrammar),
        Ok(Some(_)) => match parse_text(message) {
            Ok(m) => Ok(ReadView::Parsed(m)),
            Err(e) => Err(e),
        },
    }
}

// ─── writing ────────────────────────────────────────────────────────────────

/// `n` written in decimal.
pub fn decimal_of(n: u64) -> (r: Vec<char>)
    ensures
        r@ == decimal(n as nat),
    decreases n,
{
    let d = n % 10;
    let c = if d == 0 {
        '0'
    } else if d == 1 {
        '1'
    } else if d == 2 {
        '2'
    } else if d == 3 {
        '3'
    } else if d == 4 {
        '4'
    } else if d == 5 {
        '5'
    } else if d == 6 {
        '6'
    } else if d == 7 {
        '7'
    } else if d == 8 {
        '8'
    } else {
        '9'
    };
    if n < 10 {
        let r = vec![c];
        assert(r@ =~= decimal(n as nat));
        r
    } else {
        let mut r = decimal_of(n / 10);
        r.push(c);
        r
    }
}

impl RefCommand {
    /// The canonical first line, without prose.
    pub fn line(&self) -> (r: String)
        requires
            line_writable(self@),
        ensures
            r@ == command_line(self@),
    {
        let v = self.line_chars();
        string_of(v.as_slice())
    }

    fn line_chars(&self) -> (r: Vec<char>)
        requires
            line_writable(self@),
        ensures
            r@ == command_line(self@),
    {
        let mut out: Vec<char> = Vec::new();
        match self {
            RefCommand::Absorb { project } => {
                append_str(&mut out, "absorb ");
                let p = chars_of(project.as_str());
                let a = byte_prefix_of(p.as_slice(), 12);
                append(&mut out, a.as_slice());
            },
            RefCommand::Track { branch } => {
                append_str(&mut out, "track ");
                append_str(&mut out, branch.as_str());
            },
            RefCommand::Accept { place, content, uuid, n } => {
                append_str(&mut out, "accept");
                if *place && !*content {
                    append_str(&mut out, " --place");
                } else if !*place && *content {
                    append_str(&mut out, " --content");
                }
                assert(out@ =~= "accept"@ + accept_flag(*place, *content));
                append_str(&mut out, " ");
                append_str(&mut out, uuid.as_str());
                append_str(&mut out, ".");
                let d = decimal_of(*n as u64);
                append(&mut out, d.as_slice());
            },
            RefCommand::Apply { uuid, n, capture } => {
                append_str(&mut out, "apply ");
                append_str(&mut out, uuid.as_str());
                append_str(&mut out, ".");
                let d = decimal_of(*n as u64);
                append(&mut out, d.as_slice());
                append_str(&mut out, " ");
                append_str(&mut out, capture.as_str());
            },
            RefCommand::Adopt { branch } => {
                append_str(&mut out, "adopt ");
                append_str(&mut out, branch.as_str());
            },
            RefCommand::Pull { remote } => {
                append_str(&mut out, "pull ");
                append_str(&mut out, remote.as_str());
            },
        }
        out
    }
}

impl RefMessage {
    /// A message for `command`, with this crate's version and nothing else.
    pub fn new(command: RefCommand) -> (r: RefMessage)
        ensures
            r@ == (MessageView { command: command@, prose: None, invocation: None, version: VERSION@ }),
    {
        RefMessage { command, prose: None, invocation: None, version: owned(VERSION) }
    }

    /// The prose, flattened to one line.
    pub fn with_prose(self, prose: &str) -> (r: RefMessage)
        ensures
            r@ == (MessageView { prose: Some(one_line(prose@)), ..self@ }),
    {
        let p = chars_of(prose);
        let flat = one_line_of(p.as_slice());
        RefMessage { prose: Some(string_of(flat.as_slice())), ..self }
    }

    /// What the person typed, flattened to one line: an argument with a line break
    /// inside could forge a trailer nobody wrote.
    pub fn with_invocation(self, argv: Vec<String>) -> (r: RefMessage)
        ensures
            r@ == (MessageView {
                invocation: Some(one_line(join(argv@.map_values(|a: String| a@), seq![' ']))),
                ..self@
            }),
    {
        let mut joined: Vec<char> = Vec::new();
        let mut i: usize = 0;
        let ghost parts = argv@.map_values(|a: String| a@);
        while i < argv.len()
            invariant
                i <= argv.len(),
                parts == argv@.map_values(|a: String| a@),
                joined@ == join(parts.take(i as int), seq![' ']),
            decreases argv.len() - i,
        {
            let ghost prev = parts.take(i as int);
            let ghost next = parts.take(i as int + 1);
            assert(next.drop_last() =~= prev);
            if i > 0 {
                joined.push(' ');
            }
            append_str(&mut joined, argv[i].as_str());
            assert(joined@ =~= join(next, seq![' ']));
            i = i + 1;
        }
        assert(parts.take(i as int) =~= parts);
        let flat = one_line_of(joined.as_slice());
        RefMessage { invocation: Some(string_of(flat.as_slice())), ..self }
    }

    /// The message, as it is written on the commit.
    pub fn render(&self) -> (r: String)
        requires
            line_writable(self.command@),
        ensures
            r@ == message_text(self@),
    {
        let mut out = self.command.line_chars();
        match &self.prose {
            Some(p) => {
                append_str(&mut out, ": ");
                append_str(&mut out, p.as_str());
            },
            None => {},
        }
        append_str(&mut out, "\n\n");
        match &self.invocation {
            Some(i) => {
                append_str(&mut out, "Invocation: ");
                append_str(&mut out, i.as_str());
                append_str(&mut out, "\n");
            },
            None => {},
        }
        append_str(&mut out, "Bilinker-Version: ");
        append_str(&mut out, self.version.as_str());
        append_str(&mut out, "\n");
        assert(out@ =~= message_text(self@));
        string_of(out.as_slice())
    }
}

// ─── reading ────────────────────────────────────────────────────────────────

/// The value of the trailer `key`, and the error when it appears twice.
fn trailer(lines: &Vec<Vec<char>>, key: &str) -> (r: Result<Option<Vec<char>>, RefMsgError>)
    ensures
        match r {
            Ok(Some(v)) => Ok(Some(v@)),
            Ok(None) => Ok(None),
            Err(e) => Err(e@),
        } == ({
            let hits = trailer_hits(views(lines@), key@ + ": "@);
            if hits.len() >= 2 {
                Err(ErrorView::TwoTrailers { key: key@ })
            } else if hits.len() == 1 {
                Ok(Some(trim(hits[0])))
            } else {
                Ok::<Option<Seq<char>>, ErrorView>(None)
            }
        }),
{
    let mut prefix = chars_of(key);
    append_str(&mut prefix, ": ");
    let ghost ls = views(lines@);
    let mut first: Option<Vec<char>> = None;
    let mut count: usize = 0;
    let mut i: usize = 0;
    while i < lines.len()
        invariant
            i <= lines.len(),
            ls == views(lines@),
            prefix@ == key@ + ": "@,
            count <= 1,
            count == trailer_hits(ls.take(i as int), prefix@).len(),
            count == 0 ==> first is None,
            count == 1 ==> (first matches Some(f) && f@ == trailer_hits(ls.take(i as int), prefix@)[0]),
        decreases lines.len() - i,
    {
        let ghost prev = ls.take(i as int);
        let ghost next = ls.take(i as int + 1);
        assert(next.drop_last() =~= prev);
        assert(next.last() == lines@[i as int]@);
        match strip_prefix_of(lines[i].as_slice(), prefix.as_slice()) {
            Some(v) => {
                if count == 1 {
                    proof {
                        lemma_trailer_hits_grow(ls, prefix@, i as int + 1);
                    }
                    return Err(RefMsgError::TwoTrailers { key: owned(key) });
                }
                assert(trailer_hits(next, prefix@) =~= seq![v@]);
                first = Some(v);
                count = 1;
            },
            None => {
                assert(trailer_hits(next, prefix@) =~= trailer_hits(prev, prefix@));
            },
        }
        i = i + 1;
    }
    assert(ls.take(i as int) =~= ls);
    match first {
        Some(f) => {
            let t = trim_of(f.as_slice());
            Ok(Some(t))
        },
        None => Ok(None),
    }
}

/// Reading more lines never loses a hit.
pub proof fn lemma_trailer_hits_grow(ls: Seq<Seq<char>>, prefix: Seq<char>, k: int)
    requires
        0 <= k <= ls.len(),
    ensures
        trailer_hits(ls.take(k), prefix).len() <= trailer_hits(ls, prefix).len(),
        trailer_hits(ls.take(k), prefix).len() > 0 ==> trailer_hits(ls, prefix)[0]
            == trailer_hits(ls.take(k), prefix)[0],
    decreases ls.len() - k,
{
    if k < ls.len() {
        lemma_trailer_hits_grow(ls, prefix, k + 1);
        assert(ls.take(k + 1).drop_last() =~= ls.take(k));
    } else {
        assert(ls.take(k) =~= ls);
    }
}

/// Whether `c` is an ASCII hexadecimal digit.
fn is_hexdigit(c: char) -> (b: bool)
    ensures
        b == hexdigit(c),
{
    ('0' <= c && c <= '9') || ('a' <= c && c <= 'f') || ('A' <= c && c <= 'F')
}

fn all_hex_of(s: &[char]) -> (b: bool)
    ensures
        b == all_hex(s@),
{
    let mut i: usize = 0;
    while i < s.len()
        invariant
            i <= s.len(),
            forall|j: int| 0 <= j < i ==> hexdigit(#[trigger] s@[j]),
        decreases s.len() - i,
    {
        if !is_hexdigit(s[i]) {
            return false;
        }
        i = i + 1;
    }
    true
}

fn uuid(s: &[char]) -> (r: Result<Vec<char>, RefMsgError>)
    ensures
        match r {
            Ok(v) => Ok(v@),
            Err(e) => Err(e@),
        } == check_uuid(s@),
{
    let mut ok = s.len() >= 8;
    let mut any = false;
    let mut i: usize = 0;
    while i < s.len()
        invariant
            i <= s.len(),
            ok == (s@.len() >= 8 && forall|j: int|
                0 <= j < i ==> hexdigit(#[trigger] s@[j]) || s@[j] == '-'),
            any == exists|j: int| 0 <= j < i && hexdigit(#[trigger] s@[j]),
        decreases s.len() - i,
    {
        let h = is_hexdigit(s[i]);
        if !h && s[i] != '-' {
            ok = false;
        }
        if h {
            any = true;
            assert(hexdigit(s@[i as int]));
        }
        i = i + 1;
    }
    if ok && any {
        Ok(to_vec(s))
    } else {
        Err(RefMsgError::NotUuid { text: string_of(s) })
    }
}

fn capture_id(s: &[char]) -> (r: Result<Vec<char>, RefMsgError>)
    ensures
        match r {
            Ok(v) => Ok(v@),
            Err(e) => Err(e@),
        } == check_capture(s@),
{
    if s.len() == 32 && all_hex_of(s) {
        Ok(to_vec(s))
    } else {
        Err(RefMsgError::NotCapture { text: string_of(s) })
    }
}

fn commit(s: &[char]) -> (r: Result<Vec<char>, RefMsgError>)
    ensures
        match r {
            Ok(v) => Ok(v@),
            Err(e) => Err(e@),
        } == check_commit(s@),
{
    if 7 <= s.len() && s.len() <= 40 && all_hex_of(s) {
        Ok(to_vec(s))
    } else {
        Err(RefMsgError::NotCommit { text: string_of(s) })
    }
}

/// Whether `s` takes more than `limit` bytes in UTF-8.
fn utf8_longer_than(s: &[char], limit: usize) -> (b: bool)
    ensures
        b == (utf8_len(s@) > limit),
{
    let mut used: usize = 0;
    let mut i: usize = 0;
    while i < s.len()
        invariant
            i <= s.len(),
            used <= limit,
            used == utf8_len(s@.take(i as int)),
        decreases s.len() - i,
    {
        let w = utf8_width_of(s[i]);
        assert(s@.take(i as int + 1).drop_last() =~= s@.take(i as int));
        if w > limit - used {
            proof {
                lemma_utf8_len_nonneg_prefix(s@, i as int + 1);
            }
            return true;
        }
        used = used + w;
        i = i + 1;
    }
    assert(s@.take(i as int) =~= s@);
    false
}

fn is_forbidden(c: char) -> (b: bool)
    ensures
        b == (ascii_control(c) || forbidden(c)),
{
    c <= '\x1F' || c == '\x7F' || c == ' ' || c == '\t' || c == '~' || c == '^' || c == ':' || c
        == '?' || c == '*' || c == '[' || c == '\\' || c == '"' || c == '\'' || c == '`' || c
        == '$' || c == '&' || c == ';' || c == '|' || c == '<' || c == '>' || c == '(' || c
        == ')' || c == '{' || c == '}' || c == '!' || c == '#' || c == '\n' || c == '\r'
}

fn branch(s: &[char]) -> (r: Result<Vec<char>, RefMsgError>)
    ensures
        match r {
            Ok(v) => Ok(v@),
            Err(e) => Err(e@),
        } == check_branch(s@),
{
    let dots = chars_of("..");
    let slashes = chars_of("//");
    let reflog = chars_of("@{");
    let lock = chars_of(".lock");
    let mut bad = s.len() == 0 || utf8_longer_than(s, 255) || find_of(s, dots.as_slice()).is_some()
        || find_of(s, slashes.as_slice()).is_some() || find_of(s, reflog.as_slice()).is_some();
    if !bad {
        bad = s[0] == '/' || s[0] == '-' || s[s.len() - 1] == '/' || ends_with_of(
            s,
            lock.as_slice(),
        ) || s[s.len() - 1] == '.';
    }
    let mut i: usize = 0;
    let mut clean = true;
    while i < s.len()
        invariant
            i <= s.len(),
            clean == forall|j: int|
                0 <= j < i ==> !ascii_control(#[trigger] s@[j]) && !forbidden(s@[j]),
        decreases s.len() - i,
    {
        if is_forbidden(s[i]) {
            clean = false;
        }
        i = i + 1;
    }
    if bad || !clean {
        Err(RefMsgError::NotBranch { text: string_of(s) })
    } else {
        Ok(to_vec(s))
    }
}

fn endpoint(s: &[char]) -> (r: Result<(Vec<char>, u8), RefMsgError>)
    ensures
        match r {
            Ok((u, n)) => Ok((u@, n)),
            Err(e) => Err(e@),
        } == check_endpoint(s@),
{
    match rsplit_once_char_of(s, '.') {
        None => Err(RefMsgError::NotEndpoint { text: string_of(s) }),
        Some((u, n)) => {
            let zero = same_str(n.as_slice(), "0");
            let one = same_str(n.as_slice(), "1");
            if !zero && !one {
                return Err(RefMsgError::BadIndex { text: string_of(n.as_slice()) });
            }
            match uuid(u.as_slice()) {
                Ok(u) => Ok((u, if zero { 0u8 } else { 1u8 })),
                Err(e) => Err(e),
            }
        },
    }
}

/// The arguments joined by single spaces, for an error message.
fn joined_args(args: &Vec<Vec<char>>, from: usize) -> (r: String)
    requires
        from <= args.len(),
    ensures
        r@ == join(views(args@).skip(from as int), seq![' ']),
{
    let ghost parts = views(args@).skip(from as int);
    let mut out: Vec<char> = Vec::new();
    let mut i = from;
    while i < args.len()
        invariant
            from <= i <= args.len(),
            parts == views(args@).skip(from as int),
            out@ == join(parts.take(i - from), seq![' ']),
        decreases args.len() - i,
    {
        let ghost prev = parts.take(i - from);
        let ghost next = parts.take(i - from + 1);
        assert(next.drop_last() =~= prev);
        assert(next.last() == args@[i as int]@);
        if i > from {
            out.push(' ');
        }
        append(&mut out, args[i].as_slice());
        assert(out@ =~= join(next, seq![' ']));
        i = i + 1;
    }
    assert(parts.take(i - from) =~= parts);
    string_of(out.as_slice())
}

fn command(words: &Vec<Vec<char>>) -> (r: Result<RefCommand, RefMsgError>)
    requires
        words.len() >= 1,
    ensures
        match r {
            Ok(c) => Ok(c@),
            Err(e) => Err(e@),
        } == command_of(views(words@)[0], views(words@).drop_first()),
{
    let ghost ws = views(words@);
    let ghost args = ws.drop_first();
    assert(args.len() == words.len() - 1);
    let verb = &words[0];
    let v = verb.as_slice();
    let nargs = words.len() - 1;
    if nargs >= 1 {
        assert(args[0] == words@[1]@);
    }
    if nargs >= 2 {
        assert(args[1] == words@[2]@);
    }
    let is_absorb = same_str(v, "absorb");
    let is_track = same_str(v, "track");
    let is_adopt = same_str(v, "adopt");
    let is_pull = same_str(v, "pull");
    let is_accept = same_str(v, "accept");
    let is_apply = same_str(v, "apply");
    if is_absorb && nargs == 1 {
        match commit(words[1].as_slice()) {
            Ok(c) => Ok(RefCommand::Absorb { project: string_of(c.as_slice()) }),
            Err(e) => Err(e),
        }
    } else if is_track && nargs == 1 {
        match branch(words[1].as_slice()) {
            Ok(b) => Ok(RefCommand::Track { branch: string_of(b.as_slice()) }),
            Err(e) => Err(e),
        }
    } else if is_adopt && nargs == 1 {
        match branch(words[1].as_slice()) {
            Ok(b) => Ok(RefCommand::Adopt { branch: string_of(b.as_slice()) }),
            Err(e) => Err(e),
        }
    } else if is_pull && nargs == 1 {
        match branch(words[1].as_slice()) {
            Ok(b) => Ok(RefCommand::Pull { remote: string_of(b.as_slice()) }),
            Err(e) => Err(e),
        }
    } else if is_accept && nargs == 1 {
        match endpoint(words[1].as_slice()) {
            Ok((u, n)) => Ok(
                RefCommand::Accept { place: true, content: true, uuid: string_of(u.as_slice()), n },
            ),
            Err(e) => Err(e),
        }
    } else if is_accept && nargs == 2 {
        let place = same_str(words[1].as_slice(), "--place");
        let content = same_str(words[1].as_slice(), "--content");
        if !place && !content {
            return Err(RefMsgError::BadFlag { flag: string_of(words[1].as_slice()) });
        }
        match endpoint(words[2].as_slice()) {
            Ok((u, n)) => Ok(
                RefCommand::Accept { place, content, uuid: string_of(u.as_slice()), n },
            ),
            Err(e) => Err(e),
        }
    } else if is_apply && nargs == 2 {
        match endpoint(words[1].as_slice()) {
            Ok((u, n)) => match capture_id(words[2].as_slice()) {
                Ok(c) => Ok(
                    RefCommand::Apply {
                        uuid: string_of(u.as_slice()),
                        n,
                        capture: string_of(c.as_slice()),
                    },
                ),
                Err(e) => Err(e),
            },
            Err(e) => Err(e),
        }
    } else if is_absorb || is_track || is_adopt || is_pull || is_accept || is_apply {
        Err(RefMsgError::WrongArgs { verb: string_of(v), args: joined_args(words, 1) })
    } else {
        Err(RefMsgError::UnknownVerb { verb: string_of(v) })
    }
}

/// Reads a commit message, tolerating the history from before the grammar.
pub fn read(message: &str) -> (r: Result<Read, RefMsgError>)
    ensures
        match r {
            Ok(x) => Ok(x@),
            Err(e) => Err(e@),
        } == read_text(message@),
{
    let m = chars_of(message);
    let ls = lines_of(m.as_slice());
    match trailer(&ls, "Bilinker-Version") {
        Err(e) => Err(e),
        Ok(None) => Ok(Read::PreGrammar),
        Ok(Some(_)) => match parse(message) {
            Ok(p) => Ok(Read::Parsed(p)),
            Err(e) => Err(e),
        },
    }
}

/// Parses a message strictly: without the trailer, with an unknown verb or with an
/// argument of the wrong type, it fails.
pub fn parse(message: &str) -> (r: Result<RefMessage, RefMsgError>)
    ensures
        match r {
            Ok(m) => Ok(m@),
            Err(e) => Err(e@),
        } == parse_text(message@),
{
    let m = chars_of(message);
    let ls = lines_of(m.as_slice());
    let version = match trailer(&ls, "Bilinker-Version") {
        Err(e) => return Err(e),
        Ok(None) => return Err(RefMsgError::NoVersion),
        Ok(Some(v)) => v,
    };
    let invocation = match trailer(&ls, "Invocation") {
        Err(e) => return Err(e),
        Ok(i) => i,
    };
    let first: Vec<char> = if ls.len() > 0 {
        to_vec(ls[0].as_slice())
    } else {
        Vec::new()
    };
    assert(ls.len() > 0 ==> first@ == views(ls@)[0]);
    let subject = trim_end_of(first.as_slice());
    assert(subject@ == subject_of(message@));
    let sep = chars_of(": ");
    let (head, prose) = match split_once_of(subject.as_slice(), sep.as_slice()) {
        Some((h, p)) => (h, Some(trim_of(p.as_slice()))),
        None => (subject, None),
    };
    let words = words_of(head.as_slice());
    if words.len() == 0 {
        return Err(RefMsgError::Empty);
    }
    let command = match command(&words) {
        Ok(c) => c,
        Err(e) => return Err(e),
    };
    let prose = match prose {
        Some(p) => Some(string_of(p.as_slice())),
        None => None,
    };
    let invocation = match invocation {
        Some(i) => Some(string_of(i.as_slice())),
        None => None,
    };
    Ok(RefMessage { command, prose, invocation, version: string_of(version.as_slice()) })
}

} // verus!

verus! {

// ─── laws ───────────────────────────────────────────────────────────────────

/// The arguments of a command are ones that `parse` accepts back, none holds
/// whitespace, and an `accept` approves at least one dimension.
pub open spec fn command_faithful(c: CommandView) -> bool {
    match c {
        CommandView::Absorb { project } => project.len() >= 7 && all_hex(project),
        CommandView::Track { branch } => branch_ok(branch) && no_ws(branch),
        CommandView::Accept { place, content, uuid, n } => (place || content) && uuid_ok(uuid) && n
            <= 1,
        CommandView::Apply { uuid, n, capture } => uuid_ok(uuid) && n <= 1 && capture_ok(capture),
        CommandView::Adopt { branch } => branch_ok(branch) && no_ws(branch),
        CommandView::Pull { remote } => branch_ok(remote) && no_ws(remote),
    }
}

/// What a command reads back as: an absorption keeps the first twelve bytes of its
/// commit, which is all the line carries.
pub open spec fn command_as_read(c: CommandView) -> CommandView {
    match c {
        CommandView::Absorb { project } => CommandView::Absorb { project: byte_prefix(project, 12) },
        _ => c,
    }
}

/// A value that fits on one line of a message as it is: no line break, and no
/// whitespace at either end.
pub open spec fn clean_line(s: Seq<char>) -> bool {
    (s.len() > 0 ==> !ws(s[0]) && !ws(s.last())) && lacks(s, '\n')
}

/// A message that reads back as it was written.
pub open spec fn message_faithful(m: MessageView) -> bool {
    &&& command_faithful(m.command)
    &&& match m.prose {
        Some(p) => p.len() > 0 && clean_line(p),
        None => true,
    }
    &&& match m.invocation {
        Some(i) => clean_line(i),
        None => true,
    }
    &&& clean_line(m.version)
}

/// The words the first line of a command is made of.
pub open spec fn line_words(c: CommandView) -> Seq<Seq<char>> {
    match c {
        CommandView::Absorb { project } => seq!["absorb"@, byte_prefix(project, 12)],
        CommandView::Track { branch } => seq!["track"@, branch],
        CommandView::Accept { place, content, uuid, n } => if place && !content {
            seq!["accept"@, "--place"@, uuid + "."@ + decimal(n as nat)]
        } else if !place && content {
            seq!["accept"@, "--content"@, uuid + "."@ + decimal(n as nat)]
        } else {
            seq!["accept"@, uuid + "."@ + decimal(n as nat)]
        },
        CommandView::Apply { uuid, n, capture } => seq![
            "apply"@,
            uuid + "."@ + decimal(n as nat),
            capture,
        ],
        CommandView::Adopt { branch } => seq!["adopt"@, branch],
        CommandView::Pull { remote } => seq!["pull"@, remote],
    }
}

proof fn reveal_vocabulary()
    ensures
        "absorb"@ == seq!['a', 'b', 's', 'o', 'r', 'b'],
        "track"@ == seq!['t', 'r', 'a', 'c', 'k'],
        "accept"@ == seq!['a', 'c', 'c', 'e', 'p', 't'],
        "apply"@ == seq!['a', 'p', 'p', 'l', 'y'],
        "adopt"@ == seq!['a', 'd', 'o', 'p', 't'],
        "pull"@ == seq!['p', 'u', 'l', 'l'],
        "--place"@ == seq!['-', '-', 'p', 'l', 'a', 'c', 'e'],
        "--content"@ == seq!['-', '-', 'c', 'o', 'n', 't', 'e', 'n', 't'],
        "."@ == seq!['.'],
        " "@ == seq![' '],
        "0"@ == seq!['0'],
        "1"@ == seq!['1'],
        " --place"@ == seq![' '] + "--place"@,
        " --content"@ == seq![' '] + "--content"@,
        "absorb "@ == "absorb"@ + seq![' '],
        "track "@ == "track"@ + seq![' '],
        "apply "@ == "apply"@ + seq![' '],
        "adopt "@ == "adopt"@ + seq![' '],
        "pull "@ == "pull"@ + seq![' '],
        ": "@ == seq![':', ' '],
        "\n"@ == seq!['\n'],
        "\n\n"@ == seq!['\n', '\n'],
{
    reveal_strlit("absorb");
    reveal_strlit("track");
    reveal_strlit("accept");
    reveal_strlit("apply");
    reveal_strlit("adopt");
    reveal_strlit("pull");
    reveal_strlit("--place");
    reveal_strlit("--content");
    reveal_strlit(".");
    reveal_strlit(" ");
    reveal_strlit("0");
    reveal_strlit("1");
    reveal_strlit(" --place");
    reveal_strlit(" --content");
    reveal_strlit("absorb ");
    reveal_strlit("track ");
    reveal_strlit("apply ");
    reveal_strlit("adopt ");
    reveal_strlit("pull ");
    reveal_strlit(": ");
    reveal_strlit("\n");
    reveal_strlit("\n\n");
    assert(" --place"@ =~= seq![' '] + "--place"@);
    assert(" --content"@ =~= seq![' '] + "--content"@);
    assert("absorb "@ =~= "absorb"@ + seq![' ']);
    assert("track "@ =~= "track"@ + seq![' ']);
    assert("apply "@ =~= "apply"@ + seq![' ']);
    assert("adopt "@ =~= "adopt"@ + seq![' ']);
    assert("pull "@ =~= "pull"@ + seq![' ']);
}

/// An endpoint argument, `<uuid>.<N>`, reads back as its uuid and index.
proof fn lemma_endpoint_back(uuid: Seq<char>, n: u8)
    requires
        uuid_ok(uuid),
        n <= 1,
    ensures
        check_endpoint(uuid + "."@ + decimal(n as nat)) == Ok::<(Seq<char>, u8), ErrorView>(
            (uuid, n),
        ),
        no_ws(uuid + "."@ + decimal(n as nat)),
        lacks(uuid + "."@ + decimal(n as nat), ':'),
        lacks(uuid + "."@ + decimal(n as nat), '\n'),
        (uuid + "."@ + decimal(n as nat)).len() > 0,
{
    reveal_vocabulary();
    let d = decimal(n as nat);
    assert(d == seq![digit(n as nat)]);
    let e = uuid + "."@ + d;
    assert(e =~= uuid + seq!['.'] + d);
    lemma_rfind_last(uuid, '.', d);
    assert(e.take(uuid.len() as int) =~= uuid);
    assert(e.skip(uuid.len() as int + 1) =~= d);
    if n == 0 {
        assert(d =~= "0"@);
    } else {
        assert(d =~= "1"@);
        assert(d != "0"@);
    }
    assert forall|i: int| 0 <= i < e.len() implies !ws(#[trigger] e[i]) && e[i] != ':' && e[i]
        != '\n' by {
        if i < uuid.len() {
            assert(e[i] == uuid[i]);
            assert(hexdigit(uuid[i]) || uuid[i] == '-');
        } else if i == uuid.len() {
            assert(e[i] == '.');
        } else {
            assert(e[i] == d[i - uuid.len() - 1]);
        }
    }
}

/// The facts about a command's first line that reading it back rests on.
proof fn lemma_line_facts(c: CommandView)
    requires
        command_faithful(c),
    ensures
        command_line(c).len() > 0,
        lacks(command_line(c), '\n'),
        lacks(command_line(c), ':'),
        !ws(command_line(c).last()),
        command_line(c)[0] == 'a' || command_line(c)[0] == 't' || command_line(c)[0] == 'p',
        words(command_line(c)) == line_words(c),
        command_of(line_words(c)[0], line_words(c).drop_first()) == Ok::<
            CommandView,
            ErrorView,
        >(command_as_read(c)),
{
    match c {
        CommandView::Absorb { .. } => lemma_line_absorb(c),
        CommandView::Track { .. } => lemma_line_track(c),
        CommandView::Adopt { .. } => lemma_line_adopt(c),
        CommandView::Pull { .. } => lemma_line_pull(c),
        CommandView::Accept { .. } => lemma_line_accept(c),
        CommandView::Apply { .. } => lemma_line_apply(c),
    }
}

#[verifier::rlimit(100)]
#[verifier::spinoff_prover]
proof fn lemma_line_absorb(c: CommandView)
    requires
        command_faithful(c),
        c is Absorb,
    ensures
        command_line(c).len() > 0,
        lacks(command_line(c), '\n'),
        lacks(command_line(c), ':'),
        !ws(command_line(c).last()),
        command_line(c)[0] == 'a' || command_line(c)[0] == 't' || command_line(c)[0] == 'p',
        words(command_line(c)) == line_words(c),
        command_of(line_words(c)[0], line_words(c).drop_first()) == Ok::<
            CommandView,
            ErrorView,
        >(command_as_read(c)),
{
    reveal_vocabulary();
    let l = command_line(c);
    match c {
        CommandView::Absorb { project } => {
        lemma_ascii_byte_prefix(project, 12);
        let a = byte_prefix(project, 12);
        assert(a.len() >= 7 && a.len() <= 12);
        assert forall|i: int| 0 <= i < a.len() implies hexdigit(#[trigger] a[i]) by {
            assert(a[i] == project[i]);
        }
        assert(l =~= "absorb"@ + (seq![' '] + a));
        lemma_words_run("absorb"@, seq![' '] + a, seq![]);
        assert(seq![] + "absorb"@ =~= "absorb"@);
        lemma_words_gap(' ', a, "absorb"@);
        lemma_words_single(a);
        assert(words(l) =~= line_words(c));
        assert(line_words(c).drop_first() =~= seq![a]);
        assert forall|i: int| 0 <= i < l.len() implies #[trigger] l[i] != '\n' && l[i] != ':' by {
            if i >= 7 {
                assert(l[i] == a[i - 7]);
            }
        }
        },
        _ => {},
    }
}

#[verifier::rlimit(40)]
proof fn lemma_line_track(c: CommandView)
    requires
        command_faithful(c),
        c is Track,
    ensures
        command_line(c).len() > 0,
        lacks(command_line(c), '\n'),
        lacks(command_line(c), ':'),
        !ws(command_line(c).last()),
        command_line(c)[0] == 'a' || command_line(c)[0] == 't' || command_line(c)[0] == 'p',
        words(command_line(c)) == line_words(c),
        command_of(line_words(c)[0], line_words(c).drop_first()) == Ok::<
            CommandView,
            ErrorView,
        >(command_as_read(c)),
{
    reveal_vocabulary();
    let l = command_line(c);
    match c {
        CommandView::Track { branch } => {
        assert(l =~= "track"@ + (seq![' '] + branch));
        lemma_words_run("track"@, seq![' '] + branch, seq![]);
        assert(seq![] + "track"@ =~= "track"@);
        lemma_words_gap(' ', branch, "track"@);
        lemma_words_single(branch);
        assert(words(l) =~= line_words(c));
        assert(line_words(c).drop_first() =~= seq![branch]);
        assert("track"@ != "absorb"@);
        assert forall|i: int| 0 <= i < l.len() implies #[trigger] l[i] != '\n' && l[i] != ':' by {
            if i >= 6 {
                assert(l[i] == branch[i - 6]);
            }
        }
        },
        _ => {},
    }
}

#[verifier::rlimit(40)]
proof fn lemma_line_adopt(c: CommandView)
    requires
        command_faithful(c),
        c is Adopt,
    ensures
        command_line(c).len() > 0,
        lacks(command_line(c), '\n'),
        lacks(command_line(c), ':'),
        !ws(command_line(c).last()),
        command_line(c)[0] == 'a' || command_line(c)[0] == 't' || command_line(c)[0] == 'p',
        words(command_line(c)) == line_words(c),
        command_of(line_words(c)[0], line_words(c).drop_first()) == Ok::<
            CommandView,
            ErrorView,
        >(command_as_read(c)),
{
    reveal_vocabulary();
    let l = command_line(c);
    match c {
        CommandView::Adopt { branch } => {
        assert(l =~= "adopt"@ + (seq![' '] + branch));
        lemma_words_run("adopt"@, seq![' '] + branch, seq![]);
        assert(seq![] + "adopt"@ =~= "adopt"@);
        lemma_words_gap(' ', branch, "adopt"@);
        lemma_words_single(branch);
        assert(words(l) =~= line_words(c));
        assert(line_words(c).drop_first() =~= seq![branch]);
        assert("adopt"@ != "absorb"@);
        assert("adopt"@[1] != "track"@[1]);
        assert("adopt"@ != "track"@);
        assert forall|i: int| 0 <= i < l.len() implies #[trigger] l[i] != '\n' && l[i] != ':' by {
            if i >= 6 {
                assert(l[i] == branch[i - 6]);
            }
        }
        },
        _ => {},
    }
}

#[verifier::rlimit(40)]
proof fn lemma_line_pull(c: CommandView)
    requires
        command_faithful(c),
        c is Pull,
    ensures
        command_line(c).len() > 0,
        lacks(command_line(c), '\n'),
        lacks(command_line(c), ':'),
        !ws(command_line(c).last()),
        command_line(c)[0] == 'a' || command_line(c)[0] == 't' || command_line(c)[0] == 'p',
        words(command_line(c)) == line_words(c),
        command_of(line_words(c)[0], line_words(c).drop_first()) == Ok::<
            CommandView,
            ErrorView,
        >(command_as_read(c)),
{
    reveal_vocabulary();
    let l = command_line(c);
    match c {
        CommandView::Pull { remote } => {
        assert(l =~= "pull"@ + (seq![' '] + remote));
        lemma_words_run("pull"@, seq![' '] + remote, seq![]);
        assert(seq![] + "pull"@ =~= "pull"@);
        lemma_words_gap(' ', remote, "pull"@);
        lemma_words_single(remote);
        assert(words(l) =~= line_words(c));
        assert(line_words(c).drop_first() =~= seq![remote]);
        assert("pull"@ != "absorb"@);
        assert("pull"@ != "track"@);
        assert("pull"@ != "adopt"@);
        assert forall|i: int| 0 <= i < l.len() implies #[trigger] l[i] != '\n' && l[i] != ':' by {
            if i >= 5 {
                assert(l[i] == remote[i - 5]);
            }
        }
        },
        _ => {},
    }
}

/// Two words, one space apart.
proof fn lemma_words_two(a: Seq<char>, b: Seq<char>)
    requires
        no_ws(a),
        a.len() > 0,
        no_ws(b),
        b.len() > 0,
    ensures
        words(a + (seq![' '] + b)) == seq![a, b],
{
    lemma_words_run(a, seq![' '] + b, seq![]);
    assert(seq![] + a =~= a);
    lemma_words_gap(' ', b, a);
    lemma_words_single(b);
    assert(seq![a] + seq![b] =~= seq![a, b]);
}

/// Three words, one space apart.
proof fn lemma_words_three(a: Seq<char>, b: Seq<char>, c: Seq<char>)
    requires
        no_ws(a),
        a.len() > 0,
        no_ws(b),
        b.len() > 0,
        no_ws(c),
        c.len() > 0,
    ensures
        words(a + (seq![' '] + (b + (seq![' '] + c)))) == seq![a, b, c],
{
    lemma_words_run(a, seq![' '] + (b + (seq![' '] + c)), seq![]);
    assert(seq![] + a =~= a);
    lemma_words_gap(' ', b + (seq![' '] + c), a);
    lemma_words_run(b, seq![' '] + c, seq![]);
    assert(seq![] + b =~= b);
    lemma_words_gap(' ', c, b);
    lemma_words_single(c);
    assert(seq![a] + (seq![b] + seq![c]) =~= seq![a, b, c]);
}

proof fn lemma_vocabulary_words()
    ensures
        no_ws("accept"@),
        no_ws("apply"@),
        no_ws("--place"@),
        no_ws("--content"@),
        "accept"@ != "absorb"@,
        "accept"@ != "track"@,
        "accept"@ != "adopt"@,
        "accept"@ != "pull"@,
        "apply"@ != "absorb"@,
        "apply"@ != "track"@,
        "apply"@ != "adopt"@,
        "apply"@ != "pull"@,
        "apply"@ != "accept"@,
        "--place"@ != "--content"@,
{
    reveal_vocabulary();
    assert("accept"@[1] != "absorb"@[1]);
    assert("apply"@[1] != "adopt"@[1]);
}

proof fn lemma_command_of_accept(c: CommandView)
    requires
        command_faithful(c),
        c is Accept,
    ensures
        command_of(line_words(c)[0], line_words(c).drop_first()) == Ok::<
            CommandView,
            ErrorView,
        >(command_as_read(c)),
{
    lemma_vocabulary_words();
    match c {
        CommandView::Accept { place, content, uuid, n } => {
            lemma_endpoint_back(uuid, n);
            let e = uuid + "."@ + decimal(n as nat);
            let ws = line_words(c);
            if place && !content {
                assert(ws.drop_first() =~= seq!["--place"@, e]);
            } else if !place && content {
                assert(ws.drop_first() =~= seq!["--content"@, e]);
            } else {
                assert(ws.drop_first() =~= seq![e]);
            }
        },
        _ => {},
    }
}

/// A line made of a head without line breaks or colons, and a tail word.
proof fn lemma_head_tail(head: Seq<char>, e: Seq<char>)
    requires
        lacks(head, '\n'),
        lacks(head, ':'),
        lacks(e, '\n'),
        lacks(e, ':'),
        no_ws(e),
        e.len() > 0,
    ensures
        lacks(head + e, '\n'),
        lacks(head + e, ':'),
        !ws((head + e).last()),
{
    let l = head + e;
    assert forall|i: int| 0 <= i < l.len() implies #[trigger] l[i] != '\n' && l[i] != ':' by {
        if i >= head.len() {
            assert(l[i] == e[i - head.len()]);
        }
    }
    assert(l.last() == e[e.len() - 1]);
}

proof fn lemma_words_accept(c: CommandView)
    requires
        command_faithful(c),
        c is Accept,
    ensures
        command_line(c).len() > 0,
        lacks(command_line(c), '\n'),
        lacks(command_line(c), ':'),
        !ws(command_line(c).last()),
        command_line(c)[0] == 'a',
        words(command_line(c)) == line_words(c),
{
    match c {
        CommandView::Accept { place, content, uuid, n } => {
            lemma_endpoint_back(uuid, n);
            let e = uuid + "."@ + decimal(n as nat);
            if place && !content {
                lemma_accept_place(e);
                assert(command_line(c) =~= "accept"@ + " --place"@ + " "@ + e);
            } else if !place && content {
                lemma_accept_content(e);
                assert(command_line(c) =~= "accept"@ + " --content"@ + " "@ + e);
            } else {
                lemma_accept_plain(e);
                assert(command_line(c) =~= "accept"@ + seq![] + " "@ + e);
            }
        },
        _ => {},
    }
}

proof fn lemma_accept_place(e: Seq<char>)
    requires
        no_ws(e),
        e.len() > 0,
        lacks(e, '\n'),
        lacks(e, ':'),
    ensures
        ({
            let l = "accept"@ + " --place"@ + " "@ + e;
            &&& lacks(l, '\n') && lacks(l, ':') && !ws(l.last()) && l[0] == 'a'
            &&& words(l) == seq!["accept"@, "--place"@, e]
        }),
{
    reveal_strlit("accept");
    reveal_strlit(" --place");
    reveal_strlit("--place");
    reveal_strlit(" ");
    let l = "accept"@ + " --place"@ + " "@ + e;
    assert(l =~= "accept"@ + (seq![' '] + ("--place"@ + (seq![' '] + e))));
    lemma_words_three("accept"@, "--place"@, e);
    let head = "accept"@ + " --place"@ + " "@;
    assert(l =~= head + e);
    lemma_head_tail(head, e);
}

proof fn lemma_accept_content(e: Seq<char>)
    requires
        no_ws(e),
        e.len() > 0,
        lacks(e, '\n'),
        lacks(e, ':'),
    ensures
        ({
            let l = "accept"@ + " --content"@ + " "@ + e;
            &&& lacks(l, '\n') && lacks(l, ':') && !ws(l.last()) && l[0] == 'a'
            &&& words(l) == seq!["accept"@, "--content"@, e]
        }),
{
    reveal_strlit("accept");
    reveal_strlit(" --content");
    reveal_strlit("--content");
    reveal_strlit(" ");
    let l = "accept"@ + " --content"@ + " "@ + e;
    assert(l =~= "accept"@ + (seq![' '] + ("--content"@ + (seq![' '] + e))));
    lemma_words_three("accept"@, "--content"@, e);
    let head = "accept"@ + " --content"@ + " "@;
    assert(l =~= head + e);
    lemma_head_tail(head, e);
}

proof fn lemma_accept_plain(e: Seq<char>)
    requires
        no_ws(e),
        e.len() > 0,
        lacks(e, '\n'),
        lacks(e, ':'),
    ensures
        ({
            let l = "accept"@ + seq![] + " "@ + e;
            &&& lacks(l, '\n') && lacks(l, ':') && !ws(l.last()) && l[0] == 'a'
            &&& words(l) == seq!["accept"@, e]
        }),
{
    reveal_strlit("accept");
    reveal_strlit(" ");
    let l = "accept"@ + seq![] + " "@ + e;
    assert(l =~= "accept"@ + (seq![' '] + e));
    lemma_words_two("accept"@, e);
    let head = "accept"@ + seq![] + " "@;
    assert(l =~= head + e);
    lemma_head_tail(head, e);
}

#[verifier::rlimit(40)]
proof fn lemma_line_accept(c: CommandView)
    requires
        command_faithful(c),
        c is Accept,
    ensures
        command_line(c).len() > 0,
        lacks(command_line(c), '\n'),
        lacks(command_line(c), ':'),
        !ws(command_line(c).last()),
        command_line(c)[0] == 'a' || command_line(c)[0] == 't' || command_line(c)[0] == 'p',
        words(command_line(c)) == line_words(c),
        command_of(line_words(c)[0], line_words(c).drop_first()) == Ok::<
            CommandView,
            ErrorView,
        >(command_as_read(c)),
{
    lemma_words_accept(c);
    lemma_command_of_accept(c);
}

proof fn lemma_command_of_apply(c: CommandView)
    requires
        command_faithful(c),
        c is Apply,
    ensures
        command_of(line_words(c)[0], line_words(c).drop_first()) == Ok::<
            CommandView,
            ErrorView,
        >(command_as_read(c)),
{
    lemma_vocabulary_words();
    match c {
        CommandView::Apply { uuid, n, capture } => {
            lemma_endpoint_back(uuid, n);
            let e = uuid + "."@ + decimal(n as nat);
            assert(line_words(c).drop_first() =~= seq![e, capture]);
        },
        _ => {},
    }
}

proof fn lemma_words_apply(c: CommandView)
    requires
        command_faithful(c),
        c is Apply,
    ensures
        command_line(c).len() > 0,
        lacks(command_line(c), '\n'),
        lacks(command_line(c), ':'),
        !ws(command_line(c).last()),
        command_line(c)[0] == 'a',
        words(command_line(c)) == line_words(c),
{
    match c {
        CommandView::Apply { uuid, n, capture } => {
            lemma_endpoint_back(uuid, n);
            let e = uuid + "."@ + decimal(n as nat);
            assert forall|i: int| 0 <= i < capture.len() implies !ws(#[trigger] capture[i])
                && capture[i] != '\n' && capture[i] != ':' by {
                assert(hexdigit(capture[i]));
            }
            lemma_apply_line(e, capture);
            assert(command_line(c) =~= "apply "@ + e + " "@ + capture);
        },
        _ => {},
    }
}

proof fn lemma_apply_line(e: Seq<char>, capture: Seq<char>)
    requires
        no_ws(e),
        e.len() > 0,
        lacks(e, '\n'),
        lacks(e, ':'),
        no_ws(capture),
        capture.len() > 0,
        lacks(capture, '\n'),
        lacks(capture, ':'),
    ensures
        ({
            let l = "apply "@ + e + " "@ + capture;
            &&& lacks(l, '\n') && lacks(l, ':') && !ws(l.last()) && l[0] == 'a'
            &&& words(l) == seq!["apply"@, e, capture]
        }),
{
    reveal_strlit("apply ");
    reveal_strlit("apply");
    reveal_strlit(" ");
    let l = "apply "@ + e + " "@ + capture;
    assert(l =~= "apply"@ + (seq![' '] + (e + (seq![' '] + capture))));
    lemma_words_three("apply"@, e, capture);
    let head = "apply "@;
    lemma_head_tail(head, e);
    let h2 = head + e + " "@;
    assert forall|i: int| 0 <= i < h2.len() implies #[trigger] h2[i] != '\n' && h2[i] != ':' by {
        if i < (head + e).len() {
            assert(h2[i] == (head + e)[i]);
        }
    }
    assert(l =~= h2 + capture);
    lemma_head_tail(h2, capture);
}

proof fn lemma_line_apply(c: CommandView)
    requires
        command_faithful(c),
        c is Apply,
    ensures
        command_line(c).len() > 0,
        lacks(command_line(c), '\n'),
        lacks(command_line(c), ':'),
        !ws(command_line(c).last()),
        command_line(c)[0] == 'a' || command_line(c)[0] == 't' || command_line(c)[0] == 'p',
        words(command_line(c)) == line_words(c),
        command_of(line_words(c)[0], line_words(c).drop_first()) == Ok::<
            CommandView,
            ErrorView,
        >(command_as_read(c)),
{
    lemma_words_apply(c);
    lemma_command_of_apply(c);
}

/// The subject line: the command and, when there is prose, `: ` and the prose.
pub open spec fn subject_line(m: MessageView) -> Seq<char> {
    command_line(m.command) + match m.prose {
        Some(p) => ": "@ + p,
        None => seq![],
    }
}

proof fn reveal_trailers()
    ensures
        "Bilinker-Version"@ + ": "@ == "Bilinker-Version: "@,
        "Invocation"@ + ": "@ == "Invocation: "@,
        "Bilinker-Version: "@.len() == 18,
        "Bilinker-Version: "@[0] == 'B',
        "Bilinker-Version: "@.last() == ' ',
        "Invocation: "@.len() == 12,
        "Invocation: "@[0] == 'I',
        "Invocation: "@.last() == ' ',
        lacks("Bilinker-Version: "@, '\n'),
        lacks("Invocation: "@, '\n'),
        ": "@ == seq![':', ' '],
        "\n"@ == seq!['\n'],
        "\n\n"@ == seq!['\n', '\n'],
{
    reveal_strlit("Bilinker-Version");
    reveal_strlit("Invocation");
    reveal_strlit("Bilinker-Version: ");
    reveal_strlit("Invocation: ");
    reveal_strlit(": ");
    reveal_strlit("\n");
    reveal_strlit("\n\n");
    assert("Bilinker-Version"@ + ": "@ =~= "Bilinker-Version: "@);
    assert("Invocation"@ + ": "@ =~= "Invocation: "@);
}

/// The subject line reads back as the command's line and the prose.
proof fn lemma_subject_back(m: MessageView)
    requires
        message_faithful(m),
    ensures
        ({
            let s = subject_line(m);
            &&& s.len() > 0
            &&& lacks(s, '\n')
            &&& !ws(s.last())
            &&& s[0] == command_line(m.command)[0]
            &&& head_and_prose(s) == (command_line(m.command), m.prose)
        }),
{
    reveal_trailers();
    let c = m.command;
    lemma_line_facts(c);
    let l = command_line(c);
    let s = subject_line(m);
    match m.prose {
        Some(p) => {
            lemma_trim_fixed(p);
            assert(s =~= l + seq![':', ' '] + p);
            assert(occurs_at(s, l.len() as int, ": "@)) by {
                assert(s.subrange(l.len() as int, l.len() as int + 2) =~= seq![':', ' ']);
            }
            assert forall|j: int| 0 <= j < l.len() implies !occurs_at(s, j, ": "@) by {
                assert(s[j] == l[j]);
                if occurs_at(s, j, ": "@) {
                    assert(s.subrange(j, j + 2)[0] == s[j]);
                }
            }
            lemma_find_first(s, ": "@, 0, l.len() as int);
            assert(s.take(l.len() as int) =~= l);
            assert(s.skip(l.len() as int + 2) =~= p);
            assert forall|i: int| 0 <= i < s.len() implies #[trigger] s[i] != '\n' by {
                if i >= l.len() as int + 2 {
                    assert(s[i] == p[i - l.len() - 2]);
                }
            }
            assert(s.last() == p.last());
        },
        None => {
            assert(s =~= l);
            assert forall|j: int| 0 <= j implies !occurs_at(l, j, ": "@) by {
                if occurs_at(l, j, ": "@) {
                    assert(l.subrange(j, j + 2)[0] == l[j]);
                }
            }
            lemma_find_none(l, ": "@, 0);
        },
    }
}

/// A trailer line `prefix + value` carries its value under that prefix.
proof fn lemma_strip_trailer(prefix: Seq<char>, v: Seq<char>)
    ensures
        strip_prefix(prefix + v, prefix) == Some(v),
{
    assert((prefix + v).take(prefix.len() as int) =~= prefix);
    assert((prefix + v).skip(prefix.len() as int) =~= v);
}

/// A line that starts otherwise carries nothing under the prefix.
proof fn lemma_strip_other(s: Seq<char>, prefix: Seq<char>)
    requires
        prefix.len() > 0,
        s.len() > 0 ==> s[0] != prefix[0],
    ensures
        strip_prefix(s, prefix) is None,
{
    if prefix.len() <= s.len() {
        assert(s.take(prefix.len() as int)[0] == s[0]);
    }
}

/// The lines a rendered message is made of.
pub open spec fn message_lines(m: MessageView) -> Seq<Seq<char>> {
    match m.invocation {
        Some(i) => seq![subject_line(m), seq![], "Invocation: "@ + i, "Bilinker-Version: "@ + m.version],
        None => seq![subject_line(m), seq![], "Bilinker-Version: "@ + m.version],
    }
}

/// A trailer line `prefix + value` that fits on one line is a line of its own.
proof fn lemma_trailer_line(prefix: Seq<char>, v: Seq<char>)
    requires
        prefix.len() > 0,
        prefix.last() == ' ',
        lacks(prefix, '\n'),
        clean_line(v),
    ensures
        lacks(prefix + v, '\n'),
        strip_cr(prefix + v) == prefix + v,
        strip_prefix(prefix + v, prefix) == Some(v),
        trim(v) == v,
{
    let l = prefix + v;
    lemma_trim_fixed(v);
    assert forall|k: int| 0 <= k < l.len() implies #[trigger] l[k] != '\n' by {
        if k >= prefix.len() {
            assert(l[k] == v[k - prefix.len()]);
        } else {
            assert(l[k] == prefix[k]);
        }
    }
    assert(l.last() != '\r') by {
        if v.len() > 0 {
            assert(l.last() == v.last());
        }
    }
    lemma_strip_trailer(prefix, v);
}

/// The rendered message splits into its subject, a blank line and its trailers.
#[verifier::rlimit(40)]
proof fn lemma_message_lines(m: MessageView)
    requires
        message_faithful(m),
    ensures
        lines(message_text(m)) == message_lines(m),
{
    reveal_trailers();
    lemma_subject_back(m);
    let s = subject_line(m);
    let vl = "Bilinker-Version: "@ + m.version;
    let text = message_text(m);
    let e: Seq<char> = seq![];
    lemma_trailer_line("Bilinker-Version: "@, m.version);
    assert(strip_cr(s) == s);
    assert(strip_cr(e) == e);
    match m.invocation {
        Some(i) => {
            let il = "Invocation: "@ + i;
            lemma_trailer_line("Invocation: "@, i);
            let r = il + seq!['\n'] + (vl + seq!['\n'] + e);
            assert(text =~= s + seq!['\n'] + (e + seq!['\n'] + r));
            lemma_lines_split(s, e + seq!['\n'] + r, e);
            assert(e + s =~= s);
            lemma_lines_split(e, r, e);
            assert(e + e =~= e);
            lemma_lines_split(il, vl + seq!['\n'] + e, e);
            assert(e + il =~= il);
            lemma_lines_split(vl, e, e);
            assert(e + vl =~= vl);
            assert(lines(text) =~= message_lines(m));
        },
        None => {
            let r = vl + seq!['\n'] + e;
            assert(text =~= s + seq!['\n'] + (e + seq!['\n'] + r));
            lemma_lines_split(s, e + seq!['\n'] + r, e);
            assert(e + s =~= s);
            lemma_lines_split(e, r, e);
            assert(e + e =~= e);
            lemma_lines_split(vl, e, e);
            assert(e + vl =~= vl);
            assert(lines(text) =~= message_lines(m));
        },
    }
}

/// In a rendered message each trailer appears once, with its value.
#[verifier::rlimit(40)]
proof fn lemma_message_hits(m: MessageView)
    requires
        message_faithful(m),
    ensures
        trailer_hits(message_lines(m), "Bilinker-Version: "@) == seq![m.version],
        trailer_hits(message_lines(m), "Invocation: "@) == match m.invocation {
            Some(i) => seq![i],
            None => Seq::<Seq<char>>::empty(),
        },
{
    reveal_trailers();
    lemma_subject_back(m);
    lemma_line_facts(m.command);
    let s = subject_line(m);
    let bv = "Bilinker-Version: "@;
    let inv = "Invocation: "@;
    let vl = bv + m.version;
    let e: Seq<char> = seq![];
    lemma_trailer_line(bv, m.version);
    lemma_strip_other(s, bv);
    lemma_strip_other(e, bv);
    lemma_strip_other(s, inv);
    lemma_strip_other(e, inv);
    lemma_strip_other(vl, inv);
    let ls = message_lines(m);
    reveal_with_fuel(trailer_hits, 5);
    match m.invocation {
        Some(i) => {
            let il = inv + i;
            lemma_trailer_line(inv, i);
            lemma_strip_other(il, bv);
            assert(ls.drop_last() =~= seq![s, e, il]);
            assert(ls.drop_last().drop_last() =~= seq![s, e]);
            assert(ls.drop_last().drop_last().drop_last() =~= seq![s]);
            assert(trailer_hits(ls, bv) =~= seq![m.version]);
            assert(trailer_hits(ls, inv) =~= seq![i]);
        },
        None => {
            assert(ls.drop_last() =~= seq![s, e]);
            assert(ls.drop_last().drop_last() =~= seq![s]);
            assert(trailer_hits(ls, bv) =~= seq![m.version]);
            assert(trailer_hits(ls, inv) =~= Seq::<Seq<char>>::empty());
        },
    }
}

/// **Everything bilinker writes reads back the same.** A message whose arguments
/// are ones the grammar accepts, none holding whitespace, whose prose is not empty
/// and whose prose, invocation and version each fit on a line, parses back to
/// itself — the commit of an absorption abbreviated, as the line carries it.
#[verifier::spinoff_prover]
#[verifier::rlimit(50)]
pub proof fn lemma_message_round_trip(m: MessageView)
    requires
        message_faithful(m),
    ensures
        parse_text(message_text(m)) == Ok::<MessageView, ErrorView>(
            MessageView {
                command: command_as_read(m.command),
                prose: m.prose,
                invocation: m.invocation,
                version: m.version,
            },
        ),
{
    reveal_trailers();
    lemma_line_facts(m.command);
    lemma_subject_back(m);
    lemma_message_lines(m);
    lemma_message_hits(m);
    lemma_trim_fixed(m.version);
    let text = message_text(m);
    let s = subject_line(m);
    assert(lines(text)[0] == s);
    lemma_trim_fixed(s);
    assert(subject_of(text) == s);
    match m.invocation {
        Some(i) => {
            lemma_trim_fixed(i);
        },
        None => {},
    }
}

/// **What the person typed cannot forge a trailer.** Whatever text goes into the
/// invocation, flattened as `with_invocation` flattens it, a message that read back
/// before still reads back, with its own version and that invocation.
pub proof fn lemma_invocation_cannot_forge(m: MessageView, typed: Seq<char>)
    requires
        message_faithful(m),
    ensures
        parse_text(message_text(MessageView { invocation: Some(one_line(typed)), ..m })) == Ok::<
            MessageView,
            ErrorView,
        >(
            MessageView {
                command: command_as_read(m.command),
                prose: m.prose,
                invocation: Some(one_line(typed)),
                version: m.version,
            },
        ),
{
    lemma_one_line_clean(typed);
    let w = MessageView { invocation: Some(one_line(typed)), ..m };
    assert(message_faithful(w));
    lemma_message_round_trip(w);
}

/// **History from before the grammar is no error, and what has the trailer is read
/// strictly.** A message without `Bilinker-Version` reads as from before the
/// grammar; one with it exactly once reads as `parse_text` parses it.
pub proof fn lemma_read_tolerates_history(message: Seq<char>)
    ensures
        trailer_hits(lines(message), "Bilinker-Version: "@).len() == 0 ==> read_text(message)
            == Ok::<ReadView, ErrorView>(ReadView::PreGrammar),
        trailer_hits(lines(message), "Bilinker-Version: "@).len() == 1 ==> read_text(message)
            == match parse_text(message) {
            Ok(m) => Ok::<ReadView, ErrorView>(ReadView::Parsed(m)),
            Err(e) => Err(e),
        },
{
    reveal_trailers();
}


/// Every command read from a message can be written back as its line.
pub proof fn lemma_read_command_writable(message: Seq<char>)
    ensures
        parse_text(message) matches Ok(m) ==> line_writable(m.command),
{
    match parse_text(message) {
        Ok(m) => match m.command {
            CommandView::Absorb { project } => {
                assert(commit_ok(project));
                assert forall|i: int| 0 <= i < project.len() implies (#[trigger] project[i] as u32) < 0x80 by {
                    assert(hexdigit(project[i]));
                }
                lemma_ascii_byte_prefix(project, 12);
            },
            _ => {},
        },
        Err(_) => {},
    }
}


/// The message that `RefMessage::new(c).with_prose(prose)` builds.
pub open spec fn prose_message(c: CommandView, prose: Seq<char>) -> MessageView {
    MessageView { command: c, prose: Some(one_line(prose)), invocation: None, version: VERSION@ }
}

proof fn lemma_version_clean()
    ensures
        clean_line(VERSION@),
{
    reveal_strlit("0.1.0");
    assert(VERSION@ == "0.1.0"@);
    assert(VERSION@[0] == '0' && VERSION@.last() == '0');
    assert forall|i: int| 0 <= i < VERSION@.len() implies VERSION@[i] != '\n' by {
        assert(VERSION@ == seq!['0', '.', '1', '.', '0']);
    }
}

/// **A command with prose reads back.** Whatever the command, as long as its
/// arguments are ones the grammar accepts, and whatever the prose, as long as it
/// holds something besides whitespace: the message `new` and `with_prose` build
/// parses back with the prose flattened to one line, no invocation and this
/// version — the commit of an absorption abbreviated, as the line carries it.
pub proof fn lemma_prose_message_round_trip(c: CommandView, prose: Seq<char>)
    requires
        command_faithful(c),
        exists|i: int| 0 <= i < prose.len() && !ws(#[trigger] prose[i]),
    ensures
        parse_text(message_text(prose_message(c, prose))) == Ok::<MessageView, ErrorView>(
            MessageView {
                command: command_as_read(c),
                prose: Some(one_line(prose)),
                invocation: None,
                version: VERSION@,
            },
        ),
{
    crate::text::lemma_one_line_some(prose);
    lemma_one_line_clean(prose);
    lemma_version_clean();
    let m = prose_message(c, prose);
    assert(message_faithful(m));
    lemma_message_round_trip(m);
}

/// A command line starts with the command's word.
proof fn lemma_command_starts(c: CommandView)
    ensures
        command_line(c).len() > 0,
        command_line(c)[0] == 'a' || command_line(c)[0] == 't' || command_line(c)[0] == 'p',
{
    reveal_strlit("absorb ");
    reveal_strlit("track ");
    reveal_strlit("accept");
    reveal_strlit("apply ");
    reveal_strlit("adopt ");
    reveal_strlit("pull ");
    match c {
        CommandView::Absorb { project } => assert(command_line(c)[0] == "absorb "@[0]),
        CommandView::Track { branch } => assert(command_line(c)[0] == "track "@[0]),
        CommandView::Accept { place, content, uuid, n } => assert(command_line(c)[0] == "accept"@[0]),
        CommandView::Apply { uuid, n, capture } => assert(command_line(c)[0] == "apply "@[0]),
        CommandView::Adopt { branch } => assert(command_line(c)[0] == "adopt "@[0]),
        CommandView::Pull { remote } => assert(command_line(c)[0] == "pull "@[0]),
    }
}

/// The lines of a rendered message, when its subject holds no line break and does
/// not end in a carriage return, and its invocation and version each fit on a line.
proof fn lemma_shaped_lines(m: MessageView)
    requires
        lacks(subject_line(m), '\n'),
        subject_line(m).len() > 0 ==> subject_line(m).last() != '\r',
        m.invocation matches Some(i) ==> clean_line(i),
        clean_line(m.version),
    ensures
        lines(message_text(m)) == message_lines(m),
        trailer_hits(message_lines(m), "Bilinker-Version: "@) == seq![m.version],
        trailer_hits(message_lines(m), "Invocation: "@) == match m.invocation {
            Some(i) => seq![i],
            None => Seq::<Seq<char>>::empty(),
        },
{
    reveal_trailers();
    lemma_command_starts(m.command);
    let s = subject_line(m);
    assert(s[0] == command_line(m.command)[0]);
    let bv = "Bilinker-Version: "@;
    let inv = "Invocation: "@;
    let vl = bv + m.version;
    let text = message_text(m);
    let e: Seq<char> = seq![];
    lemma_trailer_line(bv, m.version);
    assert(strip_cr(s) == s);
    assert(strip_cr(e) == e);
    lemma_strip_other(s, bv);
    lemma_strip_other(e, bv);
    lemma_strip_other(s, inv);
    lemma_strip_other(e, inv);
    lemma_strip_other(vl, inv);
    let ls = message_lines(m);
    reveal_with_fuel(trailer_hits, 5);
    match m.invocation {
        Some(i) => {
            let il = inv + i;
            lemma_trailer_line(inv, i);
            lemma_strip_other(il, bv);
            let r = il + seq!['\n'] + (vl + seq!['\n'] + e);
            assert(text =~= s + seq!['\n'] + (e + seq!['\n'] + r));
            lemma_lines_split(s, e + seq!['\n'] + r, e);
            assert(e + s =~= s);
            lemma_lines_split(e, r, e);
            assert(e + e =~= e);
            lemma_lines_split(il, vl + seq!['\n'] + e, e);
            assert(e + il =~= il);
            lemma_lines_split(vl, e, e);
            assert(e + vl =~= vl);
            assert(lines(text) =~= message_lines(m));
            assert(ls.drop_last() =~= seq![s, e, il]);
            assert(ls.drop_last().drop_last() =~= seq![s, e]);
            assert(ls.drop_last().drop_last().drop_last() =~= seq![s]);
            assert(trailer_hits(ls, bv) =~= seq![m.version]);
            assert(trailer_hits(ls, inv) =~= seq![i]);
        },
        None => {
            let r = vl + seq!['\n'] + e;
            assert(text =~= s + seq!['\n'] + (e + seq!['\n'] + r));
            lemma_lines_split(s, e + seq!['\n'] + r, e);
            assert(e + s =~= s);
            lemma_lines_split(e, r, e);
            assert(e + e =~= e);
            lemma_lines_split(vl, e, e);
            assert(e + vl =~= vl);
            assert(lines(text) =~= message_lines(m));
            assert(ls.drop_last() =~= seq![s, e]);
            assert(ls.drop_last().drop_last() =~= seq![s]);
            assert(trailer_hits(ls, bv) =~= seq![m.version]);
            assert(trailer_hits(ls, inv) =~= Seq::<Seq<char>>::empty());
        },
    }
}

/// **What a rendered message looks like.** For a message built by `new`, and maybe
/// `with_prose` and `with_invocation`, whose command line holds no line break (and,
/// without prose, does not end in a carriage return, which `lines` would drop): its
/// first line is the command's line with the prose after `": "`; it carries
/// `Bilinker-Version` exactly once, with its version, as its last line; and it
/// carries an `Invocation` trailer exactly when it has an invocation.
pub proof fn lemma_rendered_shape(c: CommandView, prose: Option<Seq<char>>, typed: Option<Seq<char>>)
    requires
        lacks(command_line(c), '\n'),
        prose is None && command_line(c).len() > 0 ==> command_line(c).last() != '\r',
    ensures
        ({
            let m = MessageView {
                command: c,
                prose: match prose {
                    Some(p) => Some(one_line(p)),
                    None => None,
                },
                invocation: match typed {
                    Some(t) => Some(one_line(t)),
                    None => None,
                },
                version: VERSION@,
            };
            let ls = lines(message_text(m));
            &&& ls[0] == command_line(c) + match prose {
                Some(p) => ": "@ + one_line(p),
                None => seq![],
            }
            &&& trailer_hits(ls, "Bilinker-Version: "@) == seq![VERSION@]
            &&& ls.last() == "Bilinker-Version: "@ + VERSION@
            &&& message_text(m).len() > 0 && message_text(m).last() == '\n'
            &&& (trailer_hits(ls, "Invocation: "@).len() > 0) == (typed is Some)
        }),
{
    let m = MessageView {
        command: c,
        prose: match prose {
            Some(p) => Some(one_line(p)),
            None => None,
        },
        invocation: match typed {
            Some(t) => Some(one_line(t)),
            None => None,
        },
        version: VERSION@,
    };
    reveal_trailers();
    let s = subject_line(m);
    match prose {
        Some(p) => {
            lemma_one_line_clean(p);
            let o = one_line(p);
            assert(s =~= command_line(c) + (seq![':', ' '] + o));
            assert forall|k: int| 0 <= k < s.len() implies s[k] != '\n' by {
                if k >= command_line(c).len() + 2 {
                    assert(s[k] == o[k - command_line(c).len() - 2]);
                } else if k < command_line(c).len() {
                    assert(s[k] == command_line(c)[k]);
                }
            }
            if o.len() > 0 {
                assert(s.last() == o.last());
            } else {
                assert(s.last() == ' ');
            }
        },
        None => {
            assert(s =~= command_line(c));
        },
    }
    match typed {
        Some(t) => {
            lemma_one_line_clean(t);
        },
        None => {},
    }
    lemma_version_clean();
    lemma_shaped_lines(m);
    let ls = lines(message_text(m));
    assert(ls[0] == subject_line(m));
    assert(ls.last() == "Bilinker-Version: "@ + VERSION@);
    let t = message_text(m);
    assert(t.last() == '\n');
    match typed {
        Some(i) => {
            assert(trailer_hits(ls, "Invocation: "@) == seq![one_line(i)]);
        },
        None => {
            assert(trailer_hits(ls, "Invocation: "@).len() == 0);
        },
    }
}

} // verus!
