# bilinker

Bilinker keeps verified, two-way references between fragments of text in the
layers of a project: the spec, the decisions, the code. A reference points at a
syntax node rather than a line number, so it survives reformatting and moves; and
each fragment carries the hash of what someone approved, so a change is noticed
and has to be approved again.

This crate is the library, written in Verus: each function's behaviour is stated
in its `requires` / `ensures` and proved.

## Layout

- `src/` — the verified library:
  - the syntax side: what tree-sitter parses and matches, taken as plain values,
    and what is built on it — the node at a selection and the stable anchor
    around it, the pattern that names it and the check that it matches that node
    alone, the fragment a query names, the declaration around its anchor, and the
    shape of a node with its tokens that an AST hash covers;
  - the text formats (bilinks, captures, commit messages of the bilink ref, the
    index, the cache), the endpoint states and the verdicts that give them, what
    `accept` keeps;
  - the decisions of `push`, `pull`, `adopt`, the walk that reads the bilink ref
    along a first-parent chain, what a `check` run verifies, names as unreadable
    and requires of a provider, the steps of `impact`, `relayer` and the
    migrations;
  - the laws that hold between these functions (round trips, what a write leaves
    untouched, what a walk keeps).
  The calls into outside crates (tree-sitter and its grammars, SHA-256,
  `char::is_alphanumeric`, `String::push`) stand behind trusted items whose doc
  comments say what is claimed of them.
- `app/` — ordinary Rust around the library: it reads the disk and git and
  hands the library plain values (files, parsed trees, first-parent chains), runs
  the loop of `impact` that asks for callers, converts the serialised formats, and
  searches for a renamed anchor, which scores candidates in floating point.
- `tests/` — the tests, run against the compiled library with the real outside
  crates.
