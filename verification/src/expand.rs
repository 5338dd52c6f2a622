//! Macro expansion: resolving one `$`-introduced reference, and expanding
//! a whole recipe line at build time.
//!
//! A reference is `$$` (a literal `$`), an automatic variable `$@`, `$?`
//! or `$<`, or a bracketed name `$(...)` / `${...}` whose text is itself
//! expanded before the name is resolved.  A name beginning with the word
//! `shell` and a space is a command for the caller to run: expansion
//! cannot run processes itself, so it asks for the command's output and is run
//! again with the output supplied (`shells` holds the outputs collected so
//! far, consumed left to right).  At parse time automatic variables are
//! kept literally; at build time they resolve against the rule being
//! built.

use vstd::prelude::*;

use crate::errors::{MakeError, MakeErrorModel};
use crate::text::{starts_with, sub_vec, trim, trimmed};
use crate::vars::VarStore;

verus! {

/// `$`
pub const DOLLAR: u8 = 36;

/// `#`
pub const HASH: u8 = 35;

/// `@`
pub const AT: u8 = 64;

/// `?`
pub const QUERY: u8 = 63;

/// `<`
pub const LESS: u8 = 60;

/// `(`
pub const LPAREN: u8 = 40;

/// `)`
pub const RPAREN: u8 = 41;

/// `{`
pub const LBRACE: u8 = 123;

/// `}`
pub const RBRACE: u8 = 125;

/// ` `
pub const SPACE: u8 = 32;

/// `\n`
pub const NEWLINE: u8 = 10;

/// The bytes of `shell ` (the word and one space).
pub open spec fn shell_prefix() -> Seq<u8> {
    seq![115, 104, 101, 108, 108, 32]
}

/// Does the bracketed name invoke the `shell` pseudo-function?
pub open spec fn is_shell_name(name: Seq<u8>) -> bool {
    name.len() >= 6 && name.subrange(0, 6) == shell_prefix()
}

/// `s` with every newline byte removed.
pub open spec fn strip_newlines(s: Seq<u8>) -> Seq<u8>
    decreases s.len(),
{
    if s.len() == 0 {
        seq![]
    } else if s[0] == NEWLINE {
        strip_newlines(s.drop_first())
    } else {
        seq![s[0]] + strip_newlines(s.drop_first())
    }
}

/// What a `shell` command's captured output contributes: newlines
/// stripped, then trimmed.
pub open spec fn shell_clean(out: Seq<u8>) -> Seq<u8> {
    trimmed(strip_newlines(out))
}

/// What a variable name contributes: its stored value trimmed of
/// surrounding whitespace, or nothing when the name is unbound.
pub open spec fn lookup_value(vars: Map<Seq<u8>, Seq<u8>>, name: Seq<u8>) -> Seq<u8> {
    if vars.dom().contains(name) {
        trimmed(vars[name])
    } else {
        seq![]
    }
}

/// The parts `parts[i..]` of a joined list, each preceded by one space.
pub open spec fn join_tail(parts: Seq<Seq<u8>>, i: int) -> Seq<u8>
    decreases parts.len() - i,
{
    if i < 0 || i >= parts.len() {
        seq![]
    } else {
        seq![SPACE] + parts[i] + join_tail(parts, i + 1)
    }
}

/// The parts joined with single spaces.
pub open spec fn join_spaces(parts: Seq<Seq<u8>>) -> Seq<u8> {
    if parts.len() == 0 {
        seq![]
    } else {
        parts[0] + join_tail(parts, 1)
    }
}

/// Abstract expansion mode: at parse time automatic variables stay
/// literal; at build time they resolve against the rule being built.
pub ghost enum ModeModel {
    Parse,
    Build { target: Seq<u8>, prereqs: Seq<Seq<u8>> },
}

/// What an automatic-variable escape (`@`, `?` or `<` after `$`) expands
/// to: kept literal at parse time; at build time `$@` is the target and
/// `$?`/`$<` are the prerequisites joined with single spaces.
pub open spec fn auto_text(mode: ModeModel, c: u8) -> Seq<u8> {
    match mode {
        ModeModel::Parse => seq![DOLLAR, c],
        ModeModel::Build { target, prereqs } => if c == AT {
            target
        } else {
            join_spaces(prereqs)
        },
    }
}

/// The outcome of resolving a piece of input: some bytes consumed and
/// text produced, a `shell` command whose output is still missing, or a
/// failure.
pub ghost enum StepModel {
    Text { bytes: nat, used: nat, text: Seq<u8> },
    Shell { cmd: Seq<u8> },
    Fail { err: MakeErrorModel },
}

/// Resolve the single reference starting at `s[i]`, the position just
/// after a `$`.  `shells[k..]` are the shell outputs already available.
pub open spec fn ref_step(
    s: Seq<u8>,
    i: int,
    vars: Map<Seq<u8>, Seq<u8>>,
    mode: ModeModel,
    shells: Seq<Seq<u8>>,
    k: int,
) -> StepModel
    decreases s.len() - i, 1int,
{
    if i < 0 || i >= s.len() {
        StepModel::Fail { err: MakeErrorModel::UnexpectedEnd }
    } else if s[i] == AT || s[i] == QUERY || s[i] == LESS {
        StepModel::Text { bytes: 1, used: 0, text: auto_text(mode, s[i]) }
    } else if s[i] == DOLLAR {
        StepModel::Text { bytes: 1, used: 0, text: seq![DOLLAR] }
    } else if s[i] == LPAREN || s[i] == LBRACE {
        let close = if s[i] == LPAREN {
            RPAREN
        } else {
            RBRACE
        };
        match bracket_step(s, i + 1, close, vars, mode, shells, k) {
            StepModel::Text { bytes: n, used: m, text: name } => {
                if is_shell_name(name) {
                    if 0 <= k + m < shells.len() {
                        StepModel::Text {
                            bytes: (n + 1) as nat,
                            used: (m + 1) as nat,
                            text: shell_clean(shells[k + m]),
                        }
                    } else {
                        StepModel::Shell { cmd: name.skip(6) }
                    }
                } else {
                    StepModel::Text { bytes: (n + 1) as nat, used: m, text: lookup_value(vars, name) }
                }
            },
            other => other,
        }
    } else {
        StepModel::Fail { err: MakeErrorModel::UnknownEscape(s[i]) }
    }
}

/// Read bracketed reference text from `s[i]` up to the closing byte
/// `close`, expanding nested references along the way, and produce the
/// resolved name text.  A `#` inside a reference is malformed.
pub open spec fn bracket_step(
    s: Seq<u8>,
    i: int,
    close: u8,
    vars: Map<Seq<u8>, Seq<u8>>,
    mode: ModeModel,
    shells: Seq<Seq<u8>>,
    k: int,
) -> StepModel
    decreases s.len() - i, 0int,
{
    if i < 0 || i >= s.len() {
        StepModel::Fail { err: MakeErrorModel::UnexpectedEnd }
    } else if s[i] == HASH {
        StepModel::Fail { err: MakeErrorModel::Syntax }
    } else if s[i] == DOLLAR {
        match ref_step(s, i + 1, vars, mode, shells, k) {
            StepModel::Text { bytes: n, used: m, text: txt } => {
                if i + 1 + n <= s.len() {
                    match bracket_step(s, i + 1 + n, close, vars, mode, shells, k + m) {
                        StepModel::Text { bytes: n2, used: m2, text: rest } => StepModel::Text {
                            bytes: (1 + n + n2) as nat,
                            used: (m + m2) as nat,
                            text: txt + rest,
                        },
                        other => other,
                    }
                } else {
                    // a reference never consumes past the end of the input
                    StepModel::Fail { err: MakeErrorModel::UnexpectedEnd }
                }
            },
            other => other,
        }
    } else if s[i] == close {
        StepModel::Text { bytes: 1, used: 0, text: seq![] }
    } else {
        match bracket_step(s, i + 1, close, vars, mode, shells, k) {
            StepModel::Text { bytes: n, used: m, text: rest } => StepModel::Text {
                bytes: (n + 1) as nat,
                used: m,
                text: seq![s[i]] + rest,
            },
            other => other,
        }
    }
}

/// Reading bracketed text that contains no `$`, `#` or closing byte
/// consumes up to and including the closing byte and yields the enclosed
/// text verbatim.
proof fn lemma_bracket_plain(
    s: Seq<u8>,
    i: int,
    e: int,
    close: u8,
    vars: Map<Seq<u8>, Seq<u8>>,
    mode: ModeModel,
    shells: Seq<Seq<u8>>,
    k: int,
)
    requires
        0 <= i <= e < s.len(),
        s[e] == close,
        close != DOLLAR && close != HASH,
        forall|j: int| i <= j < e ==> s[j] != DOLLAR && s[j] != HASH && s[j] != close,
    ensures
        bracket_step(s, i, close, vars, mode, shells, k) == (StepModel::Text {
            bytes: (e - i + 1) as nat,
            used: 0,
            text: s.subrange(i, e),
        }),
    decreases e - i,
{
    if i == e {
        assert(s.subrange(i, e) =~= seq![]);
    } else {
        lemma_bracket_plain(s, i + 1, e, close, vars, mode, shells, k);
        assert(seq![s[i]] + s.subrange(i + 1, e) =~= s.subrange(i, e));
    }
}

/// A variable bound to a value and then referenced by a bracketed name
/// (with no nested references in the name) expands to that value trimmed
/// of surrounding whitespace, at parse time and at build time alike.
pub proof fn lemma_variable_round_trip(
    vars: Map<Seq<u8>, Seq<u8>>,
    name: Seq<u8>,
    value: Seq<u8>,
    mode: ModeModel,
    shells: Seq<Seq<u8>>,
    k: int,
)
    requires
        forall|j: int| 0 <= j < name.len() ==> name[j] != DOLLAR && name[j] != HASH && name[j]
            != RPAREN,
        !is_shell_name(name),
    ensures
        ref_step(seq![LPAREN] + name + seq![RPAREN], 0, vars.insert(name, value), mode, shells, k)
            == (StepModel::Text {
            bytes: (name.len() + 2) as nat,
            used: 0,
            text: trimmed(value),
        }),
{
    let s = seq![LPAREN] + name + seq![RPAREN];
    assert(s[0] == LPAREN);
    assert(s[s.len() - 1] == RPAREN);
    assert(forall|j: int| 1 <= j < s.len() - 1 ==> s[j] == name[j - 1]);
    lemma_bracket_plain(s, 1, s.len() - 1, RPAREN, vars.insert(name, value), mode, shells, k);
    assert(s.subrange(1, s.len() - 1) =~= name);
    assert(lookup_value(vars.insert(name, value), name) == trimmed(value));
}

/// The outcome of expanding a whole line.
pub ghost enum LineModel {
    Done { text: Seq<u8> },
    Shell { cmd: Seq<u8> },
    Fail { err: MakeErrorModel },
}

/// Expand `s[i..]` to its end, resolving every `$` reference.
pub open spec fn line_step(
    s: Seq<u8>,
    i: int,
    vars: Map<Seq<u8>, Seq<u8>>,
    mode: ModeModel,
    shells: Seq<Seq<u8>>,
    k: int,
) -> LineModel
    decreases s.len() - i, 2int,
{
    if i < 0 || i >= s.len() {
        LineModel::Done { text: seq![] }
    } else if s[i] == DOLLAR {
        match ref_step(s, i + 1, vars, mode, shells, k) {
            StepModel::Text { bytes: n, used: m, text: txt } => {
                if i + 1 + n <= s.len() {
                    match line_step(s, i + 1 + n, vars, mode, shells, k + m) {
                        LineModel::Done { text: rest } => LineModel::Done { text: txt + rest },
                        other => other,
                    }
                } else {
                    LineModel::Fail { err: MakeErrorModel::UnexpectedEnd }
                }
            },
            StepModel::Shell { cmd } => LineModel::Shell { cmd },
            StepModel::Fail { err } => LineModel::Fail { err },
        }
    } else {
        match line_step(s, i + 1, vars, mode, shells, k) {
            LineModel::Done { text: rest } => LineModel::Done { text: seq![s[i]] + rest },
            other => other,
        }
    }
}

/// Expansion mode: parse time, or build time against one rule's target
/// and prerequisites.
#[derive(Clone, Copy)]
pub enum Mode<'a> {
    Parse,
    Build(&'a Vec<u8>, &'a Vec<Vec<u8>>),
}

/// The abstract mode an exec [`Mode`] stands for.
pub open spec fn mode_view(m: Mode) -> ModeModel {
    match m {
        Mode::Parse => ModeModel::Parse,
        Mode::Build(t, p) => ModeModel::Build { target: t@, prereqs: p.deep_view() },
    }
}

/// The outcome of resolving a piece of input, executable form.
pub enum ExpandStep {
    Text(usize, usize, Vec<u8>),
    Shell(Vec<u8>),
    Fail(MakeError),
}

impl View for ExpandStep {
    type V = StepModel;

    open spec fn view(&self) -> StepModel {
        match self {
            ExpandStep::Text(n, m, v) => StepModel::Text {
                bytes: *n as nat,
                used: *m as nat,
                text: v@,
            },
            ExpandStep::Shell(c) => StepModel::Shell { cmd: c@ },
            ExpandStep::Fail(e) => StepModel::Fail { err: e@ },
        }
    }
}

/// The prerequisites joined with single spaces.
pub fn join_whitespace(parts: &Vec<Vec<u8>>) -> (r: Vec<u8>)
    ensures
        r@ == join_spaces(parts.deep_view()),
{
    let mut out: Vec<u8> = Vec::new();
    if parts.len() == 0 {
        proof {
            assert(out@ =~= join_spaces(parts.deep_view()));
        }
        return out;
    }
    let mut first = crate::text::copy_vec(&parts[0]);
    out.append(&mut first);
    proof {
        assert(out@ =~= parts.deep_view()[0]);
    }
    let mut i: usize = 1;
    while i < parts.len()
        invariant
            1 <= i <= parts@.len(),
            parts@.len() > 0,
            out@ + join_tail(parts.deep_view(), i as int) == join_spaces(parts.deep_view()),
        decreases parts@.len() - i,
    {
        let ghost prev = out@;
        out.push(SPACE);
        let mut part = crate::text::copy_vec(&parts[i]);
        out.append(&mut part);
        proof {
            assert(out@ =~= prev + (seq![SPACE] + parts.deep_view()[i as int]));
            assert(prev + (seq![SPACE] + parts.deep_view()[i as int]) + join_tail(
                parts.deep_view(),
                i + 1 as int,
            ) =~= prev + join_tail(parts.deep_view(), i as int));
        }
        i = i + 1;
    }
    out
}

/// The bytes of `shell ` (the word and one space).
fn shell_prefix_bytes() -> (r: Vec<u8>)
    ensures
        r@ == shell_prefix(),
{
    let mut v: Vec<u8> = Vec::new();
    v.push(115);
    v.push(104);
    v.push(101);
    v.push(108);
    v.push(108);
    v.push(32);
    proof {
        assert(v@ =~= shell_prefix());
    }
    v
}

/// Resolve a fully-read bracketed name: either the `shell` command to run
/// or the looked-up value.
fn resolve_name(name: &Vec<u8>, vars: &VarStore) -> (r: Result<Vec<u8>, Vec<u8>>)
    ensures
        match r {
            Ok(v) => !is_shell_name(name@) && v@ == lookup_value(vars@, name@),
            Err(cmd) => is_shell_name(name@) && cmd@ == name@.skip(6),
        },
{
    let prefix = shell_prefix_bytes();
    if starts_with(name.as_slice(), prefix.as_slice()) {
        let cmd = sub_vec(name.as_slice(), 6, name.len());
        proof {
            assert(cmd@ =~= name@.skip(6));
        }
        Err(cmd)
    } else {
        match vars.get(name.as_slice()) {
            Some(v) => Ok(trim(v.as_slice())),
            None => Ok(Vec::new()),
        }
    }
}

/// Resolve the single reference starting at `s[i]`, just after a `$`.
pub fn ref_run(
    s: &[u8],
    i: usize,
    vars: &VarStore,
    mode: Mode,
    shells: &Vec<Vec<u8>>,
    k: usize,
) -> (r: ExpandStep)
    requires
        k <= shells@.len(),
    ensures
        r@ == ref_step(s@, i as int, vars@, mode_view(mode), shells.deep_view(), k as int),
        match r {
            ExpandStep::Text(n, m, _) => 1 <= n && i + n <= s@.len() && k + m <= shells@.len(),
            _ => true,
        },
    decreases s@.len() - i, 1int,
{
    if i >= s.len() {
        return ExpandStep::Fail(MakeError::UnexpectedEnd);
    }
    let c = s[i];
    if c == AT || c == QUERY || c == LESS {
        let text = match mode {
            Mode::Parse => {
                let mut v: Vec<u8> = Vec::new();
                v.push(DOLLAR);
                v.push(c);
                proof {
                    assert(v@ =~= seq![DOLLAR, c]);
                }
                v
            },
            Mode::Build(target, prereqs) => {
                if c == AT {
                    crate::text::copy_vec(target)
                } else {
                    join_whitespace(prereqs)
                }
            },
        };
        ExpandStep::Text(1, 0, text)
    } else if c == DOLLAR {
        let mut v: Vec<u8> = Vec::new();
        v.push(DOLLAR);
        proof {
            assert(v@ =~= seq![DOLLAR]);
        }
        ExpandStep::Text(1, 0, v)
    } else if c == LPAREN || c == LBRACE {
        let close = if c == LPAREN {
            RPAREN
        } else {
            RBRACE
        };
        match bracket_run(s, i + 1, close, vars, mode, shells, k) {
            ExpandStep::Text(n, m, name) => {
                match resolve_name(&name, vars) {
                    Ok(v) => ExpandStep::Text(n + 1, m, v),
                    Err(cmd) => {
                        let cap = shells.len();
                        if k + m < cap {
                            let cleaned = shell_output_clean(&shells[k + m]);
                            proof {
                                assert(shells.deep_view()[k + m as int] =~= shells@[k
                                    + m as int]@);
                            }
                            ExpandStep::Text(n + 1, m + 1, cleaned)
                        } else {
                            ExpandStep::Shell(cmd)
                        }
                    },
                }
            },
            other => other,
        }
    } else {
        ExpandStep::Fail(MakeError::UnknownEscape(c))
    }
}

/// Read bracketed reference text from `s[i]` up to `close`, expanding
/// nested references.
pub fn bracket_run(
    s: &[u8],
    i: usize,
    close: u8,
    vars: &VarStore,
    mode: Mode,
    shells: &Vec<Vec<u8>>,
    k: usize,
) -> (r: ExpandStep)
    requires
        k <= shells@.len(),
    ensures
        r@ == bracket_step(s@, i as int, close, vars@, mode_view(mode), shells.deep_view(), k as int),
        match r {
            ExpandStep::Text(n, m, _) => 1 <= n && i + n <= s@.len() && k + m <= shells@.len(),
            _ => true,
        },
    decreases s@.len() - i, 0int,
{
    if i >= s.len() {
        return ExpandStep::Fail(MakeError::UnexpectedEnd);
    }
    let c = s[i];
    if c == HASH {
        ExpandStep::Fail(MakeError::Syntax)
    } else if c == DOLLAR {
        match ref_run(s, i + 1, vars, mode, shells, k) {
            ExpandStep::Text(n, m, txt) => {
                // reading the length lets the checker bound k + m below
                let _shell_count = shells.len();
                match bracket_run(s, i + 1 + n, close, vars, mode, shells, k + m) {
                    ExpandStep::Text(n2, m2, rest) => {
                        let mut out = txt;
                        let mut rest_v = rest;
                        out.append(&mut rest_v);
                        ExpandStep::Text(1 + n + n2, m + m2, out)
                    },
                    other => other,
                }
            },
            other => other,
        }
    } else if c == close {
        ExpandStep::Text(1, 0, Vec::new())
    } else {
        match bracket_run(s, i + 1, close, vars, mode, shells, k) {
            ExpandStep::Text(n, m, rest) => {
                let ghost rest_view = rest@;
                let mut out: Vec<u8> = Vec::new();
                out.push(c);
                let mut rest_v = rest;
                out.append(&mut rest_v);
                proof {
                    assert(out@ =~= seq![c] + rest_view);
                }
                ExpandStep::Text(n + 1, m, out)
            },
            other => other,
        }
    }
}

/// The outcome of expanding a whole line, executable form.
pub enum ExpandLine {
    Done(Vec<u8>),
    Shell(Vec<u8>),
    Fail(MakeError),
}

impl View for ExpandLine {
    type V = LineModel;

    open spec fn view(&self) -> LineModel {
        match self {
            ExpandLine::Done(v) => LineModel::Done { text: v@ },
            ExpandLine::Shell(c) => LineModel::Shell { cmd: c@ },
            ExpandLine::Fail(e) => LineModel::Fail { err: e@ },
        }
    }
}

/// Expand `s[i..]` to its end, resolving every `$` reference.
pub fn line_run(
    s: &[u8],
    i: usize,
    vars: &VarStore,
    mode: Mode,
    shells: &Vec<Vec<u8>>,
    k: usize,
) -> (r: ExpandLine)
    requires
        k <= shells@.len(),
    ensures
        r@ == line_step(s@, i as int, vars@, mode_view(mode), shells.deep_view(), k as int),
    decreases s@.len() - i, 2int,
{
    if i >= s.len() {
        return ExpandLine::Done(Vec::new());
    }
    let c = s[i];
    if c == DOLLAR {
        match ref_run(s, i + 1, vars, mode, shells, k) {
            ExpandStep::Text(n, m, txt) => {
                // reading the length lets the checker bound k + m below
                let _shell_count = shells.len();
                match line_run(s, i + 1 + n, vars, mode, shells, k + m) {
                    ExpandLine::Done(rest) => {
                        let mut out = txt;
                        let mut rest_v = rest;
                        out.append(&mut rest_v);
                        ExpandLine::Done(out)
                    },
                    other => other,
                }
            },
            ExpandStep::Shell(cmd) => ExpandLine::Shell(cmd),
            ExpandStep::Fail(e) => ExpandLine::Fail(e),
        }
    } else {
        match line_run(s, i + 1, vars, mode, shells, k) {
            ExpandLine::Done(rest) => {
                let ghost rest_view = rest@;
                let mut out: Vec<u8> = Vec::new();
                out.push(c);
                let mut rest_v = rest;
                out.append(&mut rest_v);
                proof {
                    assert(out@ =~= seq![c] + rest_view);
                }
                ExpandLine::Done(out)
            },
            other => other,
        }
    }
}

/// Expand one recipe line at build time, against the rule's target and
/// prerequisites.  `shells` holds the outputs of the `shell` commands the
/// caller has already run for this line, in order; a `Shell` result names
/// the next command whose output is missing, and the caller runs it,
/// appends the output to `shells`, and calls again.
pub fn expand_recipe_line(
    line: &Vec<u8>,
    vars: &VarStore,
    target: &Vec<u8>,
    prereqs: &Vec<Vec<u8>>,
    shells: &Vec<Vec<u8>>,
) -> (r: ExpandLine)
    ensures
        r@ == line_step(
            line@,
            0,
            vars@,
            ModeModel::Build { target: target@, prereqs: prereqs.deep_view() },
            shells.deep_view(),
            0,
        ),
{
    line_run(line.as_slice(), 0, vars, Mode::Build(target, prereqs), shells, 0)
}

/// The command actually run for an expanded recipe line: the line trimmed
/// of surrounding whitespace, with one leading `@` (and whitespace after
/// it) removed.
pub open spec fn stripped_cmd(s: Seq<u8>) -> Seq<u8> {
    if trimmed(s).len() > 0 && trimmed(s)[0] == AT {
        trimmed(trimmed(s).drop_first())
    } else {
        trimmed(s)
    }
}

/// Does the line start with `@`, suppressing its echo?
pub open spec fn is_quiet_line(s: Seq<u8>) -> bool {
    trimmed(s).len() > 0 && trimmed(s)[0] == AT
}

/// Turn an expanded recipe line into the command to hand to the shell and
/// the decision whether to echo it first: echo unless the global silent
/// flag is set or the line carries a leading `@`.
pub fn prepare_recipe_line(expanded: &Vec<u8>, silent: bool) -> (r: (Vec<u8>, bool))
    ensures
        r.0@ == stripped_cmd(expanded@),
        r.1 == (!silent && !is_quiet_line(expanded@)),
{
    let t = trim(expanded.as_slice());
    if t.len() > 0 && t[0] == AT {
        let rest = sub_vec(t.as_slice(), 1, t.len());
        proof {
            assert(rest@ =~= t@.drop_first());
        }
        (trim(rest.as_slice()), false)
    } else {
        (t, !silent)
    }
}

/// A shell output as expansion text: newlines stripped, then trimmed.
pub fn shell_output_clean(out: &Vec<u8>) -> (r: Vec<u8>)
    ensures
        r@ == shell_clean(out@),
{
    let mut kept: Vec<u8> = Vec::new();
    let mut i: usize = 0;
    proof {
        assert(out@.skip(0) =~= out@);
    }
    while i < out.len()
        invariant
            i <= out@.len(),
            kept@ + strip_newlines(out@.skip(i as int)) == strip_newlines(out@),
        decreases out@.len() - i,
    {
        let ghost prev = kept@;
        let ghost rest = out@.skip(i as int);
        proof {
            assert(rest[0] == out@[i as int]);
            assert(rest.drop_first() =~= out@.skip(i + 1 as int));
        }
        if out[i] != NEWLINE {
            kept.push(out[i]);
            proof {
                assert(prev + (seq![out@[i as int]] + strip_newlines(out@.skip(i + 1 as int)))
                    =~= kept@ + strip_newlines(out@.skip(i + 1 as int)));
            }
        }
        i = i + 1;
    }
    proof {
        assert(out@.skip(out@.len() as int) =~= Seq::<u8>::empty());
        assert(kept@ + seq![] =~= kept@);
    }
    trim(kept.as_slice())
}

} // verus!
