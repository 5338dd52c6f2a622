//! The makefile parser: a character-level state machine that turns
//! makefile text into variable-store entries and raw rules.
//!
//! The machine owns a stack of input frames (one per makefile text being
//! read; reading another file's text pushes a frame).  It cannot read
//! files or run commands itself: when it meets the directive that pulls in
//! another makefile it stops and asks the caller for that file's text, and
//! when a `$(shell ...)` reference needs a command's output it stops and
//! asks for that.  The caller answers with [`MakeFileLoader::provide_file`]
//! / [`MakeFileLoader::file_unavailable`] or
//! [`MakeFileLoader::provide_shell`], and parsing resumes exactly where it
//! stopped.
//!
//! One abstract step of the machine is [`loader_step`]; everything the
//! executable code does is proved equal to a chain of these steps.

use vstd::prelude::*;

use crate::errors::{MakeError, MakeErrorModel};
use crate::expand::{ref_step, ModeModel, StepModel, DOLLAR, HASH, NEWLINE, SPACE};
use crate::makefile::{merge_raw_rules, raw_rules_view, MakeFile, RawRule, RawRuleModel};
use crate::text::{has_prefix, split_spaces, trimmed};
use crate::vars::VarStore;

verus! {

/// `:`
pub const COLON: u8 = 58;

/// `=`
pub const EQUALS: u8 = 61;

/// Horizontal tab, the recipe-line marker.
pub const TAB: u8 = 9;

/// `\`
pub const BACKSLASH: u8 = 92;

/// The bytes of the keyword `else`.
pub open spec fn kw_else() -> Seq<u8> {
    seq![101, 108, 115, 101]
}

/// The bytes of the keyword `endif`.
pub open spec fn kw_endif() -> Seq<u8> {
    seq![101, 110, 100, 105, 102]
}

/// The bytes of `ifdef ` (the keyword and one space).
pub open spec fn kw_ifdef() -> Seq<u8> {
    seq![105, 102, 100, 101, 102, 32]
}

/// The bytes of `ifndef ` (the keyword and one space).
pub open spec fn kw_ifndef() -> Seq<u8> {
    seq![105, 102, 110, 100, 101, 102, 32]
}

/// The bytes of the directive that reads another makefile: the word
/// spelled from the bytes below, then one space.
pub open spec fn kw_use_file() -> Seq<u8> {
    seq![105, 110, 99, 108, 117, 100, 101, 32]
}

/// The optional form of the file directive: the same word preceded by `-`.
pub open spec fn kw_use_file_opt() -> Seq<u8> {
    seq![45, 105, 110, 99, 108, 117, 100, 101, 32]
}

/// Abstract parser state: what the scan is accumulating right now.
#[verifier::ext_equal]
pub ghost enum PStateModel {
    /// Gathering left-hand text: a target list, a variable name, or a
    /// directive line, decided when `:`, `=` or the newline arrives.
    Left(Seq<u8>),
    /// After `=`, `:=` or `::=`: gathering the value of the named variable.
    RightVariable(Seq<u8>, Seq<u8>),
    /// After `:` on a target line: the target names, and the prerequisite
    /// text being gathered.
    RightRule(Seq<Seq<u8>>, Seq<u8>),
    /// Gathering tab-indented recipe lines: targets, prerequisites, the
    /// finished lines, and the line in progress.
    Recipes(Seq<Seq<u8>>, Seq<Seq<u8>>, Seq<Seq<u8>>, Seq<u8>),
}

/// Parser state, executable form.
pub enum PState {
    Left(Vec<u8>),
    RightVariable(Vec<u8>, Vec<u8>),
    RightRule(Vec<Vec<u8>>, Vec<u8>),
    Recipes(Vec<Vec<u8>>, Vec<Vec<u8>>, Vec<Vec<u8>>, Vec<u8>),
}

impl View for PState {
    type V = PStateModel;

    open spec fn view(&self) -> PStateModel {
        match self {
            PState::Left(b) => PStateModel::Left(b@),
            PState::RightVariable(n, v) => PStateModel::RightVariable(n@, v@),
            PState::RightRule(ts, p) => PStateModel::RightRule(ts.deep_view(), p@),
            PState::Recipes(ts, ps, rs, w) => PStateModel::Recipes(
                ts.deep_view(),
                ps.deep_view(),
                rs.deep_view(),
                w@,
            ),
        }
    }
}

/// One input frame: a makefile text, the scan position in it, the live
/// parser state, and the conditional stack (`true` = emitting; the bottom
/// sentinel is always `true`).
#[verifier::ext_equal]
pub ghost struct FrameModel {
    pub text: Seq<u8>,
    pub pos: int,
    pub state: PStateModel,
    pub skip: Seq<bool>,
}

/// Input frame, executable form.
pub struct Frame {
    pub text: Vec<u8>,
    pub pos: usize,
    pub state: PState,
    pub skip: Vec<bool>,
}

impl View for Frame {
    type V = FrameModel;

    open spec fn view(&self) -> FrameModel {
        FrameModel { text: self.text@, pos: self.pos as int, state: self.state@, skip: self.skip@ }
    }
}

/// Abstract state of the whole loader.
#[verifier::ext_equal]
pub ghost struct LoaderModel {
    /// The variable store filled so far.
    pub vars: Map<Seq<u8>, Seq<u8>>,
    /// The raw rules emitted so far, in file order.
    pub rules: Seq<RawRuleModel>,
    /// The stack of input frames; the last is being read.
    pub frames: Seq<FrameModel>,
    /// The outputs of the `shell` commands already run for the reference
    /// currently being resolved, in order.
    pub shells: Seq<Seq<u8>>,
}

/// What the loader asks the caller for.
#[verifier::ext_equal]
pub ghost enum EventModel {
    /// Run this command line through the shell and hand back its output.
    Shell { cmd: Seq<u8> },
    /// Open this makefile and hand back its text; when `optional`, a
    /// missing file is silently skipped instead of failing.
    File { name: Seq<u8>, optional: bool },
}

/// The effect of one abstract step.
#[verifier::ext_equal]
pub ghost enum StepOutcome {
    /// The machine moved to this state.
    Next(LoaderModel),
    /// The machine needs an answer from the caller; its state is unchanged.
    Event(EventModel),
    /// All input is consumed and the machine is in a clean state.
    Done,
    /// Parsing cannot go on.
    Fail(MakeErrorModel),
}

/// The position of the newline that ends the line containing `i`, or the
/// end of the text.
pub open spec fn line_end(s: Seq<u8>, i: int) -> int
    decreases s.len() - i,
{
    if i >= s.len() {
        s.len() as int
    } else if s[i] == NEWLINE {
        i
    } else {
        line_end(s, i + 1)
    }
}

/// The position after any run of blank lines and comment-only lines
/// starting at `i`, or `None` when the text ends inside such a comment.
pub open spec fn skip_blank(s: Seq<u8>, i: int) -> Option<int>
    decreases s.len() - i,
{
    if i >= s.len() {
        Some(i)
    } else if s[i] == NEWLINE {
        skip_blank(s, i + 1)
    } else if s[i] == HASH {
        let j = line_end(s, i + 1);
        if j >= s.len() {
            None
        } else if j > i {
            skip_blank(s, j)
        } else {
            None
        }
    } else {
        Some(i)
    }
}

/// `st` with `t` appended to whichever buffer is live.
pub open spec fn state_append(st: PStateModel, t: Seq<u8>) -> PStateModel {
    match st {
        PStateModel::Left(b) => PStateModel::Left(b + t),
        PStateModel::RightVariable(n, v) => PStateModel::RightVariable(n, v + t),
        PStateModel::RightRule(ts, p) => PStateModel::RightRule(ts, p + t),
        PStateModel::Recipes(ts, ps, rs, w) => PStateModel::Recipes(ts, ps, rs, w + t),
    }
}

/// `m` with its top frame replaced.
pub open spec fn set_top(m: LoaderModel, f: FrameModel) -> LoaderModel {
    LoaderModel { frames: m.frames.update(m.frames.len() - 1, f), ..m }
}

/// The step taken for an `ifdef`/`ifndef` line: the name may be a single
/// macro reference, expanded before the lookup; the new conditional level
/// emits when the name is bound (`ifdef`) or unbound (`ifndef`).
pub open spec fn ifdef_step(m: LoaderModel, f: FrameModel, rhs_raw: Seq<u8>, negate: bool) -> StepOutcome {
    let rhs = trimmed(rhs_raw);
    if rhs.len() > 0 && rhs[0] == DOLLAR {
        match ref_step(rhs, 1, m.vars, ModeModel::Parse, m.shells, 0) {
            StepModel::Text { bytes, used, text } => push_cond(m, f, text, negate),
            StepModel::Shell { cmd } => StepOutcome::Event(EventModel::Shell { cmd }),
            StepModel::Fail { err } => StepOutcome::Fail(err),
        }
    } else {
        push_cond(m, f, rhs, negate)
    }
}

/// Consume the conditional line and push the new level.
pub open spec fn push_cond(m: LoaderModel, f: FrameModel, name: Seq<u8>, negate: bool) -> StepOutcome {
    let emit = if negate {
        !m.vars.dom().contains(name)
    } else {
        m.vars.dom().contains(name)
    };
    StepOutcome::Next(
        LoaderModel {
            shells: seq![],
            ..set_top(
                m,
                FrameModel {
                    pos: f.pos + 1,
                    state: PStateModel::Left(seq![]),
                    skip: f.skip.push(emit),
                    ..f
                },
            )
        },
    )
}

/// The step taken at the newline that ends a rule's target line or one of
/// its recipe lines: skip blank and comment-only lines; a tab begins (or
/// continues) the recipe block, anything else emits the raw rule.
pub open spec fn rule_end_step(
    m: LoaderModel,
    f: FrameModel,
    targets: Seq<Seq<u8>>,
    prereqs: Seq<Seq<u8>>,
    recipes: Seq<Seq<u8>>,
) -> StepOutcome {
    match skip_blank(f.text, f.pos + 1) {
        None => StepOutcome::Fail(MakeErrorModel::UnexpectedEnd),
        Some(j) => {
            if j < f.text.len() && f.text[j] == TAB {
                StepOutcome::Next(
                    set_top(
                        m,
                        FrameModel {
                            pos: j + 1,
                            state: PStateModel::Recipes(targets, prereqs, recipes, seq![]),
                            ..f
                        },
                    ),
                )
            } else {
                StepOutcome::Next(
                    LoaderModel {
                        rules: m.rules.push(RawRuleModel { targets, prereqs, recipes }),
                        ..set_top(
                            m,
                            FrameModel { pos: j, state: PStateModel::Left(seq![]), ..f },
                        )
                    },
                )
            }
        },
    }
}

/// One abstract step of the parser.
pub open spec fn loader_step(m: LoaderModel) -> StepOutcome {
    if m.frames.len() == 0 {
        StepOutcome::Done
    } else {
        let f = m.frames.last();
        if f.pos >= f.text.len() {
            // this input is exhausted
            if f.skip.len() != 1 {
                StepOutcome::Fail(MakeErrorModel::MismatchedConditional)
            } else {
                match f.state {
                    PStateModel::Left(b) => if trimmed(b).len() == 0 {
                        StepOutcome::Next(LoaderModel { frames: m.frames.drop_last(), ..m })
                    } else {
                        StepOutcome::Fail(MakeErrorModel::UnexpectedEnd)
                    },
                    _ => StepOutcome::Fail(MakeErrorModel::UnexpectedEnd),
                }
            }
        } else {
            let c = f.text[f.pos];
            let skipping = f.skip.len() > 0 && !f.skip.last();
            if skipping {
                // a skipped line is only inspected for bare else/endif
                let j = line_end(f.text, f.pos);
                let lt = trimmed(f.text.subrange(f.pos, j));
                let newpos = if j < f.text.len() {
                    j + 1
                } else {
                    j
                };
                if lt == kw_else() {
                    StepOutcome::Next(
                        set_top(
                            m,
                            FrameModel {
                                pos: newpos,
                                skip: f.skip.update(f.skip.len() - 1, true),
                                ..f
                            },
                        ),
                    )
                } else if lt == kw_endif() {
                    if f.skip.len() <= 1 {
                        StepOutcome::Fail(MakeErrorModel::MismatchedConditional)
                    } else {
                        StepOutcome::Next(
                            set_top(m, FrameModel { pos: newpos, skip: f.skip.drop_last(), ..f }),
                        )
                    }
                } else {
                    StepOutcome::Next(set_top(m, FrameModel { pos: newpos, ..f }))
                }
            } else if c == HASH {
                // comment: discard up to, but not including, the newline
                StepOutcome::Next(set_top(m, FrameModel { pos: line_end(f.text, f.pos), ..f }))
            } else if c == DOLLAR {
                match ref_step(f.text, f.pos + 1, m.vars, ModeModel::Parse, m.shells, 0) {
                    StepModel::Text { bytes, used, text } => StepOutcome::Next(
                        LoaderModel {
                            shells: seq![],
                            ..set_top(
                                m,
                                FrameModel {
                                    pos: f.pos + 1 + bytes,
                                    state: state_append(f.state, text),
                                    ..f
                                },
                            )
                        },
                    ),
                    StepModel::Shell { cmd } => StepOutcome::Event(EventModel::Shell { cmd }),
                    StepModel::Fail { err } => StepOutcome::Fail(err),
                }
            } else if c == COLON {
                match f.state {
                    PStateModel::Left(b) => {
                        if f.pos + 1 < f.text.len() && f.text[f.pos + 1] == COLON {
                            if f.pos + 2 < f.text.len() && f.text[f.pos + 2] == EQUALS {
                                StepOutcome::Next(
                                    set_top(
                                        m,
                                        FrameModel {
                                            pos: f.pos + 3,
                                            state: PStateModel::RightVariable(b, seq![]),
                                            ..f
                                        },
                                    ),
                                )
                            } else {
                                StepOutcome::Fail(MakeErrorModel::Syntax)
                            }
                        } else if f.pos + 1 < f.text.len() && f.text[f.pos + 1] == EQUALS {
                            StepOutcome::Next(
                                set_top(
                                    m,
                                    FrameModel {
                                        pos: f.pos + 2,
                                        state: PStateModel::RightVariable(b, seq![]),
                                        ..f
                                    },
                                ),
                            )
                        } else {
                            StepOutcome::Next(
                                set_top(
                                    m,
                                    FrameModel {
                                        pos: f.pos + 1,
                                        state: PStateModel::RightRule(split_spaces(b), seq![]),
                                        ..f
                                    },
                                ),
                            )
                        }
                    },
                    PStateModel::RightVariable(_, _) => StepOutcome::Next(
                        set_top(
                            m,
                            FrameModel {
                                pos: f.pos + 1,
                                state: state_append(f.state, seq![COLON]),
                                ..f
                            },
                        ),
                    ),
                    PStateModel::Recipes(_, _, _, _) => StepOutcome::Next(
                        set_top(
                            m,
                            FrameModel {
                                pos: f.pos + 1,
                                state: state_append(f.state, seq![COLON]),
                                ..f
                            },
                        ),
                    ),
                    PStateModel::RightRule(_, _) => StepOutcome::Fail(MakeErrorModel::Syntax),
                }
            } else if c == EQUALS {
                match f.state {
                    PStateModel::Left(b) => StepOutcome::Next(
                        set_top(
                            m,
                            FrameModel {
                                pos: f.pos + 1,
                                state: PStateModel::RightVariable(b, seq![]),
                                ..f
                            },
                        ),
                    ),
                    PStateModel::RightVariable(_, _) => StepOutcome::Next(
                        set_top(
                            m,
                            FrameModel {
                                pos: f.pos + 1,
                                state: state_append(f.state, seq![EQUALS]),
                                ..f
                            },
                        ),
                    ),
                    PStateModel::Recipes(_, _, _, _) => StepOutcome::Next(
                        set_top(
                            m,
                            FrameModel {
                                pos: f.pos + 1,
                                state: state_append(f.state, seq![EQUALS]),
                                ..f
                            },
                        ),
                    ),
                    PStateModel::RightRule(_, _) => StepOutcome::Fail(MakeErrorModel::Syntax),
                }
            } else if c == BACKSLASH {
                if f.pos + 1 >= f.text.len() {
                    StepOutcome::Fail(MakeErrorModel::UnexpectedEnd)
                } else if f.text[f.pos + 1] == NEWLINE {
                    // line continuation: one space joins the logical line
                    StepOutcome::Next(
                        set_top(
                            m,
                            FrameModel {
                                pos: f.pos + 2,
                                state: state_append(f.state, seq![SPACE]),
                                ..f
                            },
                        ),
                    )
                } else {
                    StepOutcome::Next(
                        set_top(
                            m,
                            FrameModel {
                                pos: f.pos + 2,
                                state: state_append(
                                    f.state,
                                    seq![BACKSLASH, f.text[f.pos + 1]],
                                ),
                                ..f
                            },
                        ),
                    )
                }
            } else if c == NEWLINE {
                match f.state {
                    PStateModel::Left(b) => {
                        let t = trimmed(b);
                        if t.len() == 0 {
                            StepOutcome::Next(
                                set_top(
                                    m,
                                    FrameModel {
                                        pos: f.pos + 1,
                                        state: PStateModel::Left(seq![]),
                                        ..f
                                    },
                                ),
                            )
                        } else if has_prefix(t, kw_use_file()) {
                            StepOutcome::Event(
                                EventModel::File { name: trimmed(t.skip(8)), optional: false },
                            )
                        } else if has_prefix(t, kw_use_file_opt()) {
                            StepOutcome::Event(
                                EventModel::File { name: trimmed(t.skip(9)), optional: true },
                            )
                        } else if has_prefix(t, kw_ifdef()) {
                            ifdef_step(m, f, t.skip(5), false)
                        } else if has_prefix(t, kw_ifndef()) {
                            ifdef_step(m, f, t.skip(6), true)
                        } else if t == kw_else() {
                            if f.skip.len() <= 1 {
                                StepOutcome::Fail(MakeErrorModel::MismatchedConditional)
                            } else {
                                StepOutcome::Next(
                                    set_top(
                                        m,
                                        FrameModel {
                                            pos: f.pos + 1,
                                            state: PStateModel::Left(seq![]),
                                            skip: f.skip.update(f.skip.len() - 1, false),
                                            ..f
                                        },
                                    ),
                                )
                            }
                        } else if t == kw_endif() {
                            if f.skip.len() <= 1 {
                                StepOutcome::Fail(MakeErrorModel::MismatchedConditional)
                            } else {
                                StepOutcome::Next(
                                    set_top(
                                        m,
                                        FrameModel {
                                            pos: f.pos + 1,
                                            state: PStateModel::Left(seq![]),
                                            skip: f.skip.drop_last(),
                                            ..f
                                        },
                                    ),
                                )
                            }
                        } else {
                            StepOutcome::Fail(MakeErrorModel::Syntax)
                        }
                    },
                    PStateModel::RightVariable(n, v) => StepOutcome::Next(
                        LoaderModel {
                            vars: m.vars.insert(trimmed(n), v),
                            ..set_top(
                                m,
                                FrameModel {
                                    pos: f.pos + 1,
                                    state: PStateModel::Left(seq![]),
                                    ..f
                                },
                            )
                        },
                    ),
                    PStateModel::RightRule(ts, pracc) => rule_end_step(
                        m,
                        f,
                        ts,
                        split_spaces(pracc),
                        seq![],
                    ),
                    PStateModel::Recipes(ts, ps, rs, w) => rule_end_step(m, f, ts, ps, rs.push(w)),
                }
            } else {
                StepOutcome::Next(
                    set_top(
                        m,
                        FrameModel {
                            pos: f.pos + 1,
                            state: state_append(f.state, seq![c]),
                            ..f
                        },
                    ),
                )
            }
        }
    }
}

/// Well-formedness of an input stack: every frame's position is inside
/// its text and every conditional stack is non-empty.
pub open spec fn frames_wf(frames: Seq<FrameModel>) -> bool {
    forall|i: int|
        0 <= i < frames.len() ==> {
            &&& 0 <= #[trigger] frames[i].pos <= frames[i].text.len()
            &&& frames[i].skip.len() >= 1
        }
}

/// Well-formedness of a loader state.
pub open spec fn wf_model(m: LoaderModel) -> bool {
    frames_wf(m.frames)
}

/// Replacing the last frame by a well-formed one keeps the stack
/// well-formed.
pub proof fn lemma_wf_update(frames: Seq<FrameModel>, f2: FrameModel)
    requires
        frames_wf(frames),
        frames.len() > 0,
        0 <= f2.pos <= f2.text.len(),
        f2.skip.len() >= 1,
    ensures
        frames_wf(frames.update(frames.len() - 1, f2)),
{
    let upd = frames.update(frames.len() - 1, f2);
    assert forall|i: int| 0 <= i < upd.len() implies (0 <= #[trigger] upd[i].pos
        <= upd[i].text.len() && upd[i].skip.len() >= 1) by {
        if i < frames.len() - 1 {
            assert(upd[i] == frames[i]);
            assert(0 <= frames[i].pos <= frames[i].text.len() && frames[i].skip.len() >= 1);
        } else {
            assert(upd[i] == f2);
        }
    }
}

/// How much scanning is left: the unread bytes of every frame, plus one
/// per frame for its final pop.  Every silent step strictly decreases it.
pub open spec fn frames_measure(frames: Seq<FrameModel>) -> int
    decreases frames.len(),
{
    if frames.len() == 0 {
        0
    } else {
        frames_measure(frames.drop_last()) + (frames.last().text.len() - frames.last().pos) + 1
    }
}

/// `b` is reached from `a` by exactly `k` silent steps.
pub open spec fn silent_reaches(a: LoaderModel, b: LoaderModel, k: nat) -> bool
    decreases k,
{
    if k == 0 {
        a == b
    } else {
        match loader_step(a) {
            StepOutcome::Next(m2) => silent_reaches(m2, b, (k - 1) as nat),
            _ => false,
        }
    }
}

/// Appending one more silent step to a silent chain.
pub proof fn lemma_reach_step(a: LoaderModel, b: LoaderModel, c: LoaderModel, k: nat)
    requires
        silent_reaches(a, b, k),
        loader_step(b) == StepOutcome::Next(c),
    ensures
        silent_reaches(a, c, k + 1),
    decreases k,
{
    if k == 0 {
        assert(silent_reaches(c, c, 0));
        assert(silent_reaches(a, c, 1));
    } else {
        match loader_step(a) {
            StepOutcome::Next(m2) => {
                lemma_reach_step(m2, b, c, (k - 1) as nat);
                assert(silent_reaches(a, c, k + 1));
            },
            _ => {},
        }
    }
}

/// With well-formed frames the measure is never negative.
proof fn lemma_measure_nonneg(frames: Seq<FrameModel>)
    requires
        forall|i: int|
            0 <= i < frames.len() ==> 0 <= #[trigger] frames[i].pos <= frames[i].text.len(),
    ensures
        frames_measure(frames) >= 0,
    decreases frames.len(),
{
    if frames.len() > 0 {
        lemma_measure_nonneg(frames.drop_last());
    }
}

/// The measure after replacing the last frame.
proof fn lemma_measure_update(frames: Seq<FrameModel>, f2: FrameModel)
    requires
        frames.len() > 0,
    ensures
        frames_measure(frames.update(frames.len() - 1, f2)) == frames_measure(frames.drop_last())
            + (f2.text.len() - f2.pos) + 1,
{
    let upd = frames.update(frames.len() - 1, f2);
    assert(upd.drop_last() =~= frames.drop_last());
    assert(upd.last() == f2);
}

/// Popping the last frame commutes with viewing the stack.
proof fn lemma_frames_pop(pre: Seq<Frame>, after: Seq<Frame>)
    requires
        pre.len() > 0,
        after == pre.drop_last(),
    ensures
        frames_view(after) == frames_view(pre).drop_last(),
{
    let lhs = frames_view(after);
    let rhs = frames_view(pre).drop_last();
    assert(lhs.len() == rhs.len());
    assert forall|i: int| 0 <= i < lhs.len() implies lhs[i] == rhs[i] by {
        assert(after[i] == pre[i]);
        assert(frames_view(pre)[i] == pre[i]@);
    }
    assert(lhs =~= rhs);
}

/// Pushing a frame onto a stack that equals `base` without its last
/// frame yields `base` with its last frame replaced.
proof fn lemma_frames_push(pre: Seq<Frame>, after: Seq<Frame>, base: Seq<FrameModel>, f2m: FrameModel)
    requires
        frames_view(pre) == base.drop_last(),
        base.len() > 0,
        after.len() == pre.len() + 1,
        forall|i: int| 0 <= i < pre.len() ==> after[i] == pre[i],
        after[after.len() - 1]@ == f2m,
    ensures
        frames_view(after) == base.update(base.len() - 1, f2m),
{
    let lhs = frames_view(after);
    let rhs = base.update(base.len() - 1, f2m);
    assert(frames_view(pre).len() == pre.len());
    assert(base.drop_last().len() == base.len() - 1);
    assert(lhs.len() == rhs.len());
    assert forall|i: int| 0 <= i < lhs.len() implies lhs[i] == rhs[i] by {
        if i < base.len() - 1 {
            assert(lhs[i] == after[i]@);
            assert(after[i] == pre[i]);
            assert(frames_view(pre)[i] == pre[i]@);
            assert(base.drop_last()[i] == base[i]);
        } else {
            assert(lhs[i] == after[i]@);
        }
    }
    assert(lhs =~= rhs);
}

/// `line_end` stays between its argument and the end of the text.
pub proof fn lemma_line_end_bounds(s: Seq<u8>, i: int)
    requires
        0 <= i <= s.len(),
    ensures
        i <= line_end(s, i) <= s.len(),
    decreases s.len() - i,
{
    if i < s.len() && s[i] != NEWLINE {
        lemma_line_end_bounds(s, i + 1);
    }
}

/// `skip_blank` stays between its argument and the end of the text.
pub proof fn lemma_skip_blank_bounds(s: Seq<u8>, i: int)
    requires
        0 <= i <= s.len(),
    ensures
        match skip_blank(s, i) {
            Some(j) => i <= j <= s.len(),
            None => true,
        },
    decreases s.len() - i,
{
    if i >= s.len() {
    } else if s[i] == NEWLINE {
        lemma_skip_blank_bounds(s, i + 1);
    } else if s[i] == HASH {
        let j = line_end(s, i + 1);
        lemma_line_end_bounds(s, i + 1);
        if j < s.len() && j > i {
            lemma_skip_blank_bounds(s, j);
        }
    }
}

/// The position of the newline ending the current line, or the text end.
fn line_end_run(s: &[u8], i: usize) -> (r: usize)
    requires
        i <= s@.len(),
    ensures
        r == line_end(s@, i as int),
        i <= r <= s@.len(),
{
    let mut j = i;
    while j < s.len() && s[j] != NEWLINE
        invariant
            i <= j <= s@.len(),
            line_end(s@, i as int) == line_end(s@, j as int),
        decreases s@.len() - j,
    {
        j = j + 1;
    }
    j
}

/// The position after blank and comment-only lines, or `None` at an
/// unexpected end of text.
fn skip_blank_run(s: &[u8], i: usize) -> (r: Option<usize>)
    requires
        i <= s@.len(),
    ensures
        match r {
            Some(j) => skip_blank(s@, i as int) == Some(j as int) && i <= j <= s@.len(),
            None => skip_blank(s@, i as int) is None,
        },
{
    let mut j = i;
    loop
        invariant
            i <= j <= s@.len(),
            skip_blank(s@, i as int) == skip_blank(s@, j as int),
        decreases s@.len() - j,
    {
        if j >= s.len() {
            return Some(j);
        }
        let c = s[j];
        if c == NEWLINE {
            j = j + 1;
        } else if c == HASH {
            let e = line_end_run(s, j + 1);
            if e >= s.len() {
                return None;
            }
            j = e;
        } else {
            return Some(j);
        }
    }
}

/// The bytes of the keyword `else`.
fn kw_else_bytes() -> (r: Vec<u8>)
    ensures
        r@ == kw_else(),
{
    let mut v: Vec<u8> = Vec::new();
    v.push(101);
    v.push(108);
    v.push(115);
    v.push(101);
    proof {
        assert(v@ =~= kw_else());
    }
    v
}

/// The bytes of the keyword `endif`.
fn kw_endif_bytes() -> (r: Vec<u8>)
    ensures
        r@ == kw_endif(),
{
    let mut v: Vec<u8> = Vec::new();
    v.push(101);
    v.push(110);
    v.push(100);
    v.push(105);
    v.push(102);
    proof {
        assert(v@ =~= kw_endif());
    }
    v
}

/// The bytes of `ifdef `.
fn kw_ifdef_bytes() -> (r: Vec<u8>)
    ensures
        r@ == kw_ifdef(),
{
    let mut v: Vec<u8> = Vec::new();
    v.push(105);
    v.push(102);
    v.push(100);
    v.push(101);
    v.push(102);
    v.push(32);
    proof {
        assert(v@ =~= kw_ifdef());
    }
    v
}

/// The bytes of `ifndef `.
fn kw_ifndef_bytes() -> (r: Vec<u8>)
    ensures
        r@ == kw_ifndef(),
{
    let mut v: Vec<u8> = Vec::new();
    v.push(105);
    v.push(102);
    v.push(110);
    v.push(100);
    v.push(101);
    v.push(102);
    v.push(32);
    proof {
        assert(v@ =~= kw_ifndef());
    }
    v
}

/// The bytes of the file directive and its trailing space.
fn kw_use_file_bytes() -> (r: Vec<u8>)
    ensures
        r@ == kw_use_file(),
{
    let mut v: Vec<u8> = Vec::new();
    v.push(105);
    v.push(110);
    v.push(99);
    v.push(108);
    v.push(117);
    v.push(100);
    v.push(101);
    v.push(32);
    proof {
        assert(v@ =~= kw_use_file());
    }
    v
}

/// The bytes of the optional file directive and its trailing space.
fn kw_use_file_opt_bytes() -> (r: Vec<u8>)
    ensures
        r@ == kw_use_file_opt(),
{
    let mut v: Vec<u8> = Vec::new();
    v.push(45);
    v.push(105);
    v.push(110);
    v.push(99);
    v.push(108);
    v.push(117);
    v.push(100);
    v.push(101);
    v.push(32);
    proof {
        assert(v@ =~= kw_use_file_opt());
    }
    v
}

/// Append `t` to whichever buffer of `st` is live.
fn state_push(st: PState, t: Vec<u8>) -> (r: PState)
    ensures
        r@ == state_append(st@, t@),
{
    let mut tv = t;
    match st {
        PState::Left(mut b) => {
            b.append(&mut tv);
            PState::Left(b)
        },
        PState::RightVariable(n, mut v) => {
            v.append(&mut tv);
            PState::RightVariable(n, v)
        },
        PState::RightRule(ts, mut p) => {
            p.append(&mut tv);
            PState::RightRule(ts, p)
        },
        PState::Recipes(ts, ps, rs, mut w) => {
            w.append(&mut tv);
            PState::Recipes(ts, ps, rs, w)
        },
    }
}

/// What the loader asks the caller for, executable form.
pub enum LoadEvent {
    Shell(Vec<u8>),
    File(Vec<u8>, bool),
}

impl View for LoadEvent {
    type V = EventModel;

    open spec fn view(&self) -> EventModel {
        match self {
            LoadEvent::Shell(c) => EventModel::Shell { cmd: c@ },
            LoadEvent::File(n, o) => EventModel::File { name: n@, optional: *o },
        }
    }
}

/// Where a paused or finished parse stands: complete, or waiting for a
/// shell command's output or a makefile's text.
#[derive(Debug)]
pub enum LoadStatus {
    Done,
    NeedShell(Vec<u8>),
    NeedFile(Vec<u8>, bool),
}

/// What one executable step did.
enum StepResult {
    Continue,
    Paused(LoadEvent),
    Complete,
    Error(MakeError),
}

/// The frame list of a loader, each frame viewed abstractly.
pub open spec fn frames_view(frames: Seq<Frame>) -> Seq<FrameModel> {
    Seq::new(frames.len(), |i: int| frames[i]@)
}

/// The makefile parser: variable store, raw rules, and the input stack.
pub struct MakeFileLoader {
    vars: VarStore,
    rules: Vec<RawRule>,
    frames: Vec<Frame>,
    shells: Vec<Vec<u8>>,
}

impl View for MakeFileLoader {
    type V = LoaderModel;

    closed spec fn view(&self) -> LoaderModel {
        LoaderModel {
            vars: self.vars@,
            rules: raw_rules_view(self.rules@),
            frames: frames_view(self.frames@),
            shells: self.shells.deep_view(),
        }
    }
}

impl MakeFileLoader {
    /// Handle the newline ending a left-hand line: a blank line, one of
    /// the directives, or a syntax error.  The top frame has been popped;
    /// its pieces are passed in.
    fn newline_left(
        &mut self,
        text: Vec<u8>,
        pos: usize,
        b: Vec<u8>,
        skip: Vec<bool>,
        Ghost(m0): Ghost<LoaderModel>,
        Ghost(fm): Ghost<FrameModel>,
    ) -> (r: StepResult)
        requires
            wf_model(m0),
            m0.frames.len() > 0,
            fm == m0.frames.last(),
            old(self)@ == (LoaderModel { frames: m0.frames.drop_last(), ..m0 }),
            fm.text == text@,
            fm.pos == pos as int,
            fm.state == PStateModel::Left(b@),
            fm.skip == skip@,
            0 <= fm.pos < fm.text.len(),
            fm.text[fm.pos] == NEWLINE,
            fm.skip.len() >= 1,
            fm.skip.last() == true,
        ensures
            match r {
                StepResult::Continue => wf_model(final(self)@) && loader_step(m0)
                    == StepOutcome::Next(final(self)@) && frames_measure(final(self)@.frames)
                    < frames_measure(m0.frames),
                StepResult::Paused(ev) => final(self)@ == m0 && loader_step(m0)
                    == StepOutcome::Event(ev@),
                StepResult::Complete => false,
                StepResult::Error(e) => loader_step(m0) == StepOutcome::Fail(e@),
            },
    {
        let tlen = text.len();
        proof {
            assert(pos < tlen);
        }
        let t = crate::text::trim(b.as_slice());
        if t.len() == 0 {
            let ghost pre_frames = self.frames@;
            let f2 = Frame { text, pos: pos + 1, state: PState::Left(Vec::new()), skip };
            let ghost f2v = f2@;
            self.frames.push(f2);
            proof {
                lemma_frames_push(pre_frames, self.frames@, m0.frames, f2v);
                assert(self@.frames =~~= m0.frames.update(m0.frames.len() - 1, f2v));
                assert(self@ =~~= set_top(m0, f2@));
                assert(loader_step(m0) == StepOutcome::Next(self@));
                lemma_measure_update(m0.frames, f2@);
                lemma_wf_update(m0.frames, f2@);
                assert(wf_model(self@));
            }
            return StepResult::Continue;
        }
        let kuse = kw_use_file_bytes();
        if crate::text::starts_with(t.as_slice(), kuse.as_slice()) {
            let name_raw = crate::text::sub_vec(t.as_slice(), 8, t.len());
            let name = crate::text::trim(name_raw.as_slice());
            proof {
                assert(name_raw@ =~= trimmed(b@).skip(8));
            }
            let ghost pre_frames = self.frames@;
            let f2 = Frame { text, pos, state: PState::Left(b), skip };
            let ghost f2v = f2@;
            self.frames.push(f2);
            proof {
                lemma_frames_push(pre_frames, self.frames@, m0.frames, f2v);
                assert(f2v == m0.frames.last());
                assert(m0.frames.update(m0.frames.len() - 1, f2v) =~= m0.frames);
                assert(self@.frames =~~= m0.frames);
                assert(self@ =~~= m0);
            }
            return StepResult::Paused(LoadEvent::File(name, false));
        }
        let kopt = kw_use_file_opt_bytes();
        if crate::text::starts_with(t.as_slice(), kopt.as_slice()) {
            let name_raw = crate::text::sub_vec(t.as_slice(), 9, t.len());
            let name = crate::text::trim(name_raw.as_slice());
            proof {
                assert(name_raw@ =~= trimmed(b@).skip(9));
            }
            let ghost pre_frames = self.frames@;
            let f2 = Frame { text, pos, state: PState::Left(b), skip };
            let ghost f2v = f2@;
            self.frames.push(f2);
            proof {
                lemma_frames_push(pre_frames, self.frames@, m0.frames, f2v);
                assert(f2v == m0.frames.last());
                assert(m0.frames.update(m0.frames.len() - 1, f2v) =~= m0.frames);
                assert(self@.frames =~~= m0.frames);
                assert(self@ =~~= m0);
            }
            return StepResult::Paused(LoadEvent::File(name, true));
        }
        let kifdef = kw_ifdef_bytes();
        if crate::text::starts_with(t.as_slice(), kifdef.as_slice()) {
            let rhs_raw = crate::text::sub_vec(t.as_slice(), 5, t.len());
            proof {
                assert(rhs_raw@ =~= trimmed(b@).skip(5));
            }
            return self.ifdef_common(text, pos, b, skip, rhs_raw, false, Ghost(m0), Ghost(fm));
        }
        let kifndef = kw_ifndef_bytes();
        if crate::text::starts_with(t.as_slice(), kifndef.as_slice()) {
            let rhs_raw = crate::text::sub_vec(t.as_slice(), 6, t.len());
            proof {
                assert(rhs_raw@ =~= trimmed(b@).skip(6));
            }
            return self.ifdef_common(text, pos, b, skip, rhs_raw, true, Ghost(m0), Ghost(fm));
        }
        let kelse = kw_else_bytes();
        if crate::text::slice_eq(t.as_slice(), kelse.as_slice()) {
            if skip.len() <= 1 {
                return StepResult::Error(MakeError::MismatchedConditional);
            }
            let mut skip2 = skip;
            let nsk = skip2.len();
            skip2.set(nsk - 1, false);
            let ghost pre_frames = self.frames@;
            let f2 = Frame { text, pos: pos + 1, state: PState::Left(Vec::new()), skip: skip2 };
            let ghost f2v = f2@;
            self.frames.push(f2);
            proof {
                lemma_frames_push(pre_frames, self.frames@, m0.frames, f2v);
                assert(self@.frames =~~= m0.frames.update(m0.frames.len() - 1, f2@));
                assert(self@ =~~= set_top(m0, f2@));
                assert(loader_step(m0) == StepOutcome::Next(self@));
                lemma_measure_update(m0.frames, f2@);
                lemma_wf_update(m0.frames, f2@);
                assert(wf_model(self@));
            }
            return StepResult::Continue;
        }
        let kendif = kw_endif_bytes();
        if crate::text::slice_eq(t.as_slice(), kendif.as_slice()) {
            if skip.len() <= 1 {
                return StepResult::Error(MakeError::MismatchedConditional);
            }
            let mut skip2 = skip;
            skip2.pop();
            let ghost pre_frames = self.frames@;
            let f2 = Frame { text, pos: pos + 1, state: PState::Left(Vec::new()), skip: skip2 };
            let ghost f2v = f2@;
            self.frames.push(f2);
            proof {
                lemma_frames_push(pre_frames, self.frames@, m0.frames, f2v);
                assert(f2@.skip =~~= fm.skip.drop_last());
                assert(self@.frames =~~= m0.frames.update(m0.frames.len() - 1, f2@));
                assert(self@ =~~= set_top(
                    m0,
                    FrameModel {
                        pos: pos + 1 as int,
                        state: PStateModel::Left(seq![]),
                        skip: fm.skip.drop_last(),
                        ..fm
                    },
                ));
                assert(loader_step(m0) == StepOutcome::Next(self@));
                lemma_measure_update(m0.frames, f2@);
                lemma_wf_update(m0.frames, f2@);
                assert(wf_model(self@));
            }
            return StepResult::Continue;
        }
        StepResult::Error(MakeError::Syntax)
    }

    /// Handle an `ifdef`/`ifndef` line whose raw right-hand side is
    /// `rhs_raw`: expand a leading macro reference if there is one, then
    /// push the new conditional level.
    fn ifdef_common(
        &mut self,
        text: Vec<u8>,
        pos: usize,
        b: Vec<u8>,
        skip: Vec<bool>,
        rhs_raw: Vec<u8>,
        negate: bool,
        Ghost(m0): Ghost<LoaderModel>,
        Ghost(fm): Ghost<FrameModel>,
    ) -> (r: StepResult)
        requires
            wf_model(m0),
            m0.frames.len() > 0,
            fm == m0.frames.last(),
            old(self)@ == (LoaderModel { frames: m0.frames.drop_last(), ..m0 }),
            fm.text == text@,
            fm.pos == pos as int,
            fm.state == PStateModel::Left(b@),
            fm.skip == skip@,
            0 <= fm.pos < fm.text.len(),
            fm.text[fm.pos] == NEWLINE,
            fm.skip.len() >= 1,
            fm.skip.last() == true,
            loader_step(m0) == ifdef_step(m0, fm, rhs_raw@, negate),
        ensures
            match r {
                StepResult::Continue => wf_model(final(self)@) && loader_step(m0)
                    == StepOutcome::Next(final(self)@) && frames_measure(final(self)@.frames)
                    < frames_measure(m0.frames),
                StepResult::Paused(ev) => final(self)@ == m0 && loader_step(m0)
                    == StepOutcome::Event(ev@),
                StepResult::Complete => false,
                StepResult::Error(e) => loader_step(m0) == StepOutcome::Fail(e@),
            },
    {
        let tlen = text.len();
        proof {
            assert(pos < tlen);
        }
        let rhs = crate::text::trim(rhs_raw.as_slice());
        let name: Vec<u8>;
        if rhs.len() > 0 && rhs[0] == DOLLAR {
            let step = crate::expand::ref_run(
                rhs.as_slice(),
                1,
                &self.vars,
                crate::expand::Mode::Parse,
                &self.shells,
                0,
            );
            match step {
                crate::expand::ExpandStep::Text(_n, _used, txt) => {
                    name = txt;
                },
                crate::expand::ExpandStep::Shell(cmd) => {
                    let ghost pre_frames = self.frames@;
                    let f2 = Frame { text, pos, state: PState::Left(b), skip };
                    let ghost f2v = f2@;
                    self.frames.push(f2);
                    proof {
                        lemma_frames_push(pre_frames, self.frames@, m0.frames, f2v);
                        assert(self@.frames =~~= m0.frames);
                        assert(self@ =~~= m0);
                    }
                    return StepResult::Paused(LoadEvent::Shell(cmd));
                },
                crate::expand::ExpandStep::Fail(e) => {
                    return StepResult::Error(e);
                },
            }
        } else {
            name = rhs;
        }
        let present = self.vars.contains(name.as_slice());
        let emit = if negate {
            !present
        } else {
            present
        };
        let mut skip2 = skip;
        skip2.push(emit);
        self.shells = Vec::new();
        let ghost pre_frames = self.frames@;
        let f2 = Frame { text, pos: pos + 1, state: PState::Left(Vec::new()), skip: skip2 };
        let ghost f2v = f2@;
        self.frames.push(f2);
        proof {
            lemma_frames_push(pre_frames, self.frames@, m0.frames, f2v);
            assert(self@.shells =~~= Seq::<Seq<u8>>::empty());
            assert(self@.frames =~~= m0.frames.update(m0.frames.len() - 1, f2@));
            assert(self@ =~~= (LoaderModel { shells: seq![], ..set_top(m0, f2@) }));
            assert(loader_step(m0) == StepOutcome::Next(self@));
            lemma_measure_update(m0.frames, f2@);
            lemma_wf_update(m0.frames, f2@);
            assert(wf_model(self@));
        }
        StepResult::Continue
    }

    /// Handle the newline ending a rule's target line or a recipe line:
    /// skip blank and comment-only lines, then either continue the recipe
    /// block at a tab or emit the raw rule.
    fn rule_end(
        &mut self,
        text: Vec<u8>,
        pos: usize,
        targets: Vec<Vec<u8>>,
        prereqs: Vec<Vec<u8>>,
        recipes: Vec<Vec<u8>>,
        skip: Vec<bool>,
        Ghost(m0): Ghost<LoaderModel>,
        Ghost(fm): Ghost<FrameModel>,
    ) -> (r: StepResult)
        requires
            wf_model(m0),
            m0.frames.len() > 0,
            fm == m0.frames.last(),
            old(self)@ == (LoaderModel { frames: m0.frames.drop_last(), ..m0 }),
            fm.text == text@,
            fm.pos == pos as int,
            fm.skip == skip@,
            0 <= fm.pos < fm.text.len(),
            fm.skip.len() >= 1,
            loader_step(m0) == rule_end_step(
                m0,
                fm,
                targets.deep_view(),
                prereqs.deep_view(),
                recipes.deep_view(),
            ),
        ensures
            match r {
                StepResult::Continue => wf_model(final(self)@) && loader_step(m0)
                    == StepOutcome::Next(final(self)@) && frames_measure(final(self)@.frames)
                    < frames_measure(m0.frames),
                StepResult::Paused(ev) => final(self)@ == m0 && loader_step(m0)
                    == StepOutcome::Event(ev@),
                StepResult::Complete => false,
                StepResult::Error(e) => loader_step(m0) == StepOutcome::Fail(e@),
            },
    {
        let tlen = text.len();
        proof {
            assert(pos < tlen);
        }
        let ghost tv = targets.deep_view();
        let ghost pv = prereqs.deep_view();
        let ghost rv = recipes.deep_view();
        match skip_blank_run(text.as_slice(), pos + 1) {
            None => StepResult::Error(MakeError::UnexpectedEnd),
            Some(j) => {
                if j < text.len() && text[j] == TAB {
                    let ghost pre_frames = self.frames@;
                    let f2 = Frame {
                        text,
                        pos: j + 1,
                        state: PState::Recipes(targets, prereqs, recipes, Vec::new()),
                        skip,
                    };
                    let ghost f2v = f2@;
                    self.frames.push(f2);
                    proof {
                        lemma_frames_push(pre_frames, self.frames@, m0.frames, f2v);
                        assert(self@.frames =~~= m0.frames.update(m0.frames.len() - 1, f2@));
                        assert(self@ =~~= set_top(
                            m0,
                            FrameModel {
                                pos: j + 1 as int,
                                state: PStateModel::Recipes(tv, pv, rv, seq![]),
                                ..fm
                            },
                        ));
                        assert(loader_step(m0) == StepOutcome::Next(self@));
                        lemma_measure_update(m0.frames, f2@);
                        lemma_wf_update(m0.frames, f2@);
                        assert(wf_model(self@));
                    }
                    StepResult::Continue
                } else {
                    self.rules.push(RawRule { targets, prereqs, recipes });
                    let ghost pre_frames = self.frames@;
                    let f2 = Frame { text, pos: j, state: PState::Left(Vec::new()), skip };
                    let ghost f2v = f2@;
                    self.frames.push(f2);
                    proof {
                        lemma_frames_push(pre_frames, self.frames@, m0.frames, f2v);
                        assert(raw_rules_view(self.rules@) =~~= m0.rules.push(
                            RawRuleModel { targets: tv, prereqs: pv, recipes: rv },
                        ));
                        assert(self@.frames =~~= m0.frames.update(m0.frames.len() - 1, f2@));
                        assert(self@ =~~= (LoaderModel {
                            rules: m0.rules.push(
                                RawRuleModel { targets: tv, prereqs: pv, recipes: rv },
                            ),
                            ..set_top(
                                m0,
                                FrameModel { pos: j as int, state: PStateModel::Left(seq![]), ..fm },
                            )
                        }));
                        assert(loader_step(m0) == StepOutcome::Next(self@));
                        lemma_measure_update(m0.frames, f2@);
                        lemma_wf_update(m0.frames, f2v);
                        assert(wf_model(self@));
                    }
                    StepResult::Continue
                }
            },
        }
    }

    /// One executable step, proved equal to one [`loader_step`].
    fn step_once(&mut self) -> (r: StepResult)
        requires
            wf_model(old(self)@),
        ensures
            match r {
                StepResult::Continue => wf_model(final(self)@) && loader_step(old(self)@)
                    == StepOutcome::Next(final(self)@) && frames_measure(final(self)@.frames)
                    < frames_measure(old(self)@.frames),
                StepResult::Paused(ev) => final(self)@ == old(self)@ && loader_step(old(self)@)
                    == StepOutcome::Event(ev@),
                StepResult::Complete => final(self)@ == old(self)@ && loader_step(old(self)@)
                    == StepOutcome::Done,
                StepResult::Error(e) => loader_step(old(self)@) == StepOutcome::Fail(e@),
            },
    {
        let ghost m0 = self@;
        if self.frames.len() == 0 {
            return StepResult::Complete;
        }
        let f = match self.frames.pop() {
            Some(f) => f,
            None => {
                proof {
                    assert(false);
                }
                return StepResult::Complete;
            },
        };
        let ghost fm = f@;
        proof {
            assert(fm == m0.frames.last());
            assert(0 <= fm.pos <= fm.text.len() && fm.skip.len() >= 1);
        }
        let Frame { text, pos, state, skip } = f;
        if pos >= text.len() {
            // this input is exhausted
            if skip.len() != 1 {
                return StepResult::Error(MakeError::MismatchedConditional);
            }
            let clean = match &state {
                PState::Left(b) => {
                    let t = crate::text::trim(b.as_slice());
                    t.len() == 0
                },
                _ => false,
            };
            if clean {
                proof {
                    assert(self@.frames =~~= m0.frames.drop_last());
                    assert(self@ =~~= (LoaderModel { frames: m0.frames.drop_last(), ..m0 }));
                    assert(loader_step(m0) == StepOutcome::Next(self@));
                    assert(wf_model(self@));
                }
                return StepResult::Continue;
            }
            return StepResult::Error(MakeError::UnexpectedEnd);
        }
        let c = text[pos];
        let skipping = !skip[skip.len() - 1];
        if skipping {
            // a skipped line is only inspected for bare else/endif
            let j = line_end_run(text.as_slice(), pos);
            let line = crate::text::sub_vec(text.as_slice(), pos, j);
            let lt = crate::text::trim(line.as_slice());
            let newpos = if j < text.len() {
                j + 1
            } else {
                j
            };
            let kelse = kw_else_bytes();
            let kendif = kw_endif_bytes();
            if crate::text::slice_eq(lt.as_slice(), kelse.as_slice()) {
                let mut skip2 = skip;
                let n = skip2.len();
                skip2.set(n - 1, true);
                let f2 = Frame { text, pos: newpos, state, skip: skip2 };
                self.frames.push(f2);
                proof {
                    assert(self@.frames =~~= m0.frames.update(m0.frames.len() - 1, f2@));
                    assert(self@ =~~= set_top(m0, f2@));
                    assert(loader_step(m0) == StepOutcome::Next(self@));
                    lemma_measure_update(m0.frames, f2@);
                    lemma_wf_update(m0.frames, f2@);
                    assert(wf_model(self@));
                }
                return StepResult::Continue;
            }
            if crate::text::slice_eq(lt.as_slice(), kendif.as_slice()) {
                if skip.len() <= 1 {
                    return StepResult::Error(MakeError::MismatchedConditional);
                }
                let mut skip2 = skip;
                skip2.pop();
                let f2 = Frame { text, pos: newpos, state, skip: skip2 };
                self.frames.push(f2);
                proof {
                    assert(f2@.skip =~~= fm.skip.drop_last());
                    assert(self@.frames =~~= m0.frames.update(m0.frames.len() - 1, f2@));
                    assert(self@ =~~= set_top(m0, FrameModel { pos: newpos as int, skip: fm.skip.drop_last(), ..fm }));
                    assert(loader_step(m0) == StepOutcome::Next(self@));
                    lemma_measure_update(m0.frames, f2@);
                    lemma_wf_update(m0.frames, f2@);
                    assert(wf_model(self@));
                }
                return StepResult::Continue;
            }
            let f2 = Frame { text, pos: newpos, state, skip };
            self.frames.push(f2);
            proof {
                assert(self@.frames =~~= m0.frames.update(m0.frames.len() - 1, f2@));
                assert(self@ =~~= set_top(m0, f2@));
                assert(loader_step(m0) == StepOutcome::Next(self@));
                lemma_measure_update(m0.frames, f2@);
                lemma_wf_update(m0.frames, f2@);
                assert(wf_model(self@));
            }
            return StepResult::Continue;
        }
        if c == HASH {
            // comment: discard up to, but not including, the newline
            let j = line_end_run(text.as_slice(), pos);
            proof {
                lemma_line_end_bounds(text@, pos + 1 as int);
                assert(j > pos);
            }
            let f2 = Frame { text, pos: j, state, skip };
            self.frames.push(f2);
            proof {
                assert(self@.frames =~~= m0.frames.update(m0.frames.len() - 1, f2@));
                assert(self@ =~~= set_top(m0, f2@));
                assert(loader_step(m0) == StepOutcome::Next(self@));
                lemma_measure_update(m0.frames, f2@);
                lemma_wf_update(m0.frames, f2@);
                assert(wf_model(self@));
            }
            return StepResult::Continue;
        }
        if c == DOLLAR {
            let step = crate::expand::ref_run(
                text.as_slice(),
                pos + 1,
                &self.vars,
                crate::expand::Mode::Parse,
                &self.shells,
                0,
            );
            match step {
                crate::expand::ExpandStep::Text(n, _used, txt) => {
                    let state2 = state_push(state, txt);
                    self.shells = Vec::new();
                    let f2 = Frame { text, pos: pos + 1 + n, state: state2, skip };
                    self.frames.push(f2);
                    proof {
                        assert(self@.shells =~~= Seq::<Seq<u8>>::empty());
                        assert(self@.frames =~~= m0.frames.update(m0.frames.len() - 1, f2@));
                        assert(self@ =~~= (LoaderModel { shells: seq![], ..set_top(m0, f2@) }));
                        assert(loader_step(m0) == StepOutcome::Next(self@));
                        lemma_measure_update(m0.frames, f2@);
                        lemma_wf_update(m0.frames, f2@);
                        assert(wf_model(self@));
                    }
                    return StepResult::Continue;
                },
                crate::expand::ExpandStep::Shell(cmd) => {
                    let f2 = Frame { text, pos, state, skip };
                    self.frames.push(f2);
                    proof {
                        assert(self@.frames =~~= m0.frames);
                        assert(self@ =~~= m0);
                    }
                    return StepResult::Paused(LoadEvent::Shell(cmd));
                },
                crate::expand::ExpandStep::Fail(e) => {
                    return StepResult::Error(e);
                },
            }
        }
        if c == COLON {
            match state {
                PState::Left(b) => {
                    if pos + 1 < text.len() && text[pos + 1] == COLON {
                        if pos + 2 < text.len() && text[pos + 2] == EQUALS {
                            let f2 = Frame {
                                text,
                                pos: pos + 3,
                                state: PState::RightVariable(b, Vec::new()),
                                skip,
                            };
                            self.frames.push(f2);
                            proof {
                                assert(self@.frames =~~= m0.frames.update(
                                    m0.frames.len() - 1,
                                    f2@,
                                ));
                                assert(self@ =~~= set_top(m0, f2@));
                                assert(loader_step(m0) == StepOutcome::Next(self@));
                                lemma_measure_update(m0.frames, f2@);
                                lemma_wf_update(m0.frames, f2@);
                                assert(wf_model(self@));
                            }
                            return StepResult::Continue;
                        }
                        return StepResult::Error(MakeError::Syntax);
                    }
                    if pos + 1 < text.len() && text[pos + 1] == EQUALS {
                        let f2 = Frame {
                            text,
                            pos: pos + 2,
                            state: PState::RightVariable(b, Vec::new()),
                            skip,
                        };
                        self.frames.push(f2);
                        proof {
                            assert(self@.frames =~~= m0.frames.update(m0.frames.len() - 1, f2@));
                            assert(self@ =~~= set_top(m0, f2@));
                            assert(loader_step(m0) == StepOutcome::Next(self@));
                            lemma_measure_update(m0.frames, f2@);
                            lemma_wf_update(m0.frames, f2@);
                            assert(wf_model(self@));
                        }
                        return StepResult::Continue;
                    }
                    let targets = crate::text::split_whitespace(b.as_slice());
                    let f2 = Frame {
                        text,
                        pos: pos + 1,
                        state: PState::RightRule(targets, Vec::new()),
                        skip,
                    };
                    self.frames.push(f2);
                    proof {
                        assert(self@.frames =~~= m0.frames.update(m0.frames.len() - 1, f2@));
                        assert(self@ =~~= set_top(m0, f2@));
                        assert(loader_step(m0) == StepOutcome::Next(self@));
                        lemma_measure_update(m0.frames, f2@);
                        lemma_wf_update(m0.frames, f2@);
                        assert(wf_model(self@));
                    }
                    return StepResult::Continue;
                },
                PState::RightRule(_, _) => {
                    return StepResult::Error(MakeError::Syntax);
                },
                other_state => {
                    let mut one: Vec<u8> = Vec::new();
                    one.push(COLON);
                    let state2 = state_push(other_state, one);
                    let f2 = Frame { text, pos: pos + 1, state: state2, skip };
                    self.frames.push(f2);
                    proof {
                        assert(self@.frames =~~= m0.frames.update(m0.frames.len() - 1, f2@));
                        assert(self@ =~~= set_top(m0, f2@));
                        assert(loader_step(m0) == StepOutcome::Next(self@));
                        lemma_measure_update(m0.frames, f2@);
                        lemma_wf_update(m0.frames, f2@);
                        assert(wf_model(self@));
                    }
                    return StepResult::Continue;
                },
            }
        }
        if c == EQUALS {
            match state {
                PState::Left(b) => {
                    let f2 = Frame {
                        text,
                        pos: pos + 1,
                        state: PState::RightVariable(b, Vec::new()),
                        skip,
                    };
                    self.frames.push(f2);
                    proof {
                        assert(self@.frames =~~= m0.frames.update(m0.frames.len() - 1, f2@));
                        assert(self@ =~~= set_top(m0, f2@));
                        assert(loader_step(m0) == StepOutcome::Next(self@));
                        lemma_measure_update(m0.frames, f2@);
                        lemma_wf_update(m0.frames, f2@);
                        assert(wf_model(self@));
                    }
                    return StepResult::Continue;
                },
                PState::RightRule(_, _) => {
                    return StepResult::Error(MakeError::Syntax);
                },
                other_state => {
                    let mut one: Vec<u8> = Vec::new();
                    one.push(EQUALS);
                    let state2 = state_push(other_state, one);
                    let f2 = Frame { text, pos: pos + 1, state: state2, skip };
                    self.frames.push(f2);
                    proof {
                        assert(self@.frames =~~= m0.frames.update(m0.frames.len() - 1, f2@));
                        assert(self@ =~~= set_top(m0, f2@));
                        assert(loader_step(m0) == StepOutcome::Next(self@));
                        lemma_measure_update(m0.frames, f2@);
                        lemma_wf_update(m0.frames, f2@);
                        assert(wf_model(self@));
                    }
                    return StepResult::Continue;
                },
            }
        }
        if c == BACKSLASH {
            if pos + 1 >= text.len() {
                return StepResult::Error(MakeError::UnexpectedEnd);
            }
            let next = text[pos + 1];
            let mut added: Vec<u8> = Vec::new();
            if next == NEWLINE {
                added.push(SPACE);
                proof {
                    assert(added@ =~= seq![SPACE]);
                }
            } else {
                added.push(BACKSLASH);
                added.push(next);
                proof {
                    assert(added@ =~= seq![BACKSLASH, fm.text[fm.pos + 1]]);
                }
            }
            let state2 = state_push(state, added);
            let f2 = Frame { text, pos: pos + 2, state: state2, skip };
            self.frames.push(f2);
            proof {
                assert(self@.frames =~~= m0.frames.update(m0.frames.len() - 1, f2@));
                assert(self@ =~~= set_top(m0, f2@));
                assert(loader_step(m0) == StepOutcome::Next(self@));
                lemma_measure_update(m0.frames, f2@);
                lemma_wf_update(m0.frames, f2@);
                assert(wf_model(self@));
            }
            return StepResult::Continue;
        }
        if c == NEWLINE {
            match state {
                PState::Left(b) => {
                    proof {
                        assert(self@ =~~= (LoaderModel { frames: m0.frames.drop_last(), ..m0 }));
                    }
                    return self.newline_left(text, pos, b, skip, Ghost(m0), Ghost(fm));
                },
                PState::RightVariable(n, v) => {
                    let ghost n_view = n@;
                    let ghost v_view = v@;
                    let name = crate::text::trim(n.as_slice());
                    self.vars.insert(name, v);
                    let f2 = Frame { text, pos: pos + 1, state: PState::Left(Vec::new()), skip };
                    self.frames.push(f2);
                    proof {
                        assert(self@.frames =~~= m0.frames.update(m0.frames.len() - 1, f2@));
                        assert(self@ =~~= (LoaderModel {
                            vars: m0.vars.insert(trimmed(n_view), v_view),
                            ..set_top(m0, f2@)
                        }));
                        assert(loader_step(m0) == StepOutcome::Next(self@));
                        lemma_measure_update(m0.frames, f2@);
                        lemma_wf_update(m0.frames, f2@);
                        assert(wf_model(self@));
                    }
                    return StepResult::Continue;
                },
                PState::RightRule(ts, pracc) => {
                    let prereqs = crate::text::split_whitespace(pracc.as_slice());
                    let empty_recipes: Vec<Vec<u8>> = Vec::new();
                    proof {
                        assert(self@ =~~= (LoaderModel { frames: m0.frames.drop_last(), ..m0 }));
                        assert(empty_recipes.deep_view() =~~= Seq::<Seq<u8>>::empty());
                        assert(loader_step(m0) == rule_end_step(
                            m0,
                            fm,
                            ts.deep_view(),
                            prereqs.deep_view(),
                            empty_recipes.deep_view(),
                        ));
                    }
                    return self.rule_end(text, pos, ts, prereqs, empty_recipes, skip, Ghost(m0), Ghost(fm));
                },
                PState::Recipes(ts, ps, mut rs, w) => {
                    let ghost rs_view = rs.deep_view();
                    let ghost w_view = w@;
                    rs.push(w);
                    proof {
                        assert(self@ =~~= (LoaderModel { frames: m0.frames.drop_last(), ..m0 }));
                        assert(rs.deep_view() =~~= rs_view.push(w_view));
                        assert(loader_step(m0) == rule_end_step(
                            m0,
                            fm,
                            ts.deep_view(),
                            ps.deep_view(),
                            rs.deep_view(),
                        ));
                    }
                    return self.rule_end(text, pos, ts, ps, rs, skip, Ghost(m0), Ghost(fm));
                },
            }
        }
        let mut one: Vec<u8> = Vec::new();
        one.push(c);
        let state2 = state_push(state, one);
        let f2 = Frame { text, pos: pos + 1, state: state2, skip };
        self.frames.push(f2);
        proof {
            assert(self@.frames =~~= m0.frames.update(m0.frames.len() - 1, f2@));
            assert(self@ =~~= set_top(m0, f2@));
            assert(loader_step(m0) == StepOutcome::Next(self@));
            lemma_measure_update(m0.frames, f2@);
            lemma_wf_update(m0.frames, f2@);
            assert(wf_model(self@));
        }
        return StepResult::Continue;
    }
}

/// The variables every parse starts with: `MAKE` (the tool itself, by
/// default the plain word `make`), `CC` (`cc`) and `CXX` (`c++`).
pub open spec fn builtin_vars() -> Map<Seq<u8>, Seq<u8>> {
    Map::<Seq<u8>, Seq<u8>>::empty().insert(seq![77u8, 65, 75, 69], seq![109u8, 97, 107, 101])
        .insert(seq![67u8, 67], seq![99u8, 99]).insert(seq![67u8, 88, 88], seq![99u8, 43, 43])
}

/// `m` with one more makefile text pushed as the input to read next.
pub open spec fn started(m: LoaderModel, text: Seq<u8>) -> LoaderModel {
    LoaderModel {
        frames: m.frames.push(
            FrameModel { text, pos: 0, state: PStateModel::Left(seq![]), skip: seq![true] },
        ),
        ..m
    }
}

/// `m` with one more shell output available to the reference being
/// resolved.
pub open spec fn with_shell(m: LoaderModel, out: Seq<u8>) -> LoaderModel {
    LoaderModel { shells: m.shells.push(out), ..m }
}

/// `m` with the file-directive line it stopped at consumed.
pub open spec fn consumed_directive(m: LoaderModel) -> LoaderModel {
    let f = m.frames.last();
    set_top(m, FrameModel { pos: f.pos + 1, state: PStateModel::Left(seq![]), ..f })
}

/// `m` with the file-directive line consumed and the named file's text
/// pushed as the next input.
pub open spec fn with_file(m: LoaderModel, text: Seq<u8>) -> LoaderModel {
    started(consumed_directive(m), text)
}

/// What a finished driver call guarantees: the machine ran some silent
/// steps from `start` to `end`, and the result says exactly what the next
/// abstract step of `end` is.
pub open spec fn run_post(
    start: LoaderModel,
    end: LoaderModel,
    r: Result<LoadStatus, MakeError>,
) -> bool {
    match r {
        Ok(LoadStatus::Done) => (exists|k: nat| silent_reaches(start, end, k)) && loader_step(end)
            == StepOutcome::Done,
        Ok(LoadStatus::NeedShell(c)) => (exists|k: nat| silent_reaches(start, end, k))
            && loader_step(end) == StepOutcome::Event(EventModel::Shell { cmd: c@ }),
        Ok(LoadStatus::NeedFile(n, o)) => (exists|k: nat| silent_reaches(start, end, k))
            && loader_step(end) == StepOutcome::Event(EventModel::File { name: n@, optional: o }),
        Err(e) => exists|k: nat, m2: LoaderModel|
            silent_reaches(start, m2, k) && loader_step(m2) == StepOutcome::Fail(e@),
    }
}

/// Is the machine inside a skipped conditional region?
pub open spec fn is_skipping(m: LoaderModel) -> bool {
    m.frames.len() > 0 && m.frames.last().skip.len() > 0 && !m.frames.last().skip.last()
}

/// While the conditional stack says skip, a silent step binds no variable
/// and emits no rule: text inside a skipped `ifdef` block produces
/// nothing.
pub proof fn lemma_skipping_adds_nothing(m: LoaderModel)
    requires
        is_skipping(m),
    ensures
        match loader_step(m) {
            StepOutcome::Next(m2) => m2.vars == m.vars && m2.rules == m.rules,
            _ => true,
        },
{
}

/// The machine stays in skip mode for the `k` steps from `a` on (or
/// until it stops for an answer or an error).
pub open spec fn skipping_throughout(a: LoaderModel, k: nat) -> bool
    decreases k,
{
    if k == 0 {
        true
    } else {
        is_skipping(a) && match loader_step(a) {
            StepOutcome::Next(m2) => skipping_throughout(m2, (k - 1) as nat),
            _ => true,
        }
    }
}

/// A whole stretch of silent steps taken inside a skipped conditional
/// region binds no variable and emits no rule.
pub proof fn lemma_skipped_stretch_adds_nothing(a: LoaderModel, b: LoaderModel, k: nat)
    requires
        silent_reaches(a, b, k),
        skipping_throughout(a, k),
    ensures
        b.vars == a.vars,
        b.rules == a.rules,
    decreases k,
{
    if k > 0 {
        lemma_skipping_adds_nothing(a);
        match loader_step(a) {
            StepOutcome::Next(m2) => {
                lemma_skipped_stretch_adds_nothing(m2, b, (k - 1) as nat);
            },
            _ => {},
        }
    }
}

/// Leading whitespace does not affect a trim.
proof fn lemma_trim_leading_space(name: Seq<u8>)
    ensures
        trimmed(seq![SPACE] + name) == trimmed(name),
{
    assert((seq![SPACE] + name)[0] == SPACE);
    assert((seq![SPACE] + name).drop_first() =~= name);
}

/// An `ifdef` line naming a plain, unbound variable starts a skipped
/// region: the new conditional level is pushed as "skip", and neither the
/// variable store nor the rules change.
pub proof fn lemma_ifdef_unbound_skips(m: LoaderModel, b: Seq<u8>, name: Seq<u8>)
    requires
        m.frames.len() > 0,
        ({
            let f = m.frames.last();
            &&& 0 <= f.pos < f.text.len()
            &&& f.text[f.pos] == NEWLINE
            &&& f.skip.len() >= 1
            &&& f.skip.last() == true
            &&& f.state == PStateModel::Left(b)
        }),
        trimmed(b) == kw_ifdef() + name,
        name.len() > 0,
        name[0] != DOLLAR,
        name == trimmed(name),
        !m.vars.dom().contains(name),
    ensures
        match loader_step(m) {
            StepOutcome::Next(m2) => {
                &&& m2.vars == m.vars
                &&& m2.rules == m.rules
                &&& m2.frames.last().skip == m.frames.last().skip.push(false)
                &&& is_skipping(m2)
            },
            _ => false,
        },
{
    let f = m.frames.last();
    let t = trimmed(b);
    assert(t.len() == 6 + name.len());
    assert(t.subrange(0, 6) =~= kw_ifdef());
    assert(has_prefix(t, kw_ifdef()));
    assert(t[0] == 105 && t[1] == 102);
    assert(!has_prefix(t, kw_use_file())) by {
        if has_prefix(t, kw_use_file()) {
            assert(t.subrange(0, 8)[1] == t[1]);
            assert(kw_use_file()[1] == 110);
        }
    }
    assert(!has_prefix(t, kw_use_file_opt())) by {
        if has_prefix(t, kw_use_file_opt()) {
            assert(t.subrange(0, 9)[0] == t[0]);
            assert(kw_use_file_opt()[0] == 45);
        }
    }
    assert(t.skip(5) =~= seq![SPACE] + name);
    lemma_trim_leading_space(name);
    let rhs = trimmed(t.skip(5));
    assert(rhs == name);
    assert(loader_step(m) == ifdef_step(m, f, t.skip(5), false));
    assert(ifdef_step(m, f, t.skip(5), false) == push_cond(m, f, name, false));
    match loader_step(m) {
        StepOutcome::Next(m2) => {
            assert(m2.frames.last() == m2.frames[m.frames.len() - 1]);
            assert(m2.frames.last().skip == f.skip.push(false));
        },
        _ => {
            assert(false);
        },
    }
}

impl MakeFileLoader {
    /// A fresh loader: the builtin variables, no rules, no input.
    pub fn new() -> (r: MakeFileLoader)
        ensures
            r@ == (LoaderModel {
                vars: builtin_vars(),
                rules: seq![],
                frames: seq![],
                shells: seq![],
            }),
            wf_model(r@),
    {
        let mut vars = VarStore::new();
        let mut make_name: Vec<u8> = Vec::new();
        make_name.push(77);
        make_name.push(65);
        make_name.push(75);
        make_name.push(69);
        let mut make_val: Vec<u8> = Vec::new();
        make_val.push(109);
        make_val.push(97);
        make_val.push(107);
        make_val.push(101);
        proof {
            assert(make_name@ =~= seq![77u8, 65, 75, 69]);
            assert(make_val@ =~= seq![109u8, 97, 107, 101]);
        }
        vars.insert(make_name, make_val);
        let mut cc_name: Vec<u8> = Vec::new();
        cc_name.push(67);
        cc_name.push(67);
        let mut cc_val: Vec<u8> = Vec::new();
        cc_val.push(99);
        cc_val.push(99);
        proof {
            assert(cc_name@ =~= seq![67u8, 67]);
            assert(cc_val@ =~= seq![99u8, 99]);
        }
        vars.insert(cc_name, cc_val);
        let mut cxx_name: Vec<u8> = Vec::new();
        cxx_name.push(67);
        cxx_name.push(88);
        cxx_name.push(88);
        let mut cxx_val: Vec<u8> = Vec::new();
        cxx_val.push(99);
        cxx_val.push(43);
        cxx_val.push(43);
        proof {
            assert(cxx_name@ =~= seq![67u8, 88, 88]);
            assert(cxx_val@ =~= seq![99u8, 43, 43]);
        }
        vars.insert(cxx_name, cxx_val);
        let r = MakeFileLoader {
            vars,
            rules: Vec::new(),
            frames: Vec::new(),
            shells: Vec::new(),
        };
        proof {
            assert(raw_rules_view(r.rules@) =~= Seq::<RawRuleModel>::empty());
            assert(frames_view(r.frames@) =~= Seq::<FrameModel>::empty());
            assert(r.shells.deep_view() =~~= Seq::<Seq<u8>>::empty());
            assert(r@ =~~= (LoaderModel {
                vars: builtin_vars(),
                rules: seq![],
                frames: seq![],
                shells: seq![],
            }));
        }
        r
    }

    /// Bind a variable directly, as the caller's environment dictates
    /// (for example `MAKE` to the tool's own path).
    pub fn set_var(&mut self, name: Vec<u8>, value: Vec<u8>)
        requires
            wf_model(old(self)@),
        ensures
            wf_model(final(self)@),
            final(self)@ == (LoaderModel {
                vars: old(self)@.vars.insert(name@, value@),
                ..old(self)@
            }),
    {
        self.vars.insert(name, value);
        proof {
            assert(self@ =~~= (LoaderModel {
                vars: old(self)@.vars.insert(name@, value@),
                ..old(self)@
            }));
        }
    }

    /// Run silent steps until the parse completes, needs an answer from
    /// the caller, or fails.
    fn run(&mut self) -> (r: Result<LoadStatus, MakeError>)
        requires
            wf_model(old(self)@),
        ensures
            r is Ok ==> wf_model(final(self)@),
            run_post(old(self)@, final(self)@, r),
    {
        proof {
            assert(silent_reaches(old(self)@, self@, 0));
        }
        loop
            invariant
                wf_model(self@),
                exists|k: nat| silent_reaches(old(self)@, self@, k),
            decreases frames_measure(self@.frames),
        {
            proof {
                lemma_measure_nonneg(self@.frames);
            }
            let ghost pre = self@;
            let ghost k = choose|k: nat| silent_reaches(old(self)@, pre, k);
            match self.step_once() {
                StepResult::Continue => {
                    proof {
                        lemma_reach_step(old(self)@, pre, self@, k);
                        lemma_measure_nonneg(self@.frames);
                    }
                },
                StepResult::Paused(LoadEvent::Shell(c)) => {
                    return Ok(LoadStatus::NeedShell(c));
                },
                StepResult::Paused(LoadEvent::File(n, o)) => {
                    return Ok(LoadStatus::NeedFile(n, o));
                },
                StepResult::Complete => {
                    return Ok(LoadStatus::Done);
                },
                StepResult::Error(e) => {
                    return Err(e);
                },
            }
        }
    }

    /// Parse one makefile text from the beginning.  The result either
    /// finishes the parse or asks for a shell output or a nested
    /// makefile's text; answer with [`Self::provide_shell`],
    /// [`Self::provide_file`] or [`Self::file_unavailable`].
    pub fn load(&mut self, text: Vec<u8>) -> (r: Result<LoadStatus, MakeError>)
        requires
            wf_model(old(self)@),
            old(self)@.frames.len() == 0,
        ensures
            r is Ok ==> wf_model(final(self)@),
            run_post(started(old(self)@, text@), final(self)@, r),
    {
        let ghost text_view = text@;
        let mut sk: Vec<bool> = Vec::new();
        sk.push(true);
        let f = Frame { text, pos: 0, state: PState::Left(Vec::new()), skip: sk };
        self.frames.push(f);
        proof {
            assert(frames_view(self.frames@) =~~= old(self)@.frames.push(
                FrameModel {
                    text: text_view,
                    pos: 0,
                    state: PStateModel::Left(seq![]),
                    skip: seq![true],
                },
            ));
            assert(self@ =~~= started(old(self)@, text_view));
        }
        self.run()
    }

    /// Hand the machine the output of the shell command it asked for, and
    /// resume.  On a failed or garbled command, hand an empty output.
    pub fn provide_shell(&mut self, out: Vec<u8>) -> (r: Result<LoadStatus, MakeError>)
        requires
            wf_model(old(self)@),
            loader_step(old(self)@) matches StepOutcome::Event(EventModel::Shell { .. }),
        ensures
            r is Ok ==> wf_model(final(self)@),
            run_post(with_shell(old(self)@, out@), final(self)@, r),
    {
        let ghost out_view = out@;
        self.shells.push(out);
        proof {
            assert(self.shells.deep_view() =~~= old(self)@.shells.push(out_view));
            assert(self@ =~~= with_shell(old(self)@, out_view));
        }
        self.run()
    }

    /// Hand the machine the text of the makefile it asked for, and
    /// resume.
    pub fn provide_file(&mut self, text: Vec<u8>) -> (r: Result<LoadStatus, MakeError>)
        requires
            wf_model(old(self)@),
            loader_step(old(self)@) matches StepOutcome::Event(EventModel::File { .. }),
        ensures
            r is Ok ==> wf_model(final(self)@),
            run_post(with_file(old(self)@, text@), final(self)@, r),
    {
        let ghost m0 = self@;
        proof {
            assert(m0.frames.len() > 0);
            assert(m0.frames.last().pos < m0.frames.last().text.len());
        }
        let ghost text_view = text@;
        let ghost all_frames = self.frames@;
        let f = match self.frames.pop() {
            Some(f) => f,
            None => {
                proof {
                    assert(false);
                }
                return Err(MakeError::Syntax);
            },
        };
        let Frame { text: ftext, pos, state: _, skip } = f;
        let tlen = ftext.len();
        proof {
            assert(pos < tlen);
            lemma_frames_pop(all_frames, self.frames@);
        }
        let f2 = Frame { text: ftext, pos: pos + 1, state: PState::Left(Vec::new()), skip };
        let ghost f2v = f2@;
        let ghost pre_frames = self.frames@;
        self.frames.push(f2);
        proof {
            lemma_frames_push(pre_frames, self.frames@, m0.frames, f2v);
            lemma_wf_update(m0.frames, f2v);
            assert(self@ =~~= consumed_directive(m0));
        }
        let mut sk: Vec<bool> = Vec::new();
        sk.push(true);
        let ghost mid = self@;
        let nf = Frame { text, pos: 0, state: PState::Left(Vec::new()), skip: sk };
        self.frames.push(nf);
        proof {
            assert(frames_view(self.frames@) =~~= mid.frames.push(
                FrameModel {
                    text: text_view,
                    pos: 0,
                    state: PStateModel::Left(seq![]),
                    skip: seq![true],
                },
            ));
            assert(self@ =~~= with_file(m0, text_view));
            assert(wf_model(self@));
        }
        self.run()
    }

    /// Tell the machine the file it asked for cannot be opened.  The
    /// optional directive skips it and resumes; the required one fails
    /// with `MissingFile`.
    pub fn file_unavailable(&mut self) -> (r: Result<LoadStatus, MakeError>)
        requires
            wf_model(old(self)@),
            loader_step(old(self)@) matches StepOutcome::Event(EventModel::File { .. }),
        ensures
            r is Ok ==> wf_model(final(self)@),
            match loader_step(old(self)@) {
                StepOutcome::Event(EventModel::File { name, optional }) => if optional {
                    run_post(consumed_directive(old(self)@), final(self)@, r)
                } else {
                    &&& final(self)@ == old(self)@
                    &&& r matches Err(e) && e@ == MakeErrorModel::MissingFile(name)
                },
                _ => false,
            },
    {
        let ghost m0 = self@;
        proof {
            assert(m0.frames.len() > 0);
            assert(m0.frames.last().pos < m0.frames.last().text.len());
        }
        let ghost all_frames = self.frames@;
        let f = match self.frames.pop() {
            Some(f) => f,
            None => {
                proof {
                    assert(false);
                }
                return Err(MakeError::Syntax);
            },
        };
        let Frame { text: ftext, pos, state, skip } = f;
        let tlen = ftext.len();
        proof {
            assert(pos < tlen);
            lemma_frames_pop(all_frames, self.frames@);
        }
        // recompute the directive's name and kind from the pending line
        let (optional, name) = match &state {
            PState::Left(b) => {
                let t = crate::text::trim(b.as_slice());
                let kuse = kw_use_file_bytes();
                if crate::text::starts_with(t.as_slice(), kuse.as_slice()) {
                    let raw = crate::text::sub_vec(t.as_slice(), 8, t.len());
                    proof {
                        assert(raw@ =~= trimmed(b@).skip(8));
                    }
                    (false, crate::text::trim(raw.as_slice()))
                } else {
                    let kopt = kw_use_file_opt_bytes();
                    if crate::text::starts_with(t.as_slice(), kopt.as_slice()) {
                        let raw = crate::text::sub_vec(t.as_slice(), 9, t.len());
                        proof {
                            assert(raw@ =~= trimmed(b@).skip(9));
                        }
                        (true, crate::text::trim(raw.as_slice()))
                    } else {
                        proof {
                            assert(false);
                        }
                        return Err(MakeError::Syntax);
                    }
                }
            },
            _ => {
                proof {
                    assert(false);
                }
                return Err(MakeError::Syntax);
            },
        };
        if !optional {
            let f2 = Frame { text: ftext, pos, state, skip };
            let ghost f2v = f2@;
            let ghost pre_frames = self.frames@;
            self.frames.push(f2);
            proof {
                lemma_frames_push(pre_frames, self.frames@, m0.frames, f2v);
                assert(f2v == m0.frames.last());
                assert(m0.frames.update(m0.frames.len() - 1, f2v) =~= m0.frames);
                assert(self@ =~~= m0);
            }
            return Err(MakeError::MissingFile(name));
        }
        let f2 = Frame { text: ftext, pos: pos + 1, state: PState::Left(Vec::new()), skip };
        let ghost f2v = f2@;
        let ghost pre_frames = self.frames@;
        self.frames.push(f2);
        proof {
            lemma_frames_push(pre_frames, self.frames@, m0.frames, f2v);
            lemma_wf_update(m0.frames, f2v);
            assert(self@ =~~= consumed_directive(m0));
        }
        self.run()
    }

    /// Merge the raw rules into the finalized build model, consuming the
    /// loader.
    pub fn finalise(self) -> (r: Result<MakeFile, MakeError>)
        ensures
            match r {
                Ok(mf) => crate::makefile::finalize_rules(seq![], self@.rules, 0) == Ok::<
                    _,
                    MakeErrorModel,
                >(mf@.rules) && mf@.vars == self@.vars,
                Err(e) => crate::makefile::finalize_rules(seq![], self@.rules, 0) == Err::<
                    Seq<crate::makefile::FinalRuleModel>,
                    _,
                >(e@),
            },
    {
        match merge_raw_rules(&self.rules) {
            Ok(rules) => Ok(MakeFile::new(self.vars, rules)),
            Err(e) => Err(e),
        }
    }
}

} // verus!
