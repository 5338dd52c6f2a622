//! Finalized rules and the build planner.
//!
//! A [`MakeFile`] holds the variable store and the finalized rules.  Given
//! a snapshot of file modification times, [`MakeFile::build_default`] and
//! [`MakeFile::build_target`] walk the prerequisite graph and return the
//! exact sequence of recipe lines a build must run, without running
//! anything themselves: the caller stats the files beforehand and executes
//! the plan afterwards.

use vstd::prelude::*;

use crate::errors::{MakeError, MakeErrorModel};
use crate::text::slice_eq;
use crate::vars::{map_of, VarStore};
use vstd::pervasive::VecAdditionalExecFns;

verus! {

/// One rule occurrence exactly as the parser read it: the targets of the
/// colon line, its prerequisites, and its raw (not yet build-time-expanded)
/// recipe lines.
pub struct RawRule {
    pub targets: Vec<Vec<u8>>,
    pub prereqs: Vec<Vec<u8>>,
    pub recipes: Vec<Vec<u8>>,
}

/// Abstract form of [`RawRule`].
#[verifier::ext_equal]
pub ghost struct RawRuleModel {
    pub targets: Seq<Seq<u8>>,
    pub prereqs: Seq<Seq<u8>>,
    pub recipes: Seq<Seq<u8>>,
}

impl View for RawRule {
    type V = RawRuleModel;

    open spec fn view(&self) -> RawRuleModel {
        RawRuleModel {
            targets: self.targets.deep_view(),
            prereqs: self.prereqs.deep_view(),
            recipes: self.recipes.deep_view(),
        }
    }
}

/// Abstract form of [`FinalRule`].
#[verifier::ext_equal]
pub ghost struct FinalRuleModel {
    pub target: Seq<u8>,
    pub prereqs: Seq<Seq<u8>>,
    pub recipes: Seq<Seq<u8>>,
}

/// The merged rule for one distinct target: its prerequisites in the order
/// the raw rules contributed them, and the recipes of the last raw rule
/// seen for the target.
#[derive(Debug)]
pub struct FinalRule {
    target: Vec<u8>,
    prereqs: Vec<Vec<u8>>,
    recipes: Vec<Vec<u8>>,
}

impl View for FinalRule {
    type V = FinalRuleModel;

    closed spec fn view(&self) -> FinalRuleModel {
        FinalRuleModel {
            target: self.target@,
            prereqs: self.prereqs.deep_view(),
            recipes: self.recipes.deep_view(),
        }
    }
}

impl FinalRule {
    pub fn new(target: Vec<u8>, prereqs: Vec<Vec<u8>>, recipes: Vec<Vec<u8>>) -> (r: FinalRule)
        ensures
            r@ == (FinalRuleModel {
                target: target@,
                prereqs: prereqs.deep_view(),
                recipes: recipes.deep_view(),
            }),
    {
        FinalRule { target, prereqs, recipes }
    }

    pub fn target(&self) -> (r: &Vec<u8>)
        ensures
            r@ == self@.target,
    {
        &self.target
    }

    pub fn prereqs(&self) -> (r: &Vec<Vec<u8>>)
        ensures
            r.deep_view() == self@.prereqs,
    {
        &self.prereqs
    }

    pub fn recipes(&self) -> (r: &Vec<Vec<u8>>)
        ensures
            r.deep_view() == self@.recipes,
    {
        &self.recipes
    }
}

/// Abstract form of [`RecipeJob`].
#[verifier::ext_equal]
pub ghost struct JobModel {
    pub target: Seq<u8>,
    pub prereqs: Seq<Seq<u8>>,
    pub line: Seq<u8>,
}

/// One recipe line the build must run, together with the target and
/// prerequisites of its rule (needed to expand `$@`, `$?` and `$<` at
/// execution time).
#[derive(Debug, PartialEq, Eq)]
pub struct RecipeJob {
    pub target: Vec<u8>,
    pub prereqs: Vec<Vec<u8>>,
    pub line: Vec<u8>,
}

impl View for RecipeJob {
    type V = JobModel;

    open spec fn view(&self) -> JobModel {
        JobModel {
            target: self.target@,
            prereqs: self.prereqs.deep_view(),
            line: self.line@,
        }
    }
}

impl DeepView for RecipeJob {
    type V = JobModel;

    open spec fn deep_view(&self) -> JobModel {
        self.view()
    }
}

/// A snapshot of the file system taken before planning: for each file name
/// that exists, its modification time (seconds or any monotone unit).  A
/// name absent from the snapshot is a file that does not exist.
pub struct FsSnapshot {
    entries: Vec<(Vec<u8>, u64)>,
}

/// The entry list of a snapshot with names viewed as byte sequences.
pub open spec fn fs_entries_view(entries: Seq<(Vec<u8>, u64)>) -> Seq<(Seq<u8>, u64)> {
    Seq::new(entries.len(), |i: int| (entries[i].0@, entries[i].1))
}

impl View for FsSnapshot {
    type V = Map<Seq<u8>, u64>;

    closed spec fn view(&self) -> Map<Seq<u8>, u64> {
        map_of(fs_entries_view(self.entries@))
    }
}

impl FsSnapshot {
    /// A snapshot with no files.
    pub fn new() -> (r: FsSnapshot)
        ensures
            r@ == Map::<Seq<u8>, u64>::empty(),
    {
        let r = FsSnapshot { entries: Vec::new() };
        proof {
            assert(fs_entries_view(r.entries@) =~= Seq::<(Seq<u8>, u64)>::empty());
        }
        r
    }

    /// Record that the file `name` exists with modification time `mtime`.
    pub fn set(&mut self, name: Vec<u8>, mtime: u64)
        ensures
            final(self)@ == old(self)@.insert(name@, mtime),
    {
        let ghost prev = fs_entries_view(self.entries@);
        self.entries.push((name, mtime));
        proof {
            assert(fs_entries_view(self.entries@).drop_last() =~= prev);
        }
    }

    /// The recorded modification time of `name`, or `None` when the file
    /// does not exist.
    pub fn get(&self, name: &[u8]) -> (r: Option<u64>)
        ensures
            match r {
                Some(t) => self@.dom().contains(name@) && t == self@[name@],
                None => !self@.dom().contains(name@),
            },
    {
        let ghost s = fs_entries_view(self.entries@);
        let mut i: usize = self.entries.len();
        proof {
            assert(s.take(s.len() as int) =~= s);
        }
        while i > 0
            invariant
                i <= self.entries@.len(),
                s == fs_entries_view(self.entries@),
                map_of(s).dom().contains(name@) == map_of(s.take(i as int)).dom().contains(name@),
                map_of(s).dom().contains(name@) ==> map_of(s)[name@] == map_of(
                    s.take(i as int),
                )[name@],
            decreases i,
        {
            i = i - 1;
            proof {
                assert(s.take(i + 1 as int).drop_last() =~= s.take(i as int));
                assert(s.take(i + 1 as int).last() == s[i as int]);
            }
            if slice_eq(self.entries[i].0.as_slice(), name) {
                return Some(self.entries[i].1);
            }
        }
        proof {
            assert(s.take(0) =~= Seq::<(Seq<u8>, u64)>::empty());
        }
        None
    }
}

/// The index of the first rule at or after `i` whose target is `name`.
pub open spec fn find_rule_from(rules: Seq<FinalRuleModel>, name: Seq<u8>, i: int) -> Option<int>
    decreases rules.len() - i,
{
    if i < 0 || i >= rules.len() {
        None
    } else if rules[i].target == name {
        Some(i)
    } else {
        find_rule_from(rules, name, i + 1)
    }
}

/// The name of the special target `.POSIX`, accepted and ignored.
pub open spec fn posix_target() -> Seq<u8> {
    seq![46, 80, 79, 83, 73, 88]
}

/// The name of the special target `.SUFFIXES`.
pub open spec fn suffixes_target() -> Seq<u8> {
    seq![46, 83, 85, 70, 70, 73, 88, 69, 83]
}

/// The one `.SUFFIXES` prerequisite accepted as a compatibility shim.
pub open spec fn hpux_sentinel() -> Seq<u8> {
    seq![
        46,
        104,
        112,
        117,
        120,
        95,
        109,
        97,
        107,
        101,
        95,
        110,
        101,
        101,
        100,
        115,
        95,
        115,
        117,
        102,
        102,
        105,
        120,
        95,
        108,
        105,
        115,
        116,
    ]
}

/// An ASCII uppercase letter.
pub open spec fn is_upper(b: u8) -> bool {
    65 <= b <= 90
}

/// How the finalizer treats one raw rule.
pub ghost enum RawClass {
    /// An ordinary rule, merged into the finalized set.
    Ordinary,
    /// A special or inference-style rule, consumed without effect.
    Discarded,
    /// A special target used in an unsupported way: finalization fails.
    Rejected(MakeErrorModel),
}

/// Classify one raw rule.  Special handling applies only to single-target
/// rules: `.POSIX` and the supported `.SUFFIXES` forms are consumed;
/// unsupported `.SUFFIXES` forms and a bare `.` are rejected; a target of
/// `.` followed by a non-uppercase letter is an inference-style rule,
/// consumed without effect; everything else is an ordinary rule.
pub open spec fn classify_raw(r: RawRuleModel) -> RawClass {
    if r.targets.len() == 1 {
        let t = r.targets[0];
        if t == posix_target() {
            RawClass::Discarded
        } else if t == suffixes_target() {
            if r.prereqs.len() == 0 {
                RawClass::Discarded
            } else if r.prereqs.len() == 1 && r.prereqs[0] == hpux_sentinel() {
                RawClass::Discarded
            } else {
                RawClass::Rejected(MakeErrorModel::Unsupported(t))
            }
        } else if t.len() >= 1 && t[0] == 46 {
            if t.len() < 2 {
                RawClass::Rejected(MakeErrorModel::Unsupported(t))
            } else if is_upper(t[1]) {
                RawClass::Ordinary
            } else {
                RawClass::Discarded
            }
        } else {
            RawClass::Ordinary
        }
    } else {
        RawClass::Ordinary
    }
}

/// Merge one (target, prereqs, recipes) occurrence into the finalized set:
/// an existing rule for the target gets the prerequisites appended and its
/// recipes replaced; otherwise a new finalized rule is added at the end.
pub open spec fn merge_target(
    acc: Seq<FinalRuleModel>,
    target: Seq<u8>,
    prereqs: Seq<Seq<u8>>,
    recipes: Seq<Seq<u8>>,
) -> Seq<FinalRuleModel> {
    match find_rule_from(acc, target, 0) {
        Some(k) => acc.update(
            k,
            FinalRuleModel { target: acc[k].target, prereqs: acc[k].prereqs + prereqs, recipes },
        ),
        None => acc.push(FinalRuleModel { target, prereqs, recipes }),
    }
}

/// Merge the targets `targets[i..]` of one raw rule, left to right.
pub open spec fn merge_targets(
    acc: Seq<FinalRuleModel>,
    targets: Seq<Seq<u8>>,
    i: int,
    prereqs: Seq<Seq<u8>>,
    recipes: Seq<Seq<u8>>,
) -> Seq<FinalRuleModel>
    decreases targets.len() - i,
{
    if i < 0 || i >= targets.len() {
        acc
    } else {
        merge_targets(
            merge_target(acc, targets[i], prereqs, recipes),
            targets,
            i + 1,
            prereqs,
            recipes,
        )
    }
}

/// Fold the raw rules `raw[i..]` into the finalized set `acc`, or fail on
/// the first rejected rule.
pub open spec fn finalize_rules(
    acc: Seq<FinalRuleModel>,
    raw: Seq<RawRuleModel>,
    i: int,
) -> Result<Seq<FinalRuleModel>, MakeErrorModel>
    decreases raw.len() - i,
{
    if i < 0 || i >= raw.len() {
        Ok(acc)
    } else {
        match classify_raw(raw[i]) {
            RawClass::Rejected(e) => Err(e),
            RawClass::Discarded => finalize_rules(acc, raw, i + 1),
            RawClass::Ordinary => finalize_rules(
                merge_targets(acc, raw[i].targets, 0, raw[i].prereqs, raw[i].recipes),
                raw,
                i + 1,
            ),
        }
    }
}

/// The larger of two timestamps.
pub open spec fn max64(a: u64, b: u64) -> u64 {
    if a >= b {
        a
    } else {
        b
    }
}

/// The jobs that running every recipe line of `rule` amounts to.
pub open spec fn jobs_of(rule: FinalRuleModel) -> Seq<JobModel> {
    Seq::new(
        rule.recipes.len(),
        |i: int| JobModel { target: rule.target, prereqs: rule.prereqs, line: rule.recipes[i] },
    )
}

/// What building the rule at `idx` does, given the rule list, a snapshot
/// `fs` of file modification times, and the time `now` stamped on anything
/// rebuilt: either the recipe jobs to run (in order) and the resulting
/// freshness timestamp, or the first failure.  `fuel` bounds the recursion
/// depth; a fuel of at least the number of rules only runs out on a
/// dependency cycle.
pub open spec fn build_plan(
    rules: Seq<FinalRuleModel>,
    fs: Map<Seq<u8>, u64>,
    now: u64,
    idx: int,
    fuel: nat,
) -> Result<(Seq<JobModel>, u64), MakeErrorModel>
    decreases fuel, 0nat, 0nat,
{
    if idx < 0 || idx >= rules.len() {
        Err(MakeErrorModel::Syntax)
    } else if fuel == 0 {
        Err(MakeErrorModel::CircularDependency(rules[idx].target))
    } else {
        match build_prereqs(rules, fs, now, rules[idx].prereqs, 0, (fuel - 1) as nat) {
            Err(e) => Err(e),
            Ok((jobs, newest)) => {
                if fs.dom().contains(rules[idx].target) && newest < fs[rules[idx].target] {
                    Ok((jobs, fs[rules[idx].target]))
                } else {
                    Ok((jobs + jobs_of(rules[idx]), now))
                }
            },
        }
    }
}

/// What resolving the prerequisites `pr[j..]` does: the jobs needed to
/// bring each one up to date, in order, and the newest timestamp among
/// them (zero when there are none).  A prerequisite with a rule is built
/// recursively; otherwise it must exist in `fs`.
pub open spec fn build_prereqs(
    rules: Seq<FinalRuleModel>,
    fs: Map<Seq<u8>, u64>,
    now: u64,
    pr: Seq<Seq<u8>>,
    j: int,
    fuel: nat,
) -> Result<(Seq<JobModel>, u64), MakeErrorModel>
    decreases fuel, 1nat, pr.len() - j,
{
    if j < 0 || j >= pr.len() {
        Ok((seq![], 0))
    } else {
        let head = match find_rule_from(rules, pr[j], 0) {
            Some(k) => build_plan(rules, fs, now, k, fuel),
            None => if fs.dom().contains(pr[j]) {
                Ok((seq![], fs[pr[j]]))
            } else {
                Err(MakeErrorModel::NoRuleToBuild(pr[j]))
            },
        };
        match head {
            Err(e) => Err(e),
            Ok((jobs0, t0)) => match build_prereqs(rules, fs, now, pr, j + 1, fuel) {
                Err(e) => Err(e),
                Ok((jobs1, t1)) => Ok((jobs0 + jobs1, max64(t0, t1))),
            },
        }
    }
}

/// The raw rule list viewed abstractly.
pub open spec fn raw_rules_view(raw: Seq<RawRule>) -> Seq<RawRuleModel> {
    Seq::new(raw.len(), |i: int| raw[i]@)
}

/// The bytes of `.POSIX`.
fn posix_bytes() -> (r: Vec<u8>)
    ensures
        r@ == posix_target(),
{
    let mut v: Vec<u8> = Vec::new();
    v.push(46);
    v.push(80);
    v.push(79);
    v.push(83);
    v.push(73);
    v.push(88);
    proof {
        assert(v@ =~= posix_target());
    }
    v
}

/// The bytes of `.SUFFIXES`.
fn suffixes_bytes() -> (r: Vec<u8>)
    ensures
        r@ == suffixes_target(),
{
    let mut v: Vec<u8> = Vec::new();
    v.push(46);
    v.push(83);
    v.push(85);
    v.push(70);
    v.push(70);
    v.push(73);
    v.push(88);
    v.push(69);
    v.push(83);
    proof {
        assert(v@ =~= suffixes_target());
    }
    v
}

/// The bytes of the `.SUFFIXES` compatibility sentinel.
fn hpux_bytes() -> (r: Vec<u8>)
    ensures
        r@ == hpux_sentinel(),
{
    let mut v: Vec<u8> = Vec::new();
    v.push(46);
    v.push(104);
    v.push(112);
    v.push(117);
    v.push(120);
    v.push(95);
    v.push(109);
    v.push(97);
    v.push(107);
    v.push(101);
    v.push(95);
    v.push(110);
    v.push(101);
    v.push(101);
    v.push(100);
    v.push(115);
    v.push(95);
    v.push(115);
    v.push(117);
    v.push(102);
    v.push(102);
    v.push(105);
    v.push(120);
    v.push(95);
    v.push(108);
    v.push(105);
    v.push(115);
    v.push(116);
    proof {
        assert(v@ =~= hpux_sentinel());
    }
    v
}

/// Decide how the finalizer treats `rule`: `Ok(true)` to consume it
/// without effect, `Ok(false)` to merge it as an ordinary rule.
fn classify(rule: &RawRule) -> (r: Result<bool, MakeError>)
    ensures
        match r {
            Ok(discard) => classify_raw(rule@) == if discard {
                RawClass::Discarded
            } else {
                RawClass::Ordinary
            },
            Err(e) => classify_raw(rule@) == RawClass::Rejected(e@),
        },
{
    if rule.targets.len() != 1 {
        return Ok(false);
    }
    let t = &rule.targets[0];
    proof {
        assert(t@ == rule@.targets[0]);
    }
    let posix = posix_bytes();
    if slice_eq(t.as_slice(), posix.as_slice()) {
        return Ok(true);
    }
    let suffixes = suffixes_bytes();
    if slice_eq(t.as_slice(), suffixes.as_slice()) {
        if rule.prereqs.len() == 0 {
            return Ok(true);
        }
        let hpux = hpux_bytes();
        if rule.prereqs.len() == 1 && slice_eq(rule.prereqs[0].as_slice(), hpux.as_slice()) {
            proof {
                assert(rule@.prereqs[0] == rule.prereqs@[0]@);
            }
            return Ok(true);
        }
        proof {
            assert(rule.prereqs.len() == 1 ==> rule@.prereqs[0] == rule.prereqs@[0]@);
        }
        return Err(MakeError::Unsupported(crate::text::copy_vec(t)));
    }
    if t.len() >= 1 && t[0] == 46 {
        if t.len() < 2 {
            return Err(MakeError::Unsupported(crate::text::copy_vec(t)));
        }
        if !(t[1] >= 65 && t[1] <= 90) {
            return Ok(true);
        }
    }
    Ok(false)
}

/// The index of the first rule in `rules` whose target is `name`.
pub fn find_final(rules: &Vec<FinalRule>, name: &[u8]) -> (r: Option<usize>)
    ensures
        match r {
            Some(k) => k < rules@.len() && find_rule_from(rules_view(rules@), name@, 0) == Some(
                k as int,
            ),
            None => find_rule_from(rules_view(rules@), name@, 0) is None,
        },
{
    let mut i: usize = 0;
    while i < rules.len()
        invariant
            i <= rules@.len(),
            find_rule_from(rules_view(rules@), name@, 0) == find_rule_from(
                rules_view(rules@),
                name@,
                i as int,
            ),
        decreases rules@.len() - i,
    {
        if slice_eq(rules[i].target.as_slice(), name) {
            return Some(i);
        }
        i = i + 1;
    }
    None
}

/// Merge a raw rule list into the finalized rule set: one rule per
/// distinct target in first-appearance order, prerequisites concatenated
/// across occurrences, recipes taken from the last occurrence; special
/// targets are consumed or rejected as [`classify_raw`] says.
pub fn merge_raw_rules(raw: &Vec<RawRule>) -> (r: Result<Vec<FinalRule>, MakeError>)
    ensures
        match r {
            Ok(rules) => finalize_rules(seq![], raw_rules_view(raw@), 0) == Ok::<
                _,
                MakeErrorModel,
            >(rules_view(rules@)),
            Err(e) => finalize_rules(seq![], raw_rules_view(raw@), 0) == Err::<
                Seq<FinalRuleModel>,
                _,
            >(e@),
        },
{
    let ghost rawv = raw_rules_view(raw@);
    let mut out: Vec<FinalRule> = Vec::new();
    proof {
        assert(rules_view(out@) =~= Seq::<FinalRuleModel>::empty());
        assert(rules_view(out@) =~= seq![]);
    }
    let mut i: usize = 0;
    while i < raw.len()
        invariant
            i <= raw@.len(),
            rawv == raw_rules_view(raw@),
            finalize_rules(seq![], rawv, 0) == finalize_rules(rules_view(out@), rawv, i as int),
        decreases raw@.len() - i,
    {
        let rule = &raw[i];
        proof {
            assert(rule@ == rawv[i as int]);
        }
        match classify(rule) {
            Err(e) => {
                return Err(e);
            },
            Ok(true) => {},
            Ok(false) => {
                let ghost acc0 = rules_view(out@);
                let ghost tv = rule@.targets;
                let ghost pv = rule@.prereqs;
                let ghost rv = rule@.recipes;
                let mut jt: usize = 0;
                while jt < rule.targets.len()
                    invariant
                        jt <= tv.len(),
                        rule == &raw[i as int],
                        i < raw@.len(),
                        tv == rule@.targets,
                        pv == rule@.prereqs,
                        rv == rule@.recipes,
                        merge_targets(acc0, tv, 0, pv, rv) == merge_targets(
                            rules_view(out@),
                            tv,
                            jt as int,
                            pv,
                            rv,
                        ),
                    decreases tv.len() - jt,
                {
                    let ghost prev = rules_view(out@);
                    let target = &rule.targets[jt];
                    proof {
                        assert(target@ == tv[jt as int]);
                    }
                    match find_final(&out, target.as_slice()) {
                        Some(k) => {
                            let mut pr2 = crate::text::copy_vec_list(&out[k].prereqs);
                            let mut add = crate::text::copy_vec_list(&rule.prereqs);
                            pr2.append(&mut add);
                            proof {
                                assert(pr2.deep_view() =~~= prev[k as int].prereqs + pv);
                            }
                            let updated = FinalRule {
                                target: crate::text::copy_vec(&out[k].target),
                                prereqs: pr2,
                                recipes: crate::text::copy_vec_list(&rule.recipes),
                            };
                            out.set(k, updated);
                            proof {
                                assert(rules_view(out@) =~~= prev.update(
                                    k as int,
                                    FinalRuleModel {
                                        target: prev[k as int].target,
                                        prereqs: prev[k as int].prereqs + pv,
                                        recipes: rv,
                                    },
                                ));
                            }
                        },
                        None => {
                            out.push(
                                FinalRule {
                                    target: crate::text::copy_vec(target),
                                    prereqs: crate::text::copy_vec_list(&rule.prereqs),
                                    recipes: crate::text::copy_vec_list(&rule.recipes),
                                },
                            );
                            proof {
                                assert(rules_view(out@) =~~= prev.push(
                                    FinalRuleModel { target: tv[jt as int], prereqs: pv, recipes: rv },
                                ));
                            }
                        },
                    }
                    jt = jt + 1;
                }
            },
        }
        i = i + 1;
    }
    Ok(out)
}

/// A found rule's index is in range and its target is the searched name.
pub proof fn lemma_find_rule_target(rules: Seq<FinalRuleModel>, name: Seq<u8>, i: int)
    ensures
        match find_rule_from(rules, name, i) {
            Some(k) => i <= k < rules.len() && rules[k].target == name,
            None => true,
        },
    decreases rules.len() - i,
{
    if 0 <= i < rules.len() && rules[i].target != name {
        lemma_find_rule_target(rules, name, i + 1);
    }
}

/// The rule at `idx` is up to date: its target exists on disk with a
/// positive timestamp, every prerequisite is a file on disk or an
/// up-to-date rule, and each prerequisite's timestamp is strictly older
/// than the target's.
pub open spec fn up_to_date(
    rules: Seq<FinalRuleModel>,
    fs: Map<Seq<u8>, u64>,
    idx: int,
    fuel: nat,
) -> bool
    decreases fuel, 0nat, 0nat,
{
    &&& 0 <= idx < rules.len()
    &&& fuel > 0
    &&& fs.dom().contains(rules[idx].target)
    &&& fs[rules[idx].target] > 0
    &&& prereqs_up_to_date(
        rules,
        fs,
        rules[idx].prereqs,
        0,
        fs[rules[idx].target],
        (fuel - 1) as nat,
    )
}

/// Every prerequisite in `pr[j..]` resolves to a timestamp strictly below
/// `bound`, recursively through up-to-date rules.
pub open spec fn prereqs_up_to_date(
    rules: Seq<FinalRuleModel>,
    fs: Map<Seq<u8>, u64>,
    pr: Seq<Seq<u8>>,
    j: int,
    bound: u64,
    fuel: nat,
) -> bool
    decreases fuel, 1nat, pr.len() - j,
{
    j >= pr.len() || {
        &&& j >= 0
        &&& match find_rule_from(rules, pr[j], 0) {
            Some(k) => up_to_date(rules, fs, k, fuel),
            None => fs.dom().contains(pr[j]),
        }
        &&& fs.dom().contains(pr[j])
        &&& fs[pr[j]] < bound
        &&& prereqs_up_to_date(rules, fs, pr, j + 1, bound, fuel)
    }
}

/// Up-to-date prerequisites contribute no jobs and a newest timestamp
/// strictly below the bound.
proof fn lemma_prereqs_up_to_date(
    rules: Seq<FinalRuleModel>,
    fs: Map<Seq<u8>, u64>,
    now: u64,
    pr: Seq<Seq<u8>>,
    j: int,
    bound: u64,
    fuel: nat,
)
    requires
        prereqs_up_to_date(rules, fs, pr, j, bound, fuel),
        bound > 0,
        0 <= j <= pr.len(),
    ensures
        ({
            &&& build_prereqs(rules, fs, now, pr, j, fuel) matches Ok((jobs, t))
            &&& build_prereqs(rules, fs, now, pr, j, fuel)->Ok_0.0 == Seq::<JobModel>::empty()
            &&& build_prereqs(rules, fs, now, pr, j, fuel)->Ok_0.1 < bound
        }),
    decreases fuel, 1nat, pr.len() - j,
{
    if j >= pr.len() {
        assert(build_prereqs(rules, fs, now, pr, j, fuel) == Ok::<_, MakeErrorModel>((
            Seq::<JobModel>::empty(),
            0u64,
        ))) by {
            assert(seq![] =~= Seq::<JobModel>::empty());
        }
    } else {
        match find_rule_from(rules, pr[j], 0) {
            Some(k) => {
                lemma_find_rule_target(rules, pr[j], 0);
                lemma_build_idempotent(rules, fs, now, k, fuel);
            },
            None => {},
        }
        lemma_prereqs_up_to_date(rules, fs, now, pr, j + 1, bound, fuel);
        assert(Seq::<JobModel>::empty() + Seq::<JobModel>::empty() =~= Seq::<
            JobModel,
        >::empty());
    }
}

/// Building an up-to-date goal runs nothing: the plan is empty and the
/// goal's own timestamp comes back.  This is why a second build right
/// after a successful one executes no recipes.
pub proof fn lemma_build_idempotent(
    rules: Seq<FinalRuleModel>,
    fs: Map<Seq<u8>, u64>,
    now: u64,
    idx: int,
    fuel: nat,
)
    requires
        up_to_date(rules, fs, idx, fuel),
    ensures
        build_plan(rules, fs, now, idx, fuel) == Ok::<_, MakeErrorModel>((
            Seq::<JobModel>::empty(),
            fs[rules[idx].target],
        )),
    decreases fuel, 0nat, 0nat,
{
    lemma_prereqs_up_to_date(
        rules,
        fs,
        now,
        rules[idx].prereqs,
        0,
        fs[rules[idx].target],
        (fuel - 1) as nat,
    );
}

/// A rule whose single prerequisite is neither a rule target nor an
/// existing file fails with `NoRuleToBuild`, and no recipe is planned.
pub proof fn lemma_missing_prereq(
    rules: Seq<FinalRuleModel>,
    fs: Map<Seq<u8>, u64>,
    now: u64,
    idx: int,
    p: Seq<u8>,
    fuel: nat,
)
    requires
        0 <= idx < rules.len(),
        fuel > 0,
        rules[idx].prereqs == seq![p],
        find_rule_from(rules, p, 0) is None,
        !fs.dom().contains(p),
    ensures
        build_plan(rules, fs, now, idx, fuel) == Err::<(Seq<JobModel>, u64), _>(
            MakeErrorModel::NoRuleToBuild(p),
        ),
{
    assert(rules[idx].prereqs[0] == p);
    assert(build_prereqs(rules, fs, now, rules[idx].prereqs, 0, (fuel - 1) as nat) == Err::<
        (Seq<JobModel>, u64),
        _,
    >(MakeErrorModel::NoRuleToBuild(p)));
}

/// Two raw rules for the same target merge into one finalized rule whose
/// prerequisites are concatenated in order and whose recipes are the
/// second rule's alone.
pub proof fn lemma_merge_two_rules(
    t: Seq<u8>,
    p1: Seq<Seq<u8>>,
    r1: Seq<Seq<u8>>,
    p2: Seq<Seq<u8>>,
    r2: Seq<Seq<u8>>,
)
    requires
        classify_raw(RawRuleModel { targets: seq![t], prereqs: p1, recipes: r1 })
            == RawClass::Ordinary,
        classify_raw(RawRuleModel { targets: seq![t], prereqs: p2, recipes: r2 })
            == RawClass::Ordinary,
    ensures
        finalize_rules(
            seq![],
            seq![
                RawRuleModel { targets: seq![t], prereqs: p1, recipes: r1 },
                RawRuleModel { targets: seq![t], prereqs: p2, recipes: r2 },
            ],
            0,
        ) == Ok::<_, MakeErrorModel>(
            seq![FinalRuleModel { target: t, prereqs: p1 + p2, recipes: r2 }],
        ),
{
    let raw1 = RawRuleModel { targets: seq![t], prereqs: p1, recipes: r1 };
    let raw2 = RawRuleModel { targets: seq![t], prereqs: p2, recipes: r2 };
    let raw = seq![raw1, raw2];
    let acc1 = merge_targets(seq![], raw1.targets, 0, p1, r1);
    assert(find_rule_from(seq![], t, 0) is None);
    assert(merge_target(seq![], t, p1, r1) == seq![].push(
        FinalRuleModel { target: t, prereqs: p1, recipes: r1 },
    ));
    assert(seq![].push(FinalRuleModel { target: t, prereqs: p1, recipes: r1 })
        =~= seq![FinalRuleModel { target: t, prereqs: p1, recipes: r1 }]);
    assert(merge_targets(merge_target(seq![], t, p1, r1), seq![t], 1, p1, r1)
        == merge_target(seq![], t, p1, r1));
    assert(acc1 =~= seq![FinalRuleModel { target: t, prereqs: p1, recipes: r1 }]);
    let one = seq![FinalRuleModel { target: t, prereqs: p1, recipes: r1 }];
    assert(find_rule_from(one, t, 0) == Some(0int));
    let merged = FinalRuleModel { target: t, prereqs: p1 + p2, recipes: r2 };
    assert(merge_target(one, t, p2, r2) =~= seq![merged]);
    let acc2 = merge_targets(acc1, raw2.targets, 0, p2, r2);
    assert(merge_targets(merge_target(one, t, p2, r2), seq![t], 1, p2, r2)
        == merge_target(one, t, p2, r2));
    assert(acc2 =~= seq![merged]);
    assert(raw[0] == raw1);
    assert(raw[1] == raw2);
    assert(finalize_rules(seq![], raw, 0) == finalize_rules(acc1, raw, 1));
    assert(finalize_rules(acc1, raw, 1) == finalize_rules(acc2, raw, 2));
    assert(finalize_rules(acc2, raw, 2) == Ok::<_, MakeErrorModel>(acc2));
}

/// The loaded build model: the variable store left by parsing and the
/// finalized rules in first-appearance order of their targets.
#[derive(Debug)]
pub struct MakeFile {
    vars: VarStore,
    rules: Vec<FinalRule>,
}

/// Abstract form of [`MakeFile`].
#[verifier::ext_equal]
pub ghost struct MakeFileModel {
    pub vars: Map<Seq<u8>, Seq<u8>>,
    pub rules: Seq<FinalRuleModel>,
}

/// The rule list of a makefile, each rule viewed abstractly.
pub open spec fn rules_view(rules: Seq<FinalRule>) -> Seq<FinalRuleModel> {
    Seq::new(rules.len(), |i: int| rules[i]@)
}

impl View for MakeFile {
    type V = MakeFileModel;

    closed spec fn view(&self) -> MakeFileModel {
        MakeFileModel { vars: self.vars@, rules: rules_view(self.rules@) }
    }
}

impl MakeFile {
    /// Assemble a build model from a variable store and finalized rules.
    pub fn new(vars: VarStore, rules: Vec<FinalRule>) -> (r: MakeFile)
        ensures
            r@ == (MakeFileModel { vars: vars@, rules: rules_view(rules@) }),
    {
        MakeFile { vars, rules }
    }

    /// The variable store, for build-time macro expansion.
    pub fn vars(&self) -> (r: &VarStore)
        ensures
            r@ == self@.vars,
    {
        &self.vars
    }

    /// The finalized rules, in first-appearance order of their targets.
    pub fn rules(&self) -> (r: &Vec<FinalRule>)
        ensures
            rules_view(r@) == self@.rules,
    {
        &self.rules
    }

    /// The index of the first rule whose target is `name`.
    pub fn find_rule(&self, name: &[u8]) -> (r: Option<usize>)
        ensures
            match r {
                Some(k) => k < self@.rules.len() && find_rule_from(self@.rules, name@, 0) == Some(
                    k as int,
                ),
                None => find_rule_from(self@.rules, name@, 0) is None,
            },
    {
        let mut i: usize = 0;
        while i < self.rules.len()
            invariant
                i <= self.rules@.len(),
                find_rule_from(self@.rules, name@, 0) == find_rule_from(
                    self@.rules,
                    name@,
                    i as int,
                ),
            decreases self.rules@.len() - i,
        {
            if slice_eq(self.rules[i].target.as_slice(), name) {
                return Some(i);
            }
            i = i + 1;
        }
        None
    }

    /// Walk the prerequisites of the rule at `idx`, appending to `plan`
    /// every recipe job an out-of-date target requires, and return the
    /// freshness timestamp of the rule's target.
    fn build(&self, idx: usize, fs: &FsSnapshot, now: u64, fuel: usize, plan: &mut Vec<RecipeJob>)
        -> (r: Result<u64, MakeError>)
        requires
            idx < self@.rules.len(),
        ensures
            match r {
                Ok(t) => {
                    &&& build_plan(self@.rules, fs@, now, idx as int, fuel as nat) matches Ok(
                        (jobs, stamp),
                    )
                    &&& stamp == t
                    &&& final(plan).deep_view() == old(plan).deep_view() + jobs
                },
                Err(e) => build_plan(self@.rules, fs@, now, idx as int, fuel as nat) == Result::<
                    (Seq<JobModel>, u64),
                    MakeErrorModel,
                >::Err(e@),
            },
        decreases fuel,
    {
        let rule = &self.rules[idx];
        if fuel == 0 {
            let name = crate::text::copy_vec(&rule.target);
            return Err(MakeError::CircularDependency(name));
        }
        let ghost rules = self@.rules;
        let ghost pr = rules[idx as int].prereqs;
        let ghost plan0 = plan.deep_view();
        let mut newest: u64 = 0;
        let mut j: usize = 0;
        proof {
            assert(rule.prereqs.deep_view() == pr);
            assert(plan.deep_view().subrange(0, plan0.len() as int) =~= plan0);
        }
        while j < rule.prereqs.len()
            invariant
                j <= pr.len(),
                1 <= fuel,
                rule == &self.rules[idx as int],
                idx < self@.rules.len(),
                rules == self@.rules,
                pr == rule.prereqs.deep_view(),
                plan.deep_view().len() >= plan0.len(),
                plan.deep_view().subrange(0, plan0.len() as int) == plan0,
                ({
                    let done = plan.deep_view().skip(plan0.len() as int);
                    match build_prereqs(rules, fs@, now, pr, j as int, (fuel - 1) as nat) {
                        Ok((jobs1, t1)) => build_prereqs(rules, fs@, now, pr, 0, (fuel - 1) as nat)
                            == Ok::<_, MakeErrorModel>((done + jobs1, max64(newest, t1))),
                        Err(e) => build_prereqs(rules, fs@, now, pr, 0, (fuel - 1) as nat)
                            == Err::<(Seq<JobModel>, u64), _>(e),
                    }
                }),
            decreases pr.len() - j,
        {
            let ghost done_prev = plan.deep_view().skip(plan0.len() as int);
            let prereq = &rule.prereqs[j];
            proof {
                assert(prereq@ == pr[j as int]);
            }
            let found = self.find_rule(prereq.as_slice());
            let t: u64 = match found {
                Some(k) => {
                    match self.build(k, fs, now, fuel - 1, plan) {
                        Ok(t) => t,
                        Err(e) => {
                            proof {
                                assert(build_prereqs(
                                    rules,
                                    fs@,
                                    now,
                                    pr,
                                    j as int,
                                    (fuel - 1) as nat,
                                ) == Err::<(Seq<JobModel>, u64), _>(e@));
                            }
                            return Err(e);
                        },
                    }
                },
                None => {
                    match fs.get(prereq.as_slice()) {
                        Some(t) => t,
                        None => {
                            let name = crate::text::copy_vec(prereq);
                            proof {
                                assert(build_prereqs(
                                    rules,
                                    fs@,
                                    now,
                                    pr,
                                    j as int,
                                    (fuel - 1) as nat,
                                ) == Err::<(Seq<JobModel>, u64), _>(
                                    MakeErrorModel::NoRuleToBuild(pr[j as int]),
                                ));
                            }
                            return Err(MakeError::NoRuleToBuild(name));
                        },
                    }
                },
            };
            proof {
                let done = plan.deep_view().skip(plan0.len() as int);
                assert(plan.deep_view().subrange(0, plan0.len() as int) =~= plan0);
                let head = match find_rule_from(rules, pr[j as int], 0) {
                    Some(k) => build_plan(rules, fs@, now, k, (fuel - 1) as nat),
                    None => if fs@.dom().contains(pr[j as int]) {
                        Ok((seq![], fs@[pr[j as int]]))
                    } else {
                        Err(MakeErrorModel::NoRuleToBuild(pr[j as int]))
                    },
                };
                assert(head matches Ok((jobs_h, t_h)) && t_h == t && done =~= done_prev + jobs_h);
                let jobs_h = head->Ok_0.0;
                let t_h = head->Ok_0.1;
                match build_prereqs(rules, fs@, now, pr, j + 1 as int, (fuel - 1) as nat) {
                    Ok((jobs1, t1)) => {
                        assert(build_prereqs(rules, fs@, now, pr, j as int, (fuel - 1) as nat)
                            == Ok::<_, MakeErrorModel>((jobs_h + jobs1, max64(t_h, t1))));
                        assert(done_prev + (jobs_h + jobs1) =~= (done_prev + jobs_h) + jobs1);
                        assert(max64(newest, max64(t_h, t1)) == max64(max64(newest, t_h), t1));
                    },
                    Err(e) => {
                        assert(build_prereqs(rules, fs@, now, pr, j as int, (fuel - 1) as nat)
                            == Err::<(Seq<JobModel>, u64), _>(e));
                    },
                }
            }
            newest = if t >= newest {
                t
            } else {
                newest
            };
            j = j + 1;
        }
        proof {
            assert(plan.deep_view().skip(plan0.len() as int) + seq![] =~= plan.deep_view().skip(
                plan0.len() as int,
            ));
            assert(build_prereqs(rules, fs@, now, pr, 0, (fuel - 1) as nat) == Ok::<
                _,
                MakeErrorModel,
            >((plan.deep_view().skip(plan0.len() as int), newest)));
        }
        // prerequisites resolved; decide staleness of the target itself
        let target_time = fs.get(rule.target.as_slice());
        match target_time {
            Some(t) if newest < t => {
                proof {
                    assert(plan.deep_view() =~= plan0 + plan.deep_view().skip(plan0.len() as int));
                }
                return Ok(t);
            },
            _ => {},
        }
        let mut i: usize = 0;
        let ghost done = plan.deep_view().skip(plan0.len() as int);
        proof {
            assert(jobs_of(rules[idx as int]).take(0) =~= Seq::<JobModel>::empty());
            assert(plan.deep_view() =~= plan0 + done + jobs_of(rules[idx as int]).take(0));
        }
        while i < rule.recipes.len()
            invariant
                i <= rule.recipes@.len(),
                rule == &self.rules[idx as int],
                idx < self@.rules.len(),
                rules == self@.rules,
                plan.deep_view() == plan0 + done + jobs_of(rules[idx as int]).take(i as int),
            decreases rule.recipes@.len() - i,
        {
            let ghost prev = plan.deep_view();
            let job_target = crate::text::copy_vec(&rule.target);
            let job_prereqs = crate::text::copy_vec_list(&rule.prereqs);
            let job_line = crate::text::copy_vec(&rule.recipes[i]);
            plan.push(RecipeJob { target: job_target, prereqs: job_prereqs, line: job_line });
            proof {
                let jm = JobModel {
                    target: rules[idx as int].target,
                    prereqs: rules[idx as int].prereqs,
                    line: rules[idx as int].recipes[i as int],
                };
                assert(rules[idx as int].recipes[i as int] =~= rule.recipes[i as int]@);
                assert(plan.deep_view() =~~= prev.push(jm));
                assert(jobs_of(rules[idx as int])[i as int] == jm);
                assert(prev.push(jm) =~= plan0 + done + jobs_of(rules[idx as int]).take(
                    i + 1 as int,
                ));
            }
            i = i + 1;
        }
        proof {
            assert(jobs_of(rules[idx as int]).take(rules[idx as int].recipes.len() as int)
                =~= jobs_of(rules[idx as int]));
            assert(plan.deep_view() =~= plan0 + (done + jobs_of(rules[idx as int])));
        }
        Ok(now)
    }

    /// Plan a build of the default goal: the first finalized rule.
    /// Returns the recipe jobs to run, in order, and the goal's resulting
    /// freshness timestamp.
    pub fn build_default(&self, fs: &FsSnapshot, now: u64) -> (r: Result<
        (Vec<RecipeJob>, u64),
        MakeError,
    >)
        ensures
            match r {
                Ok((plan, t)) => self@.rules.len() > 0 && build_plan(
                    self@.rules,
                    fs@,
                    now,
                    0,
                    self@.rules.len() as nat,
                ) == Ok::<_, MakeErrorModel>((plan.deep_view(), t)),
                Err(e) => {
                    ||| (self@.rules.len() == 0 && e@ == MakeErrorModel::NoTargets)
                    ||| build_plan(self@.rules, fs@, now, 0, self@.rules.len() as nat) == Err::<
                        (Seq<JobModel>, u64),
                        _,
                    >(e@)
                },
            },
    {
        if self.rules.len() == 0 {
            return Err(MakeError::NoTargets);
        }
        let mut plan: Vec<RecipeJob> = Vec::new();
        proof {
            assert(plan.deep_view() =~~= Seq::<JobModel>::empty());
        }
        let fuel = self.rules.len();
        match self.build(0, fs, now, fuel, &mut plan) {
            Ok(t) => {
                proof {
                    let jobs = build_plan(self@.rules, fs@, now, 0, fuel as nat)->Ok_0.0;
                    assert(plan.deep_view() =~~= Seq::<JobModel>::empty() + jobs);
                }
                Ok((plan, t))
            },
            Err(e) => Err(e),
        }
    }

    /// Plan a build of the goal named `target`.  Fails with `NoRuleToMake`
    /// when no rule has that target.
    pub fn build_target(&self, target: &[u8], fs: &FsSnapshot, now: u64) -> (r: Result<
        (Vec<RecipeJob>, u64),
        MakeError,
    >)
        ensures
            match r {
                Ok((plan, t)) => {
                    &&& find_rule_from(self@.rules, target@, 0) matches Some(k)
                    &&& build_plan(self@.rules, fs@, now, k, self@.rules.len() as nat) == Ok::<
                        _,
                        MakeErrorModel,
                    >((plan.deep_view(), t))
                },
                Err(e) => {
                    ||| (find_rule_from(self@.rules, target@, 0) is None && e@
                        == MakeErrorModel::NoRuleToMake(target@))
                    ||| (find_rule_from(self@.rules, target@, 0) matches Some(k) && build_plan(
                        self@.rules,
                        fs@,
                        now,
                        k,
                        self@.rules.len() as nat,
                    ) == Err::<(Seq<JobModel>, u64), _>(e@))
                },
            },
    {
        match self.find_rule(target) {
            None => {
                let name = crate::text::sub_vec(target, 0, target.len());
                proof {
                    assert(name@ =~= target@);
                }
                Err(MakeError::NoRuleToMake(name))
            },
            Some(idx) => {
                let mut plan: Vec<RecipeJob> = Vec::new();
                proof {
                    assert(plan.deep_view() =~~= Seq::<JobModel>::empty());
                }
                let fuel = self.rules.len();
                match self.build(idx, fs, now, fuel, &mut plan) {
                    Ok(t) => {
                        proof {
                            let jobs = build_plan(
                                self@.rules,
                                fs@,
                                now,
                                idx as int,
                                fuel as nat,
                            )->Ok_0.0;
                            assert(plan.deep_view() =~~= Seq::<JobModel>::empty() + jobs);
                        }
                        Ok((plan, t))
                    },
                    Err(e) => Err(e),
                }
            },
        }
    }
}

} // verus!
