//! Building: rule merging, staleness decisions, the planned commands, and
//! the build failures.

use lc_make::errors::MakeError;
use lc_make::loader::{LoadStatus, MakeFileLoader};
use lc_make::makefile::{FsSnapshot, MakeFile};

fn bytes(s: &str) -> Vec<u8> {
    s.as_bytes().to_vec()
}

fn parse(s: &str) -> MakeFile {
    let mut loader = MakeFileLoader::new();
    let st = loader.load(bytes(s)).expect("parse failed");
    assert!(matches!(st, LoadStatus::Done));
    loader.finalise().expect("finalise failed")
}

#[test]
fn end_to_end_build_plans_the_expanded_command() {
    let mf = parse("CC = gcc\nout: in.c\n\t$(CC) -o out in.c\n");
    let mut fs = FsSnapshot::new();
    fs.set(bytes("in.c"), 100);
    let (plan, stamp) = mf.build_default(&fs, 200).expect("build failed");
    assert_eq!(stamp, 200);
    assert_eq!(plan.len(), 1);
    assert_eq!(plan[0].target, bytes("out"));
    // the $(CC) reference was already resolved while parsing
    assert_eq!(plan[0].line, bytes("gcc -o out in.c"));
    let expanded = match lc_make::expand::expand_recipe_line(
        &plan[0].line,
        mf.vars(),
        &plan[0].target,
        &plan[0].prereqs,
        &Vec::new(),
    ) {
        lc_make::expand::ExpandLine::Done(v) => v,
        _ => panic!("expansion did not finish"),
    };
    assert_eq!(expanded, bytes("gcc -o out in.c"));
    let (cmd, echo) = lc_make::expand::prepare_recipe_line(&expanded, false);
    assert_eq!(cmd, bytes("gcc -o out in.c"));
    assert!(echo);
}

#[test]
fn second_build_with_fresh_target_runs_nothing() {
    let mf = parse("CC = gcc\nout: in.c\n\t$(CC) -o out in.c\n");
    let mut fs = FsSnapshot::new();
    fs.set(bytes("in.c"), 100);
    fs.set(bytes("out"), 300);
    let (plan, stamp) = mf.build_default(&fs, 400).expect("build failed");
    assert_eq!(plan.len(), 0);
    assert_eq!(stamp, 300);
}

#[test]
fn equal_timestamps_mean_a_rebuild() {
    let mf = parse("out: dep\n\ttouch out\n");
    let mut fs = FsSnapshot::new();
    fs.set(bytes("dep"), 5);
    fs.set(bytes("out"), 5);
    let (plan, _) = mf.build_default(&fs, 9).expect("build failed");
    assert_eq!(plan.len(), 1);
}

#[test]
fn merged_rules_concatenate_prereqs_and_keep_last_recipes() {
    let mf = parse("t: a\n\tfirst\nt: b\n\tsecond\n");
    assert_eq!(mf.rules().len(), 1);
    let rule = &mf.rules()[0];
    assert_eq!(rule.target(), &bytes("t"));
    assert_eq!(rule.prereqs(), &vec![bytes("a"), bytes("b")]);
    assert_eq!(rule.recipes(), &vec![bytes("second")]);
    let mut fs = FsSnapshot::new();
    fs.set(bytes("a"), 1);
    fs.set(bytes("b"), 1);
    let (plan, _) = mf.build_target(b"t", &fs, 10).expect("build failed");
    assert_eq!(plan.len(), 1);
    assert_eq!(plan[0].line, bytes("second"));
    assert_eq!(plan[0].prereqs, vec![bytes("a"), bytes("b")]);
}

#[test]
fn multi_target_line_makes_one_rule_per_target() {
    let mf = parse("a   b : c\n\techo hi\n");
    assert_eq!(mf.rules().len(), 2);
    let mut fs = FsSnapshot::new();
    fs.set(bytes("c"), 1);
    let (plan, _) = mf.build_target(b"b", &fs, 10).expect("build failed");
    assert_eq!(plan.len(), 1);
    assert_eq!(plan[0].target, bytes("b"));
}

#[test]
fn prerequisites_build_recursively_in_order() {
    let mf = parse("top: mid\n\tmake top\nmid: leaf\n\tmake mid\n");
    let mut fs = FsSnapshot::new();
    fs.set(bytes("leaf"), 50);
    let (plan, stamp) = mf.build_default(&fs, 99).expect("build failed");
    assert_eq!(stamp, 99);
    assert_eq!(plan.len(), 2);
    assert_eq!(plan[0].target, bytes("mid"));
    assert_eq!(plan[1].target, bytes("top"));
}

#[test]
fn fresh_prerequisite_rule_reports_its_own_stamp() {
    let mf = parse("top: mid\n\tmake top\nmid: leaf\n\tmake mid\n");
    let mut fs = FsSnapshot::new();
    fs.set(bytes("leaf"), 10);
    fs.set(bytes("mid"), 20);
    fs.set(bytes("top"), 30);
    let (plan, stamp) = mf.build_default(&fs, 99).expect("build failed");
    assert_eq!(plan.len(), 0);
    assert_eq!(stamp, 30);
}

#[test]
fn missing_dependency_fails_with_no_rule() {
    let mf = parse("foo: bar\n\ttouch foo\n");
    let fs = FsSnapshot::new();
    let r = mf.build_target(b"foo", &fs, 10);
    assert_eq!(r.unwrap_err(), MakeError::NoRuleToBuild(bytes("bar")));
}

#[test]
fn unknown_goal_fails_with_no_rule_to_make() {
    let mf = parse("a: \n\techo\n");
    let fs = FsSnapshot::new();
    let r = mf.build_target(b"nope", &fs, 10);
    assert_eq!(r.unwrap_err(), MakeError::NoRuleToMake(bytes("nope")));
}

#[test]
fn empty_rule_set_fails_with_no_targets() {
    let mf = parse("A = 1\n");
    let fs = FsSnapshot::new();
    let r = mf.build_default(&fs, 10);
    assert_eq!(r.unwrap_err(), MakeError::NoTargets);
}

#[test]
fn dependency_cycle_fails_fast() {
    let mf = parse("a: b\n\techo a\nb: a\n\techo b\n");
    let fs = FsSnapshot::new();
    let r = mf.build_target(b"a", &fs, 10);
    assert!(matches!(r.unwrap_err(), MakeError::CircularDependency(_)));
}

#[test]
fn rule_without_recipe_builds_through_its_prereqs() {
    let mf = parse("all: sub\nsub: src\n\tcompile\n");
    let mut fs = FsSnapshot::new();
    fs.set(bytes("src"), 7);
    let (plan, _) = mf.build_default(&fs, 50).expect("build failed");
    assert_eq!(plan.len(), 1);
    assert_eq!(plan[0].line, bytes("compile"));
}

#[test]
fn blank_and_comment_lines_inside_recipes_are_skipped() {
    let mf = parse("a:\n\tfirst\n# note\n\n\tsecond\nb:\n\tother\n");
    assert_eq!(mf.rules().len(), 2);
    assert_eq!(
        mf.rules()[0].recipes(),
        &vec![bytes("first"), bytes("second")]
    );
}
