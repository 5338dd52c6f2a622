//! Build-time expansion: automatic variables, the `shell` pseudo-function
//! in recipes, and the `@`/silent echo decisions.

use lc_make::expand::{expand_recipe_line, prepare_recipe_line, ExpandLine};
use lc_make::loader::{LoadStatus, MakeFileLoader};
use lc_make::makefile::{FsSnapshot, MakeFile};

fn bytes(s: &str) -> Vec<u8> {
    s.as_bytes().to_vec()
}

fn parse(s: &str) -> MakeFile {
    let mut loader = MakeFileLoader::new();
    let st = loader.load(bytes(s)).expect("parse failed");
    assert!(matches!(st, LoadStatus::Done));
    loader.finalise().expect("finalise failed")
}

fn expand_done(
    mf: &MakeFile,
    line: &Vec<u8>,
    target: &Vec<u8>,
    prereqs: &Vec<Vec<u8>>,
) -> Vec<u8> {
    match expand_recipe_line(line, mf.vars(), target, prereqs, &Vec::new()) {
        ExpandLine::Done(v) => v,
        _ => panic!("expansion did not finish"),
    }
}

#[test]
fn automatic_variables_expand_at_build_time() {
    let mf = parse("a: b c\n\techo $@ $?\n");
    let mut fs = FsSnapshot::new();
    fs.set(bytes("b"), 1);
    fs.set(bytes("c"), 1);
    let (plan, _) = mf.build_default(&fs, 9).expect("build failed");
    assert_eq!(plan.len(), 1);
    assert_eq!(plan[0].line, bytes("echo $@ $?"));
    let expanded = expand_done(&mf, &plan[0].line, &plan[0].target, &plan[0].prereqs);
    assert_eq!(expanded, bytes("echo a b c"));
}

#[test]
fn dollar_less_also_expands_to_the_prerequisites() {
    let mf = parse("a: b c\n\tcat $<\n");
    let line = bytes("cat $<");
    let prereqs = vec![bytes("b"), bytes("c")];
    let expanded = expand_done(&mf, &line, &bytes("a"), &prereqs);
    assert_eq!(expanded, bytes("cat b c"));
}

#[test]
fn variable_reference_in_recipe_uses_the_store() {
    let mf = parse("FLAGS = -O2 \na:\n\tcc $(FLAGS) x.c\n");
    let line = bytes("cc $(FLAGS) x.c");
    let expanded = expand_done(&mf, &line, &bytes("a"), &Vec::new());
    assert_eq!(expanded, bytes("cc -O2 x.c"));
}

#[test]
fn shell_in_recipe_asks_then_substitutes() {
    // `$$` defers the reference past parse time, so the shell runs at
    // build time
    let mf = parse("a:\n\techo $$(shell date)\n");
    assert_eq!(mf.rules()[0].recipes(), &vec![bytes("echo $(shell date)")]);
    let line = bytes("echo $(shell date)");
    let cmd = match expand_recipe_line(&line, mf.vars(), &bytes("a"), &Vec::new(), &Vec::new()) {
        ExpandLine::Shell(c) => c,
        _ => panic!("expected a shell request"),
    };
    assert_eq!(cmd, bytes("date"));
    let outs = vec![bytes("Mon\n")];
    let expanded = match expand_recipe_line(&line, mf.vars(), &bytes("a"), &Vec::new(), &outs) {
        ExpandLine::Done(v) => v,
        _ => panic!("expansion did not finish"),
    };
    assert_eq!(expanded, bytes("echo Mon"));
}

#[test]
fn leading_at_strips_and_silences_the_line() {
    let (cmd, echo) = prepare_recipe_line(&bytes("  @echo hi  "), false);
    assert_eq!(cmd, bytes("echo hi"));
    assert!(!echo);
}

#[test]
fn plain_line_echoes_unless_silent() {
    let (cmd, echo) = prepare_recipe_line(&bytes(" echo hi "), false);
    assert_eq!(cmd, bytes("echo hi"));
    assert!(echo);
    let (cmd2, echo2) = prepare_recipe_line(&bytes(" echo hi "), true);
    assert_eq!(cmd2, bytes("echo hi"));
    assert!(!echo2);
}

#[test]
fn stray_escape_at_build_time_is_rejected() {
    let mf = parse("a:\n\ttrue\n");
    let line = bytes("echo $zfoo");
    match expand_recipe_line(&line, mf.vars(), &bytes("a"), &Vec::new(), &Vec::new()) {
        ExpandLine::Fail(e) => {
            assert_eq!(e, lc_make::errors::MakeError::UnknownEscape(b'z'));
        },
        _ => panic!("expected a failure"),
    }
}
