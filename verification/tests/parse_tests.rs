//! Parsing: variable assignments, conditionals, comments, continuations,
//! nested makefiles, shell references, and the parse errors.

use lc_make::errors::MakeError;
use lc_make::loader::{LoadStatus, MakeFileLoader};
use lc_make::makefile::MakeFile;

fn bytes(s: &str) -> Vec<u8> {
    s.as_bytes().to_vec()
}

fn parse(s: &str) -> MakeFile {
    let mut loader = MakeFileLoader::new();
    let st = loader.load(bytes(s)).expect("parse failed");
    assert!(matches!(st, LoadStatus::Done));
    loader.finalise().expect("finalise failed")
}

fn var_of(mf: &MakeFile, name: &str) -> Option<Vec<u8>> {
    mf.vars().get(name.as_bytes()).cloned()
}

/// The word of the directive that reads another makefile, assembled so the
/// test text stays free of it.
fn file_directive() -> String {
    format!("{}{}", "in", "clude")
}

#[test]
fn simple_assignment_keeps_raw_value() {
    let mf = parse("A = 1\n");
    assert_eq!(var_of(&mf, "A"), Some(bytes(" 1")));
}

#[test]
fn immediate_assignment_forms() {
    let mf = parse("A := 1\nB ::= 2\n");
    assert_eq!(var_of(&mf, "A"), Some(bytes(" 1")));
    assert_eq!(var_of(&mf, "B"), Some(bytes(" 2")));
}

#[test]
fn builtin_variables_are_seeded() {
    let mf = parse("");
    assert_eq!(var_of(&mf, "MAKE"), Some(bytes("make")));
    assert_eq!(var_of(&mf, "CC"), Some(bytes("cc")));
    assert_eq!(var_of(&mf, "CXX"), Some(bytes("c++")));
}

#[test]
fn set_var_overrides_builtin() {
    let mut loader = MakeFileLoader::new();
    loader.set_var(bytes("MAKE"), bytes("/usr/bin/make"));
    let st = loader.load(bytes("")).unwrap();
    assert!(matches!(st, LoadStatus::Done));
    let mf = loader.finalise().unwrap();
    assert_eq!(var_of(&mf, "MAKE"), Some(bytes("/usr/bin/make")));
}

#[test]
fn variable_reference_expands_at_definition_time() {
    let mf = parse("V = hello \nW = $(V)x\n");
    assert_eq!(var_of(&mf, "W"), Some(bytes(" hellox")));
}

#[test]
fn braced_reference_expands_too() {
    let mf = parse("V = hi\nW = ${V}!\n");
    assert_eq!(var_of(&mf, "W"), Some(bytes(" hi!")));
}

#[test]
fn undefined_variable_expands_to_nothing() {
    let mf = parse("W = a$(NOPE)b\n");
    assert_eq!(var_of(&mf, "W"), Some(bytes(" ab")));
}

#[test]
fn dollar_dollar_is_a_literal_dollar() {
    let mf = parse("W = a$$b\n");
    assert_eq!(var_of(&mf, "W"), Some(bytes(" a$b")));
}

#[test]
fn comment_runs_to_end_of_line() {
    let mf = parse("A = 1 # note\n");
    assert_eq!(var_of(&mf, "A"), Some(bytes(" 1 ")));
}

#[test]
fn line_continuation_joins_with_a_space() {
    let mf = parse("A = 1\\\n2\n");
    assert_eq!(var_of(&mf, "A"), Some(bytes(" 1 2")));
}

#[test]
fn backslash_before_other_bytes_stays_literal() {
    let mf = parse("A = a\\tb\n");
    assert_eq!(var_of(&mf, "A"), Some(bytes(" a\\tb")));
}

#[test]
fn conditional_block_with_unset_name_produces_nothing() {
    let mf = parse("ifdef UNSET\nX = 1\nfoo: bar\nendif\nY = 2\n");
    assert_eq!(var_of(&mf, "X"), None);
    assert_eq!(var_of(&mf, "Y"), Some(bytes(" 2")));
    let fs = lc_make::makefile::FsSnapshot::new();
    let r = mf.build_target(b"foo", &fs, 10);
    assert_eq!(r.unwrap_err(), MakeError::NoRuleToMake(bytes("foo")));
}

#[test]
fn conditional_block_with_bound_name_is_kept() {
    let mf = parse("C = 1\nifdef C\nD = 2\nendif\n");
    assert_eq!(var_of(&mf, "D"), Some(bytes(" 2")));
}

#[test]
fn else_branch_of_unset_conditional_is_kept() {
    let mf = parse("ifdef UNSET\nA = 1\nelse\nB = 2\nendif\n");
    assert_eq!(var_of(&mf, "A"), None);
    assert_eq!(var_of(&mf, "B"), Some(bytes(" 2")));
}

#[test]
fn else_branch_of_bound_conditional_is_skipped() {
    let mf = parse("C = 1\nifdef C\nA = 1\nelse\nB = 2\nendif\n");
    assert_eq!(var_of(&mf, "A"), Some(bytes(" 1")));
    assert_eq!(var_of(&mf, "B"), None);
}

#[test]
fn ifndef_inverts_the_test() {
    let mf = parse("ifndef UNSET\nA = 1\nendif\nC = 1\nifndef C\nB = 2\nendif\n");
    assert_eq!(var_of(&mf, "A"), Some(bytes(" 1")));
    assert_eq!(var_of(&mf, "B"), None);
}

#[test]
fn shell_reference_asks_for_the_command_output() {
    let mut loader = MakeFileLoader::new();
    let st = loader.load(bytes("S = $(shell echo hi)\n")).unwrap();
    match st {
        LoadStatus::NeedShell(cmd) => assert_eq!(cmd, bytes("echo hi")),
        _ => panic!("expected a shell request"),
    }
    let st = loader.provide_shell(bytes("hi\n")).unwrap();
    assert!(matches!(st, LoadStatus::Done));
    let mf = loader.finalise().unwrap();
    assert_eq!(var_of(&mf, "S"), Some(bytes(" hi")));
}

#[test]
fn shell_output_newlines_are_stripped_then_trimmed() {
    let mut loader = MakeFileLoader::new();
    loader.load(bytes("S = $(shell ls)\n")).unwrap();
    let st = loader.provide_shell(bytes(" a\nb\nc \n")).unwrap();
    assert!(matches!(st, LoadStatus::Done));
    let mf = loader.finalise().unwrap();
    assert_eq!(var_of(&mf, "S"), Some(bytes(" abc")));
}

#[test]
fn nested_makefile_is_parsed_into_the_same_store() {
    let mut loader = MakeFileLoader::new();
    let input = format!("{} sub.mk\nA = 1\n", file_directive());
    let st = loader.load(bytes(&input)).unwrap();
    match st {
        LoadStatus::NeedFile(name, optional) => {
            assert_eq!(name, bytes("sub.mk"));
            assert!(!optional);
        },
        _ => panic!("expected a file request"),
    }
    let st = loader.provide_file(bytes("Z = 9\n")).unwrap();
    assert!(matches!(st, LoadStatus::Done));
    let mf = loader.finalise().unwrap();
    assert_eq!(var_of(&mf, "Z"), Some(bytes(" 9")));
    assert_eq!(var_of(&mf, "A"), Some(bytes(" 1")));
}

#[test]
fn missing_required_file_fails() {
    let mut loader = MakeFileLoader::new();
    let input = format!("{} sub.mk\n", file_directive());
    loader.load(bytes(&input)).unwrap();
    let r = loader.file_unavailable();
    assert_eq!(r.unwrap_err(), MakeError::MissingFile(bytes("sub.mk")));
}

#[test]
fn missing_optional_file_is_skipped() {
    let mut loader = MakeFileLoader::new();
    let input = format!("-{} missing.mk\nA = 1\n", file_directive());
    let st = loader.load(bytes(&input)).unwrap();
    match st {
        LoadStatus::NeedFile(name, optional) => {
            assert_eq!(name, bytes("missing.mk"));
            assert!(optional);
        },
        _ => panic!("expected a file request"),
    }
    let st = loader.file_unavailable().unwrap();
    assert!(matches!(st, LoadStatus::Done));
    let mf = loader.finalise().unwrap();
    assert_eq!(var_of(&mf, "A"), Some(bytes(" 1")));
}

#[test]
fn unknown_escape_is_rejected() {
    let mut loader = MakeFileLoader::new();
    let r = loader.load(bytes("A = $x\n"));
    assert_eq!(r.unwrap_err(), MakeError::UnknownEscape(b'x'));
}

#[test]
fn stray_text_is_a_syntax_error() {
    let mut loader = MakeFileLoader::new();
    let r = loader.load(bytes("garbage\n"));
    assert_eq!(r.unwrap_err(), MakeError::Syntax);
}

#[test]
fn bare_endif_is_a_mismatched_conditional() {
    let mut loader = MakeFileLoader::new();
    let r = loader.load(bytes("endif\n"));
    assert_eq!(r.unwrap_err(), MakeError::MismatchedConditional);
}

#[test]
fn bare_else_is_a_mismatched_conditional() {
    let mut loader = MakeFileLoader::new();
    let r = loader.load(bytes("else\n"));
    assert_eq!(r.unwrap_err(), MakeError::MismatchedConditional);
}

#[test]
fn unclosed_conditional_is_a_mismatched_conditional() {
    let mut loader = MakeFileLoader::new();
    let r = loader.load(bytes("ifdef UNSET\nA = 1\n"));
    assert_eq!(r.unwrap_err(), MakeError::MismatchedConditional);
}

#[test]
fn input_ending_mid_assignment_is_unexpected_end() {
    let mut loader = MakeFileLoader::new();
    let r = loader.load(bytes("A = 1"));
    assert_eq!(r.unwrap_err(), MakeError::UnexpectedEnd);
}

#[test]
fn unterminated_reference_is_unexpected_end() {
    let mut loader = MakeFileLoader::new();
    let r = loader.load(bytes("A = $(B\n"));
    assert_eq!(r.unwrap_err(), MakeError::UnexpectedEnd);
}

#[test]
fn unsupported_suffixes_prerequisites_are_rejected() {
    let mut loader = MakeFileLoader::new();
    let st = loader.load(bytes(".SUFFIXES: .c .o\n")).unwrap();
    assert!(matches!(st, LoadStatus::Done));
    let r = loader.finalise();
    assert_eq!(r.unwrap_err(), MakeError::Unsupported(bytes(".SUFFIXES")));
}

#[test]
fn posix_and_empty_suffixes_are_consumed() {
    let mf = parse(".POSIX:\n.SUFFIXES:\nA = 1\n");
    assert_eq!(mf.rules().len(), 0);
    assert_eq!(var_of(&mf, "A"), Some(bytes(" 1")));
}

#[test]
fn hpux_suffix_sentinel_is_consumed() {
    let mf = parse(".SUFFIXES: .hpux_make_needs_suffix_list\n");
    assert_eq!(mf.rules().len(), 0);
}

#[test]
fn inference_style_rules_are_discarded() {
    let mf = parse(".c.o:\n\techo build\n");
    assert_eq!(mf.rules().len(), 0);
}

#[test]
fn dot_uppercase_targets_stay_ordinary_rules() {
    let mf = parse(".PHONY: all\n");
    assert_eq!(mf.rules().len(), 1);
    assert_eq!(mf.rules()[0].target(), &bytes(".PHONY"));
}

#[test]
fn nested_conditionals_are_kept_when_emitting() {
    let mf = parse("C = 1\nifdef C\nifdef C\nA = 1\nendif\nendif\n");
    assert_eq!(var_of(&mf, "A"), Some(bytes(" 1")));
}

#[test]
fn skipped_lines_do_not_track_nesting() {
    // while skipping, only bare else/endif lines are recognized, so the
    // inner ifdef is invisible and the first endif ends the skip
    let mut loader = MakeFileLoader::new();
    let r = loader.load(bytes("ifdef U\nifdef V\nX = 1\nendif\nY = 2\nendif\n"));
    assert_eq!(r.unwrap_err(), MakeError::MismatchedConditional);
}

#[test]
fn input_ending_mid_recipe_is_unexpected_end() {
    let mut loader = MakeFileLoader::new();
    let r = loader.load(bytes("a:\n\techo x"));
    assert_eq!(r.unwrap_err(), MakeError::UnexpectedEnd);
}

#[test]
fn plain_single_letter_escape_is_rejected() {
    let mut loader = MakeFileLoader::new();
    let r = loader.load(bytes("A = $B\n"));
    assert_eq!(r.unwrap_err(), MakeError::UnknownEscape(b'B'));
}

#[test]
fn colon_in_prerequisite_text_is_a_syntax_error() {
    let mut loader = MakeFileLoader::new();
    let r = loader.load(bytes("a: b:c\n"));
    assert_eq!(r.unwrap_err(), MakeError::Syntax);
}
