use gitvm::errors::Error;
use gitvm::graph::{Commit, Repo};
use gitvm::machine::Machine;
use gitvm::store::Instance;

/// A linear chain of commits: commit i+1 has commit i as its only parent;
/// the first is tagged `_start`, the last `_end`.
fn chain(msgs: &[&str]) -> Repo {
    let mut commits = Vec::new();
    for (i, m) in msgs.iter().enumerate() {
        let parents = if i == 0 { vec![] } else { vec![i - 1] };
        commits.push(Commit { parents, message: (*m).to_string() });
    }
    let tags = vec![
        ("_start".to_string(), 0usize),
        ("_end".to_string(), msgs.len() - 1),
    ];
    Repo { commits, tags, replaces: vec![] }
}

fn run_chain(msgs: &[&str], inputs: &[&str]) -> Result<String, Error> {
    let repo = chain(msgs);
    let mut inst = Instance::new();
    let ins: Vec<String> = inputs.iter().map(|s| s.to_string()).collect();
    let out = inst.run(&repo, 0, msgs.len() - 1, ins, 10_000).map_err(|e| e.err)?;
    assert!(out.finished, "program ran out of fuel");
    Ok(out.output)
}

#[test]
fn linear_hello() {
    // two commits: `println hello` at the start, `nop` at the end
    let out = run_chain(&["println hello", "nop"], &[]).unwrap();
    assert_eq!(out, "hello\n");
}

#[test]
fn arithmetic_chain() {
    let out = run_chain(&["set x #3", "set y #4", "add z $x $y", "println $z", "nop"], &[])
        .unwrap();
    assert_eq!(out, "7\n");
}

#[test]
fn scoped_write() {
    let out = run_chain(
        &["enter a/b", "set x #1", "exit", "exit", "println $a/b/x", "nop"],
        &[],
    )
    .unwrap();
    assert_eq!(out, "1\n");
}

#[test]
fn branching_diamond() {
    // a diamond: the start branches to the child tagged `left`; the right
    // side must not execute
    let commits = vec![
        Commit { parents: vec![], message: "branch left".to_string() },
        Commit { parents: vec![0], message: "println yes".to_string() },
        Commit { parents: vec![0], message: "println no".to_string() },
        Commit { parents: vec![1, 2], message: "nop".to_string() },
    ];
    let tags = vec![
        ("_start".to_string(), 0usize),
        ("_end".to_string(), 3usize),
        ("left".to_string(), 1usize),
        ("right".to_string(), 2usize),
    ];
    let repo = Repo { commits, tags, replaces: vec![] };
    let mut inst = Instance::new();
    let out = inst.run(&repo, 0, 3, vec![], 10_000).unwrap();
    assert!(out.finished);
    assert_eq!(out.output, "yes\n");
}

#[test]
fn match_first_arm() {
    let out = run_chain(
        &["set v foo", "match r $v foo #1 bar #2", "println $r", "nop"],
        &[],
    )
    .unwrap();
    assert_eq!(out, "1\n");
}

#[test]
fn match_second_arm() {
    let out = run_chain(
        &["set v bar", "match r $v foo #1 bar #2", "println $r", "nop"],
        &[],
    )
    .unwrap();
    assert_eq!(out, "2\n");
}

#[test]
fn match_no_arm_leaves_variable_unset() {
    let err = run_chain(
        &["set v baz", "match r $v foo #1 bar #2", "println $r", "nop"],
        &[],
    )
    .unwrap_err();
    assert!(matches!(err, Error::UndefinedSymbol));
}

#[test]
fn replacement_redirects_cursor() {
    // the start commit is replaced; the program observes the replacement
    let commits = vec![
        Commit { parents: vec![], message: "println old".to_string() },
        Commit { parents: vec![0], message: "nop".to_string() },
        Commit { parents: vec![], message: "println new".to_string() },
    ];
    let tags = vec![("_start".to_string(), 0usize), ("_end".to_string(), 1usize)];
    let repo = Repo { commits, tags, replaces: vec![(0, 2)] };
    let mut inst = Instance::new();
    let out = inst.run(&repo, 0, 1, vec![], 10_000).unwrap();
    assert!(out.finished);
    assert_eq!(out.output, "new\n");
}

#[test]
fn redirect_loop_detected() {
    let commits = vec![
        Commit { parents: vec![], message: "nop".to_string() },
        Commit { parents: vec![0], message: "nop".to_string() },
    ];
    let tags = vec![("_start".to_string(), 0usize), ("_end".to_string(), 1usize)];
    let repo = Repo { commits, tags, replaces: vec![(0, 0)] };
    let mut inst = Instance::new();
    let err = inst.run(&repo, 0, 1, vec![], 10_000).unwrap_err();
    assert!(matches!(err.err, Error::RedirectLoop));
}

#[test]
fn set_then_get_roundtrip() {
    let out = run_chain(&["set a/b/c #42", "println $a/b/c", "nop"], &[]).unwrap();
    assert_eq!(out, "42\n");
}

#[test]
fn exists_tracks_get() {
    let out = run_chain(
        &["set x #1", "exists e x", "println $e", "exists f y", "println $f", "nop"],
        &[],
    )
    .unwrap();
    assert_eq!(out, "1\n0\n");
}

#[test]
fn enter_exit_preserves_scalars() {
    let out = run_chain(&["set s #5", "enter a", "exit", "println $s", "nop"], &[]).unwrap();
    assert_eq!(out, "5\n");
}

#[test]
fn exists_is_zero_across_scalar_interior() {
    // `x` holds an Int; `x/y` does not resolve, so exists stores 0
    let out = run_chain(
        &["set x #1", "exists e x/y", "println $e", "nop"],
        &[],
    )
    .unwrap();
    assert_eq!(out, "0\n");
}

#[test]
fn match_odd_arity_is_parse_error() {
    let err = run_chain(&["set v foo", "match r $v foo", "nop"], &[]).unwrap_err();
    assert!(matches!(err, Error::Parse));
}

#[test]
fn del_removes() {
    let out = run_chain(
        &["set x #1", "del x", "exists e x", "println $e", "nop"],
        &[],
    )
    .unwrap();
    assert_eq!(out, "0\n");
}

#[test]
fn get_indirection() {
    let out = run_chain(
        &["set name x", "set x #9", "get y $name", "println $y", "nop"],
        &[],
    )
    .unwrap();
    assert_eq!(out, "9\n");
}

#[test]
fn concat_renders_both() {
    let out = run_chain(&["concat c ab cd", "println $c", "nop"], &[]).unwrap();
    assert_eq!(out, "abcd\n");
}

#[test]
fn concat_renders_numbers() {
    let out = run_chain(&["concat c #-5 x", "println $c", "nop"], &[]).unwrap();
    assert_eq!(out, "-5x\n");
}

#[test]
fn chars_builds_index_table() {
    let out = run_chain(
        &["chars t hello", "println $t/len", "println $t/1", "println $t/4", "nop"],
        &[],
    )
    .unwrap();
    assert_eq!(out, "5\ne\no\n");
}

#[test]
fn division_by_zero_fails() {
    let err = run_chain(&["div z #1 #0", "nop"], &[]).unwrap_err();
    assert!(matches!(err, Error::ArithmeticError));
}

#[test]
fn modulo_by_zero_fails() {
    let err = run_chain(&["mod z #1 #0", "nop"], &[]).unwrap_err();
    assert!(matches!(err, Error::ArithmeticError));
}

#[test]
fn arithmetic_wraps_two_complement() {
    let out = run_chain(
        &["add z #9223372036854775807 #1", "println $z", "nop"],
        &[],
    )
    .unwrap();
    assert_eq!(out, "-9223372036854775808\n");
}

#[test]
fn division_truncates_toward_zero() {
    let out = run_chain(&["div z #-7 #2", "println $z", "nop"], &[]).unwrap();
    assert_eq!(out, "-3\n");
}

#[test]
fn modulo_follows_dividend_sign() {
    let out = run_chain(&["mod z #-7 #2", "println $z", "nop"], &[]).unwrap();
    assert_eq!(out, "-1\n");
}

#[test]
fn bitwise_ops() {
    let out = run_chain(
        &[
            "and a #12 #10",
            "or o #12 #10",
            "xor x #12 #10",
            "println $a",
            "println $o",
            "println $x",
            "nop",
        ],
        &[],
    )
    .unwrap();
    assert_eq!(out, "8\n14\n6\n");
}

#[test]
fn gt_compares() {
    let out = run_chain(
        &["gt a #3 #2", "gt b #2 #3", "println $a", "println $b", "nop"],
        &[],
    )
    .unwrap();
    assert_eq!(out, "1\n0\n");
}

#[test]
fn eq_compares_structurally() {
    let out = run_chain(
        &["set x #1", "set y #1", "eq e $x $y", "println $e", "nop"],
        &[],
    )
    .unwrap();
    assert_eq!(out, "1\n");
}

#[test]
fn eq_distinguishes_int_and_string() {
    // `#1` is an integer, `1` a string: different variants are unequal
    let out = run_chain(&["eq e #1 1", "println $e", "nop"], &[]).unwrap();
    assert_eq!(out, "0\n");
}

#[test]
fn table_renders_opaquely() {
    let out = run_chain(&["enter t", "exit", "println $t", "nop"], &[]).unwrap();
    assert_eq!(out, "<table>\n");
}

#[test]
fn quoted_tokens_stay_one_word() {
    // the shell tokenizer must keep a quoted string as one operand
    let out = run_chain(&["set x 'a b'", "println $x", "nop"], &[]).unwrap();
    assert_eq!(out, "a b\n");
}

#[test]
fn mismatched_quote_is_a_parse_error() {
    let err = run_chain(&["set x 'oops", "nop"], &[]).unwrap_err();
    assert!(matches!(err, Error::Parse));
}

#[test]
fn unknown_opcode_is_a_parse_error() {
    let err = run_chain(&["frobnicate x", "nop"], &[]).unwrap_err();
    assert!(matches!(err, Error::Parse));
}

#[test]
fn empty_message_is_nop() {
    let out = run_chain(&["", "println ok", "nop"], &[]).unwrap();
    assert_eq!(out, "ok\n");
}

#[test]
fn integer_literal_parses_signs() {
    let out = run_chain(&["println #-5", "println #+7", "nop"], &[]).unwrap();
    assert_eq!(out, "-5\n7\n");
}

#[test]
fn bad_integer_literal_is_a_parse_error() {
    let err = run_chain(&["set x #12a", "nop"], &[]).unwrap_err();
    assert!(matches!(err, Error::Parse));
}

#[test]
fn inpln_reads_a_line() {
    let out = run_chain(&["inpln x", "println $x", "nop"], &["hi\n"]).unwrap();
    assert_eq!(out, "hi\n");
}

#[test]
fn inpln_strips_carriage_return() {
    let out = run_chain(&["inpln x", "println $x", "nop"], &["hi\r\n"]).unwrap();
    assert_eq!(out, "hi\n");
}

#[test]
fn inpln_without_input_fails() {
    let err = run_chain(&["inpln x", "nop"], &[]).unwrap_err();
    assert!(matches!(err, Error::IoError));
}

#[test]
fn print_without_newline() {
    let out = run_chain(&["print a", "print b", "println c", "nop"], &[]).unwrap();
    assert_eq!(out, "abc\n");
}

#[test]
fn writing_through_scalar_is_rejected() {
    let err = run_chain(&["set x #1", "set x/y #2", "nop"], &[]).unwrap_err();
    assert!(matches!(err, Error::NotATable));
}

#[test]
fn missing_start_tag_is_reported() {
    let repo = Repo {
        commits: vec![Commit { parents: vec![], message: "nop".to_string() }],
        tags: vec![("_end".to_string(), 0usize)],
        replaces: vec![],
    };
    let err = Machine::from_tags(&repo).unwrap_err();
    assert!(matches!(err, Error::MissingRef));
}

#[test]
fn no_successor_is_reported() {
    // the cursor starts at a commit that is not the terminal one and has no
    // recorded children
    let commits = vec![
        Commit { parents: vec![], message: "nop".to_string() },
        Commit { parents: vec![], message: "nop".to_string() },
    ];
    let tags = vec![("_start".to_string(), 0usize), ("_end".to_string(), 1usize)];
    let repo = Repo { commits, tags, replaces: vec![] };
    let mut inst = Instance::new();
    let err = inst.run(&repo, 0, 1, vec![], 10_000).unwrap_err();
    assert!(matches!(err.err, Error::NoSuccessor));
    assert_eq!(err.at, 0);
}

#[test]
fn branch_without_target_fails() {
    let err = run_chain(&["branch nowhere", "nop"], &[]).unwrap_err();
    assert!(matches!(err, Error::BranchTargetNotFound));
}

#[test]
fn type_mismatch_on_string_operand() {
    let err = run_chain(&["add z #1 two", "nop"], &[]).unwrap_err();
    assert!(matches!(err, Error::TypeMismatch));
}
