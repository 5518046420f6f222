use sewer_replacement::engine::{apply_all, replace_single, session_outcome, Error, Pattern,
    Rule, RuleOutcome};
use sewer_replacement::eval;
use sewer_replacement::parse::parse_template;
use sewer_replacement::patchfile;

#[test]
fn echo_whole_match_leaves_buffer_unchanged() {
    let mut data = b"xxabcxx".to_vec();
    let re = Pattern::new(b"abc").unwrap();
    let t = parse_template(b"$0").unwrap();
    let rep = replace_single(&mut data, &re, &t).unwrap();
    assert_eq!(data, b"xxabcxx".to_vec());
    assert_eq!(rep.start, 2);
    assert_eq!(rep.end, 5);
    assert_eq!(rep.before, b"abc".to_vec());
    assert_eq!(rep.after, b"abc".to_vec());
}

#[test]
fn unique_match_is_replaced_in_place() {
    let mut data = b"xxabcxx".to_vec();
    let re = Pattern::new(b"abc").unwrap();
    let t = parse_template(b"ABC").unwrap();
    replace_single(&mut data, &re, &t).unwrap();
    assert_eq!(data, b"xxABCxx".to_vec());
}

#[test]
fn two_matches_fail_and_leave_buffer() {
    let mut data = b"abcabc".to_vec();
    let re = Pattern::new(b"abc").unwrap();
    let t = parse_template(b"ABC").unwrap();
    assert!(matches!(
        replace_single(&mut data, &re, &t),
        Err(Error::MultipleSourcesFound)
    ));
    assert_eq!(data, b"abcabc".to_vec());
}

#[test]
fn no_match_fails_and_leaves_buffer() {
    let mut data = b"xyz".to_vec();
    let re = Pattern::new(b"abc").unwrap();
    let t = parse_template(b"ABC").unwrap();
    assert!(matches!(
        replace_single(&mut data, &re, &t),
        Err(Error::SourcePatternNotFound)
    ));
    assert_eq!(data, b"xyz".to_vec());
}

#[test]
fn length_mismatch_fails_and_leaves_buffer() {
    let mut data = b"xabcx".to_vec();
    let re = Pattern::new(b"abc").unwrap();
    let t = parse_template(b"AB").unwrap();
    match replace_single(&mut data, &re, &t) {
        Err(Error::MismatchedLen(want, got)) => {
            assert_eq!(want, 3);
            assert_eq!(got, 2);
        }
        other => panic!("expected a length mismatch, got {:?}", other),
    }
    assert_eq!(data, b"xabcx".to_vec());
}

#[test]
fn named_group_alternation_picks_participant() {
    let mut data = b"aXb".to_vec();
    let re = Pattern::new(b"(?<g1>X)|(?<g2>Y)").unwrap();
    let t = parse_template(b"($<g1>|$<g2>)").unwrap();
    replace_single(&mut data, &re, &t).unwrap();
    assert_eq!(data, b"aXb".to_vec());
}

#[test]
fn both_groups_participating_is_ambiguous() {
    let mut data = b"aXYb".to_vec();
    let re = Pattern::new(b"(?<g1>X)(?<g2>Y)").unwrap();
    let t = parse_template(b"($<g1>|$<g2>)X").unwrap();
    assert!(matches!(
        replace_single(&mut data, &re, &t),
        Err(Error::Replace(eval::Error::GroupConflict(_, _)))
    ));
    assert_eq!(data, b"aXYb".to_vec());
}

#[test]
fn positional_groups_are_extracted() {
    let mut data = b"xabcx".to_vec();
    let re = Pattern::new(b"a(b)c").unwrap();
    let t = parse_template(b"$1$1\\x2e").unwrap();
    replace_single(&mut data, &re, &t).unwrap();
    assert_eq!(data, b"xbb.x".to_vec());
}

#[test]
fn missing_group_fails_evaluation() {
    let mut data = b"xabcx".to_vec();
    let re = Pattern::new(b"a(z)?bc").unwrap();
    let t = parse_template(b"$1$1$1").unwrap();
    assert!(matches!(
        replace_single(&mut data, &re, &t),
        Err(Error::Replace(eval::Error::RepetitionNotFoundId(1)))
    ));
    assert_eq!(data, b"xabcx".to_vec());
}

#[test]
fn rules_apply_in_order_over_shared_buffer() {
    let mut data = b"one two".to_vec();
    let rules = vec![
        Rule::new(b"first".to_vec(), b"one", b"ONE").unwrap(),
        Rule::new(b"second".to_vec(), b"ONE t", b"fivec").unwrap(),
    ];
    let outs = apply_all(&mut data, &rules, false).unwrap();
    assert_eq!(outs.len(), 2);
    assert_eq!(data, b"fivecwo".to_vec());
    let (ok, fail) = session_outcome(&outs);
    assert!(ok);
    assert!(!fail);
}

#[test]
fn strict_session_aborts_on_first_failure() {
    let mut data = b"one two".to_vec();
    let rules = vec![
        Rule::new(b"first".to_vec(), b"one", b"ONE").unwrap(),
        Rule::new(b"missing".to_vec(), b"zzz", b"ZZZ").unwrap(),
        Rule::new(b"third".to_vec(), b"two", b"TWO").unwrap(),
    ];
    assert!(matches!(
        apply_all(&mut data, &rules, false),
        Err(Error::SourcePatternNotFound)
    ));
    assert_eq!(data, b"ONE two".to_vec());
}

#[test]
fn tolerant_session_continues_past_failures() {
    let mut data = b"one two".to_vec();
    let rules = vec![
        Rule::new(b"first".to_vec(), b"one", b"ONE").unwrap(),
        Rule::new(b"missing".to_vec(), b"zzz", b"ZZZ").unwrap(),
        Rule::new(b"third".to_vec(), b"two", b"TWO").unwrap(),
    ];
    let outs = apply_all(&mut data, &rules, true).unwrap();
    assert_eq!(outs.len(), 3);
    assert_eq!(data, b"ONE TWO".to_vec());
    assert!(matches!(outs[0], RuleOutcome::Applied(_)));
    assert!(matches!(
        outs[1],
        RuleOutcome::Failed(Error::SourcePatternNotFound)
    ));
    assert!(matches!(outs[2], RuleOutcome::Applied(_)));
    let (ok, fail) = session_outcome(&outs);
    assert!(ok);
    assert!(fail);
}

#[test]
fn rule_with_bad_pattern_is_refused() {
    assert!(matches!(
        Rule::new(b"n".to_vec(), b"(", b"a"),
        Err(Error::Regex(_))
    ));
}

#[test]
fn rule_with_bad_template_is_refused() {
    assert!(matches!(
        Rule::new(b"n".to_vec(), b"a", b"$"),
        Err(Error::Replace(eval::Error::Parse(0)))
    ));
}

#[test]
fn patchfile_single_rule_end_to_end() {
    let doc = b"#swap\n-abc\n+ABC\n";
    let rules = patchfile::parse(doc).unwrap();
    assert_eq!(rules.len(), 1);
    assert_eq!(rules[0].name, b"swap".to_vec());
    let mut data = b"xxabcxx".to_vec();
    apply_all(&mut data, &rules, false).unwrap();
    assert_eq!(data, b"xxABCxx".to_vec());
}

#[test]
fn patchfile_joins_prefixed_lines_with_newlines() {
    let doc = b"#multi\n-a\n-b\n+ABC\n";
    let rules = patchfile::parse(doc).unwrap();
    assert_eq!(rules.len(), 1);
    let mut data = b"za\nbz".to_vec();
    apply_all(&mut data, &rules, false).unwrap();
    assert_eq!(data, b"zABCz".to_vec());
}

#[test]
fn patchfile_several_rules_in_order() {
    let doc = b"#one\n-one\n+ONE\n\n#two\n-two\n+TWO\n";
    let rules = patchfile::parse(doc).unwrap();
    assert_eq!(rules.len(), 2);
    assert_eq!(rules[0].name, b"one".to_vec());
    assert_eq!(rules[1].name, b"two".to_vec());
}

#[test]
fn patchfile_empty_document_has_no_rules() {
    let rules = patchfile::parse(b"  \n\n").unwrap();
    assert_eq!(rules.len(), 0);
}

#[test]
fn patchfile_with_broken_structure_is_refused() {
    assert!(matches!(
        patchfile::parse(b"xyz"),
        Err(patchfile::Error::Parse(0))
    ));
}

#[test]
fn patchfile_with_bad_template_is_refused() {
    assert!(matches!(
        patchfile::parse(b"#n\n-abc\n+$\n"),
        Err(patchfile::Error::Replacement(eval::Error::Parse(_)))
    ));
}

#[test]
fn patchfile_with_bad_pattern_is_refused() {
    assert!(matches!(
        patchfile::parse(b"#n\n-(\n+a\n"),
        Err(patchfile::Error::Regex(_))
    ));
}

#[test]
fn patchfile_header_needs_a_newline() {
    assert!(matches!(
        patchfile::parse(b"#n"),
        Err(patchfile::Error::Parse(0))
    ));
}

#[test]
fn patchfile_needs_a_template_section() {
    assert!(matches!(
        patchfile::parse(b"#n\n-abc\n"),
        Err(patchfile::Error::Parse(0))
    ));
}

#[test]
fn empty_rule_list_does_nothing() {
    let mut data = b"abc".to_vec();
    let rules: Vec<Rule> = Vec::new();
    let outs = apply_all(&mut data, &rules, false).unwrap();
    assert_eq!(outs.len(), 0);
    assert_eq!(data, b"abc".to_vec());
    let (ok, fail) = session_outcome(&outs);
    assert!(!ok);
    assert!(!fail);
}

#[test]
fn pattern_compile_failure() {
    assert!(Pattern::new(b"(").is_err());
}

#[test]
fn pattern_must_be_utf8() {
    assert!(Pattern::new(&[0xff, 0x28]).is_err());
}
