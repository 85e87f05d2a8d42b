use esp_generate::template::{process_file, TemplateErrorKind};

fn to_options(names: &[&str]) -> Vec<Vec<u8>> {
    names.iter().map(|s| s.as_bytes().to_vec()).collect()
}

fn to_variables(pairs: &[(&str, &str)]) -> Vec<(Vec<u8>, Vec<u8>)> {
    pairs
        .iter()
        .map(|(k, v)| (k.as_bytes().to_vec(), v.as_bytes().to_vec()))
        .collect()
}

fn expand(template: &str, options: &[&str], variables: &[(&str, &str)], path: &str) -> String {
    let mut file_path = path.as_bytes().to_vec();
    let res = process_file(
        template.as_bytes(),
        &to_options(options),
        &to_variables(variables),
        &mut file_path,
    )
    .unwrap()
    .unwrap();
    String::from_utf8(res).unwrap()
}

#[test]
fn test_nested_if_else1() {
    let res = expand(
        r#"
        #IF option("opt1")
        opt1
        #IF option("opt2")
        opt2
        #ELSE
        !opt2
        #ENDIF
        #ELSE
        !opt1
        #ENDIF
        "#,
        &["opt1", "opt2"],
        &[],
        "main.rs",
    );

    assert_eq!(
        r#"
        opt1
        opt2
        "#
        .trim(),
        res.trim()
    );
}

#[test]
fn test_nested_if_else2() {
    let res = expand(
        r#"
        #IF option("opt1")
        opt1
        #IF option("opt2")
        opt2
        #ELSE
        !opt2
        #ENDIF
        #ELSE
        !opt1
        #ENDIF
        "#,
        &[],
        &[],
        "main.rs",
    );

    assert_eq!(
        r#"
        !opt1
        "#
        .trim(),
        res.trim()
    );
}

#[test]
fn test_nested_if_else3() {
    let res = expand(
        r#"
        #IF option("opt1")
        opt1
        #IF option("opt2")
        opt2
        #ELSE
        !opt2
        #ENDIF
        #ELSE
        !opt1
        #ENDIF
        "#,
        &["opt1"],
        &[],
        "main.rs",
    );

    assert_eq!(
        r#"
        opt1
        !opt2
        "#
        .trim(),
        res.trim()
    );
}

#[test]
fn test_nested_if_else4() {
    let res = expand(
        r#"
        #IF option("opt1")
        #IF option("opt2")
        opt2
        #ELSE
        !opt2
        #ENDIF
        opt1
        #ENDIF
        "#,
        &["opt1"],
        &[],
        "main.rs",
    );

    assert_eq!(
        r#"
        !opt2
        opt1
        "#
        .trim(),
        res.trim()
    );
}

#[test]
fn test_nested_if_else5() {
    let res = expand(
        r#"
        #IF option("opt1")
        #IF option("opt2")
        opt2
        #ELSE
        !opt2
        #ENDIF
        opt1
        #ENDIF
        "#,
        &["opt2"],
        &[],
        "main.rs",
    );

    assert_eq!(
        r#"
        "#
        .trim(),
        res.trim()
    );
}

#[test]
fn test_basic_elseif() {
    let template = r#"
        #IF option("opt1")
        opt1
        #ELIF option("opt2")
        opt2
        #ELIF option("opt3")
        opt3
        #ELSE
        opt4
        #ENDIF
        "#;

    let pairs: Vec<(Vec<&str>, &str)> = vec![
        (vec!["opt1"], "opt1"),
        (vec!["opt1", "opt2"], "opt1"),
        (vec!["opt1", "opt3"], "opt1"),
        (vec!["opt1", "opt2", "opt3"], "opt1"),
        (vec!["opt2"], "opt2"),
        (vec!["opt2", "opt3"], "opt2"),
        (vec!["opt3"], "opt3"),
        (vec!["opt4"], "opt4"),
        (vec![], "opt4"),
    ];

    for (options, expected) in pairs {
        let res = expand(template, &options, &[], "main.rs");
        assert_eq!(expected, res.trim(), "options: {:?}", options);
    }
}

#[test]
fn chain_takes_first_true_branch() {
    let template = "#IF option(\"a\")\nA\n#ELIF option(\"b\")\nB\n#ELSE\nC\n#ENDIF\n";
    let res = expand(template, &["a", "b"], &[], "main.rs");
    assert_eq!("A\n", res);
}

#[test]
fn chain_takes_else_branch_when_nothing_matches() {
    let template = "#IF option(\"a\")\nA\n#ELIF option(\"b\")\nB\n#ELSE\nC\n#ENDIF\n";
    let res = expand(template, &[], &[], "main.rs");
    assert_eq!("C\n", res);
}

#[test]
fn replacement_applies_to_next_line_only() {
    let template = "#REPLACE NAME proj\nHello NAME\nBye NAME\n";
    let res = expand(template, &[], &[("proj", "demo")], "main.rs");
    assert_eq!("Hello demo\nBye NAME\n", res);
}

#[test]
fn replacement_with_unknown_variable_keeps_previous_pending() {
    // A REPLACE whose variable lookups all fail leaves the previous pending
    // replacement armed.
    let template = "#REPLACE A x\n#REPLACE B y\nA B\n";
    let res = expand(template, &[], &[("x", "1")], "main.rs");
    assert_eq!("1 B\n", res);
}

#[test]
fn replacement_with_several_pairs() {
    let template = "#REPLACE A x && B y\nA-B\n";
    let res = expand(template, &[], &[("x", "1"), ("y", "2")], "main.rs");
    assert_eq!("1-2\n", res);
}

#[test]
fn excluded_file_produces_no_output() {
    let template = "#INCLUDEFILE option(\"feature\")\nbody\n";
    let mut file_path = b"main.rs".to_vec();
    let res = process_file(
        template.as_bytes(),
        &to_options(&[]),
        &Vec::new(),
        &mut file_path,
    )
    .unwrap();
    assert!(res.is_none());
}

#[test]
fn kept_file_is_expanded() {
    let template = "#INCLUDEFILE option(\"feature\")\nbody\n";
    let res = expand(template, &["feature"], &[], "main.rs");
    assert_eq!("body\n", res);
}

#[test]
fn output_path_override() {
    let template = "#INCLUDE_AS src/generated.rs\nhi\n";
    let mut file_path = b"main.rs".to_vec();
    let res = process_file(
        template.as_bytes(),
        &to_options(&[]),
        &Vec::new(),
        &mut file_path,
    )
    .unwrap()
    .unwrap();
    assert_eq!(b"src/generated.rs".to_vec(), file_path);
    assert_eq!(b"hi\n".to_vec(), res);
}

#[test]
fn formatter_skip_marker_is_always_dropped() {
    // The marker line vanishes even inside an excluded branch.
    let template = "#IF option(\"no\")\n#[rustfmt::skip]\nX\n#ENDIF\nY\n";
    let res = expand(template, &[], &[], "main.rs");
    assert_eq!("Y\n", res);
    let plain = "#[rustfmt::skip]\nZ\n";
    assert_eq!("Z\n", expand(plain, &[], &[], "main.rs"));
}

#[test]
fn escape_prefix_is_stripped() {
    assert_eq!("code\n", expand("#+code\n", &[], &[], "main.rs"));
    assert_eq!("code\n", expand("//+code\n", &[], &[], "main.rs"));
}

#[test]
fn endif_without_if_fails() {
    let mut file_path = b"main.rs".to_vec();
    let err = process_file(b"#ENDIF\n", &Vec::new(), &Vec::new(), &mut file_path).unwrap_err();
    assert_eq!(TemplateErrorKind::UnbalancedDirective, err.kind);
    assert_eq!(1, err.line);
}

#[test]
fn elif_outside_if_fails() {
    let mut file_path = b"main.rs".to_vec();
    let err = process_file(
        b"ok\n#ELIF option(\"a\")\n",
        &Vec::new(),
        &Vec::new(),
        &mut file_path,
    )
    .unwrap_err();
    assert_eq!(TemplateErrorKind::UnbalancedDirective, err.kind);
    assert_eq!(2, err.line);
}

#[test]
fn else_outside_if_fails() {
    let mut file_path = b"main.rs".to_vec();
    let err = process_file(b"#ELSE\n", &Vec::new(), &Vec::new(), &mut file_path).unwrap_err();
    assert_eq!(TemplateErrorKind::UnbalancedDirective, err.kind);
}

#[test]
fn malformed_condition_fails() {
    let mut file_path = b"main.rs".to_vec();
    let err = process_file(
        b"#IF option(\n",
        &Vec::new(),
        &Vec::new(),
        &mut file_path,
    )
    .unwrap_err();
    assert_eq!(TemplateErrorKind::InvalidExpression, err.kind);
    assert_eq!(1, err.line);
}

#[test]
fn dead_branch_condition_is_not_evaluated() {
    // A malformed condition inside a false branch must not abort the run.
    let template = "#IF option(\"no\")\n#IF ???garbage\nX\n#ENDIF\n#ENDIF\nok\n";
    assert_eq!("ok\n", expand(template, &[], &[], "main.rs"));
}

#[test]
fn elif_condition_after_match_is_not_evaluated() {
    let template = "#IF option(\"a\")\nA\n#ELIF ???garbage\nB\n#ENDIF\n";
    assert_eq!("A\n", expand(template, &["a"], &[], "main.rs"));
}

#[test]
fn lines_outside_conditionals_always_appear() {
    let template = "x\n#IF option(\"a\")\nA\n#ENDIF\ny\n";
    assert_eq!("x\ny\n", expand(template, &[], &[], "main.rs"));
    assert_eq!("x\nA\ny\n", expand(template, &["a"], &[], "main.rs"));
}

#[test]
fn carriage_returns_are_stripped() {
    assert_eq!("A\nB\n", expand("A\r\nB\r\n", &[], &[], "main.rs"));
    assert_eq!("A\n", expand("A", &[], &[], "main.rs"));
}

#[test]
fn comment_style_directives_work() {
    let template = "//IF option(\"a\")\nA\n//ELSE\nB\n//ENDIF\n";
    assert_eq!("A\n", expand(template, &["a"], &[], "main.rs"));
    assert_eq!("B\n", expand(template, &[], &[], "main.rs"));
}

#[test]
fn replace_directive_is_armed_even_in_an_excluded_branch() {
    // REPLACE recognition does not consult the conditional stack.
    let template = "#IF option(\"no\")\n#REPLACE A x\n#ENDIF\nA\n";
    let res = expand(template, &[], &[("x", "1")], "main.rs");
    assert_eq!("1\n", res);
}

#[test]
fn replacement_carries_across_directive_lines() {
    let template = "#REPLACE A x\n#IF option(\"a\")\nA\n#ENDIF\n";
    let res = expand(template, &["a"], &[("x", "1")], "main.rs");
    assert_eq!("1\n", res);
}

#[test]
fn escape_marker_is_removed_everywhere_in_the_line() {
    // Every occurrence of the escape marker is removed, not only the prefix.
    assert_eq!("ab\n", expand("#+a#+b\n", &[], &[], "main.rs"));
}

#[test]
fn file_header_survives_directive_lines() {
    // REPLACE, IF and the skip marker are directives: they do not end the
    // file header, so a later INCLUDE_AS still overrides the path.
    let template = "#REPLACE A x\n#INCLUDE_AS other.rs\nA\n";
    let mut file_path = b"main.rs".to_vec();
    let res = process_file(
        template.as_bytes(),
        &to_options(&[]),
        &to_variables(&[("x", "1")]),
        &mut file_path,
    )
    .unwrap()
    .unwrap();
    assert_eq!(b"other.rs".to_vec(), file_path);
    assert_eq!(b"1\n".to_vec(), res);
}

#[test]
fn file_header_ends_at_first_content_line() {
    // After an ordinary content line the INCLUDE_AS marker is plain content.
    let template = "body\n#INCLUDE_AS other.rs\n";
    let mut file_path = b"main.rs".to_vec();
    let res = process_file(
        template.as_bytes(),
        &to_options(&[]),
        &Vec::new(),
        &mut file_path,
    )
    .unwrap()
    .unwrap();
    assert_eq!(b"main.rs".to_vec(), file_path);
    assert_eq!("body\n#INCLUDE_AS other.rs\n", String::from_utf8(res).unwrap());
}

#[test]
fn false_file_condition_skips_immediately() {
    // A file consisting solely of file-level directives is still skipped,
    // not written as an empty file.
    let template = "#INCLUDEFILE option(\"f\")\n#INCLUDE_AS other.rs\n";
    let mut file_path = b"main.rs".to_vec();
    let res = process_file(
        template.as_bytes(),
        &to_options(&[]),
        &Vec::new(),
        &mut file_path,
    )
    .unwrap();
    assert!(res.is_none());
    // Nothing after the false condition is processed.
    assert_eq!(b"main.rs".to_vec(), file_path);
}

#[test]
fn file_condition_after_conditional_directives_still_skips() {
    let template = "#IF option(\"a\")\n#ENDIF\n#INCLUDEFILE option(\"f\")\nbody\n";
    let mut file_path = b"main.rs".to_vec();
    let res = process_file(
        template.as_bytes(),
        &to_options(&[]),
        &Vec::new(),
        &mut file_path,
    )
    .unwrap();
    assert!(res.is_none());
}

#[test]
fn carriage_return_on_unterminated_last_line_stays() {
    // Only a carriage return before a line feed belongs to the terminator.
    assert_eq!("A\nB\r\n", expand("A\r\nB\r", &[], &[], "main.rs"));
}

#[test]
fn vertical_tab_counts_as_whitespace() {
    let template = "\u{000B}#IF option(\"a\")\u{000B}\nA\n#ENDIF\n";
    assert_eq!("A\n", expand(template, &["a"], &[], "main.rs"));
}

#[test]
fn skip_marker_line_keeps_file_header_open() {
    let template = "#[rustfmt::skip]\n#INCLUDE_AS other.rs\nhi\n";
    let mut file_path = b"main.rs".to_vec();
    let res = process_file(
        template.as_bytes(),
        &to_options(&[]),
        &Vec::new(),
        &mut file_path,
    )
    .unwrap()
    .unwrap();
    assert_eq!(b"other.rs".to_vec(), file_path);
    assert_eq!(b"hi\n".to_vec(), res);
}
