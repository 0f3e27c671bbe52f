use microcad_parser::pest_test::{PestFile, PestResult, PestTest, RustWriter};

#[test]
fn test_comment() {
    let test = r#"//`test`: ok # Test"#;
    let test = test.parse::<PestTest>().unwrap();
    assert_eq!(test.source, "test");
    assert_eq!(test.result, PestResult::Accepts("Test".into()));
}

#[test]
fn parse_pest_file() {
    let test = r#"
            //`test1`: ok # Ok Test
            //`test2`: error # Error Test
            expr = {  "{" ~ expr_interior ~ "}" }
        "#;

    let test = test.parse::<PestFile>().unwrap();
    assert_eq!(test.rules.len(), 1);
    assert_eq!(test.rules[0].name, "expr");
    assert_eq!(test.rules[0].tests.len(), 2);
    assert_eq!(test.rules[0].tests[0].source, "test1");
    assert_eq!(
        test.rules[0].tests[0].result,
        PestResult::Accepts("Ok Test".into())
    );
    assert_eq!(test.rules[0].tests[1].source, "test2");
    assert_eq!(
        test.rules[0].tests[1].result,
        PestResult::Rejects("Error Test".into())
    );
}

#[test]
fn outcome_without_comment() {
    assert_eq!(
        PestResult::parse_str("  error  ").unwrap(),
        PestResult::Rejects(String::new())
    );
    assert!(PestResult::parse_str("maybe # x").is_err());
}

#[test]
fn test_comment_needs_marker() {
    assert!(PestTest::parse_str("// `a`: ok").is_err());
    assert!(PestTest::parse_str("`a`: ok").is_err());
    let t = PestTest::parse_str("   //`a b`  : ok").unwrap();
    assert_eq!(t.source, "a b");
    assert_eq!(t.line, None);
}

#[test]
fn test_comment_with_bad_outcome() {
    assert!(PestTest::parse_str("//`a`: fine").is_err());
}

#[test]
fn invalid_rule_name() {
    let r = PestFile::parse_str("a-b = { x }\n");
    assert_eq!(r.err().unwrap(), "Invalid rule name: a-b");
}

#[test]
fn line_numbers() {
    let f = PestFile::parse_str("//`x`: ok\n// plain comment\nr1 = { \"x\" }\nr2 = { \"y\" }\r\n//`z`: error # no\nr3 = { \"z\" }").unwrap();
    assert_eq!(f.rules.len(), 3);
    assert_eq!(f.rules[0].line, Some(3));
    assert_eq!(f.rules[0].tests[0].line, Some(1));
    assert_eq!(f.rules[1].name, "r2");
    assert_eq!(f.rules[1].tests.len(), 0);
    assert_eq!(f.rules[2].line, Some(6));
    assert_eq!(f.rules[2].tests[0].line, Some(5));
}

#[test]
fn writer_indents_scopes() {
    let mut w = RustWriter::new();
    w.begin_scope("fn f()");
    w.writeln("x;");
    w.begin_scope("");
    w.end_scope();
    w.end_scope();
    assert_eq!(w.text(), "fn f() {\n    x;\n    {\n        }\n    }\n");
}

#[test]
fn generated_tests() {
    let f = PestFile::parse_str("//`1`: ok # one\n//`x`: error # letter\nint = { ASCII_DIGIT+ }\nplain = { \"p\" }\n").unwrap();
    let code = f.generate_test_rs("P", "R");
    let expected = [
        "mod grammar {\n",
        "use crate::*;\n",
        "#[test]\n",
        "fn rule_int() {\n",
        "    let _rule_line = 3;\n",
        "    {\n",
        "        use pest::Parser;\n",
        "        let test_line = 1;\n",
        "        let input = r#\"1\"#;\n",
        "        match P::parse(R::r#int, input) {\n",
        "            Ok(pairs) =>  assert_eq!(input, pairs.as_str()),\n",
        "            Err(e) => panic!(\"{} at `{}`:{} one\", e, input, test_line),\n",
        "            }\n",
        "        }\n",
        "    {\n",
        "        use pest::Parser;\n",
        "        let test_line = 2;\n",
        "        let input = r#\"x\"#;\n",
        "        match P::parse(R::r#int, input) {\n",
        "            Ok(pairs) => {\n",
        "                if input == pairs.as_str() {\n",
        "                    panic!(\"Expected parsing error at `{}`:{}: letter\", input, test_line);\n",
        "                    }\n",
        "                }\n",
        "            Err(_) => (),\n",
        "            }\n",
        "        }\n",
        "    }\n",
        "}\n",
    ]
    .concat();
    assert_eq!(code, expected);
}
