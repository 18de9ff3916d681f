use liquid_breakout::position::PositionIndex;
use liquid_breakout::report::{
    decimal_string, scan_script, scan_scripts, ParsedScript, ScanReport, ScriptUnit, SyntaxError,
};
use liquid_breakout::rules::{
    check_call, parse_decimal_u64, resolve_call, Argument, CallArgs, CallChain, CallPrefix,
    CallStyle, CallSuffix, Hit, Rule,
};

fn direct(offset: usize, name: &str, args: Vec<Argument>) -> CallChain {
    CallChain {
        offset,
        prefix: CallPrefix::Name(name.to_string()),
        suffixes: vec![CallSuffix::Call(CallArgs::Parentheses(args))],
    }
}

fn method(offset: usize, receiver: &str, name: &str, args: Vec<Argument>) -> CallChain {
    CallChain {
        offset,
        prefix: CallPrefix::Name(receiver.to_string()),
        suffixes: vec![CallSuffix::MethodCall(name.to_string(), CallArgs::Parentheses(args))],
    }
}

fn rules_of(hits: Vec<Hit>) -> Vec<Rule> {
    hits.into_iter().map(|h| h.rule).collect()
}

fn number(text: &str) -> Argument {
    Argument::Number(text.to_string())
}

fn unit(location: &str, source: &str) -> ScriptUnit {
    ScriptUnit { location: location.to_string(), source: source.to_string() }
}

fn parsed(location: &str, source: &str, calls: Vec<CallChain>) -> ParsedScript {
    ParsedScript { unit: unit(location, source), calls: Ok(calls) }
}

fn report_of(scripts: &Vec<ParsedScript>) -> ScanReport {
    match scan_scripts(scripts) {
        Ok(r) => r,
        Err(e) => panic!("unexpected syntax error at {}", e.offset),
    }
}

#[test]
fn position_matches_line_col() {
    let texts = ["One\nTwo", "", "\n\n\nx", "local a = 1\r\nlocal b = getfenv()\n", "é\nü getfenv()"];
    for text in texts.iter() {
        let index = PositionIndex::new(text.as_bytes());
        let lookup = line_col::LineColLookup::new(text);
        for offset in 0..=text.len() {
            assert_eq!(index.map(offset), lookup.get(offset), "text {:?} offset {}", text, offset);
        }
    }
}

#[test]
fn position_exact_values() {
    let index = PositionIndex::new("One\nTwo".as_bytes());
    assert_eq!(index.map(0), (1, 1));
    assert_eq!(index.map(2), (1, 3));
    assert_eq!(index.map(3), (1, 4));
    assert_eq!(index.map(4), (2, 1));
    assert_eq!(index.map(7), (2, 4));
    assert_eq!(index.len(), 7);
}

#[test]
fn decimal_literals() {
    assert_eq!(parse_decimal_u64("123"), Some(123));
    assert_eq!(parse_decimal_u64("+5"), Some(5));
    assert_eq!(parse_decimal_u64("0"), Some(0));
    assert_eq!(parse_decimal_u64("18446744073709551615"), Some(u64::MAX));
    assert_eq!(parse_decimal_u64("18446744073709551616"), None);
    assert_eq!(parse_decimal_u64(""), None);
    assert_eq!(parse_decimal_u64("+"), None);
    assert_eq!(parse_decimal_u64("-1"), None);
    assert_eq!(parse_decimal_u64("0x7B"), None);
    assert_eq!(parse_decimal_u64("1.5"), None);
    assert_eq!(parse_decimal_u64("1e3"), None);
    assert_eq!(parse_decimal_u64("1_000"), None);
}

#[test]
fn decimal_rendering() {
    assert_eq!(decimal_string(0), "0");
    assert_eq!(decimal_string(7), "7");
    assert_eq!(decimal_string(123), "123");
    assert_eq!(decimal_string(u64::MAX), "18446744073709551615");
}

#[test]
fn getfenv_reported_at_call_start() {
    let source = "getfenv()";
    let findings = scan_script(&unit("Main.Loader", source), &vec![direct(0, "getfenv", vec![])]);
    assert_eq!(findings.len(), 1);
    assert_eq!(findings[0].rule, Rule::GlobalEnvRead);
    assert_eq!(findings[0].rule_id(), "global-env-read");
    assert_eq!((findings[0].line, findings[0].column), (1, 1));
    assert_eq!(findings[0].script_location, "Main.Loader");
}

#[test]
fn getfenv_on_later_line() {
    let source = "local x = 1\n  local e = getfenv()";
    let offset = source.find("getfenv").unwrap();
    let findings = scan_script(&unit("S", source), &vec![direct(offset, "getfenv", vec![])]);
    assert_eq!(findings.len(), 1);
    assert_eq!((findings[0].line, findings[0].column), (2, 13));
}

#[test]
fn require_by_id_in_both_call_styles() {
    let m = method(0, "x", "require", vec![number("123")]);
    let d = direct(0, "require", vec![number("123")]);
    let ms = resolve_call(&m);
    let ds = resolve_call(&d);
    assert_eq!(ms.len(), 1);
    assert_eq!(ds.len(), 1);
    assert_eq!(ms[0].style, CallStyle::Method);
    assert_eq!(ds[0].style, CallStyle::Direct);
    assert_eq!(ms[0].offset, 0);
    assert_eq!(ds[0].offset, 0);
    assert_eq!(ms[0].literal_first_argument, Some(123));
    assert_eq!(ds[0].literal_first_argument, Some(123));
    assert_eq!(rules_of(check_call(&m)), vec![Rule::NumericRequire(123)]);
    assert_eq!(rules_of(check_call(&d)), vec![Rule::NumericRequire(123)]);
    let a = scan_script(&unit("A", "x:require(123)"), &vec![m]);
    let b = scan_script(&unit("B", "require(123)"), &vec![d]);
    assert_eq!(a.len(), 1);
    assert_eq!(b.len(), 1);
    assert_eq!(a[0].rule, b[0].rule);
    assert_eq!(a[0].rule_id(), "numeric-require");
    assert_eq!((a[0].line, a[0].column), (1, 1));
    assert_eq!((a[0].line, a[0].column), (b[0].line, b[0].column));
}

#[test]
fn require_with_call_argument_is_not_reported() {
    let call = direct(0, "require", vec![Argument::Other]);
    assert_eq!(resolve_call(&call)[0].literal_first_argument, None);
    assert!(check_call(&call).is_empty());
    assert!(scan_script(&unit("S", "require(getModule())"), &vec![call]).is_empty());
}

#[test]
fn require_without_arguments_or_with_string_is_not_reported() {
    assert!(check_call(&direct(0, "require", vec![])).is_empty());
    let s = CallChain {
        offset: 0,
        prefix: CallPrefix::Name("require".to_string()),
        suffixes: vec![CallSuffix::Call(CallArgs::StringLiteral)],
    };
    assert!(check_call(&s).is_empty());
    assert!(check_call(&direct(0, "require", vec![number("0x7B")])).is_empty());
    assert_eq!(
        rules_of(check_call(&direct(0, "require", vec![number("100"), number("23")]))),
        vec![Rule::NumericRequire(100)]
    );
}

fn call_link(args: Vec<Argument>) -> CallSuffix {
    CallSuffix::Call(CallArgs::Parentheses(args))
}

fn method_link(name: &str, args: Vec<Argument>) -> CallSuffix {
    CallSuffix::MethodCall(name.to_string(), CallArgs::Parentheses(args))
}

#[test]
fn setfenv_and_other_shapes() {
    assert_eq!(rules_of(check_call(&direct(0, "setfenv", vec![number("1")]))), vec![Rule::GlobalEnvWrite]);
    assert_eq!(rules_of(check_call(&method(0, "obj", "getfenv", vec![]))), vec![Rule::GlobalEnvRead]);
    assert!(check_call(&direct(0, "print", vec![])).is_empty());
    let indexed = CallChain {
        offset: 0,
        prefix: CallPrefix::Name("getfenv".to_string()),
        suffixes: vec![CallSuffix::Index, call_link(vec![])],
    };
    assert!(resolve_call(&indexed).is_empty());
    let bare = CallChain { offset: 0, prefix: CallPrefix::Name("getfenv".to_string()), suffixes: vec![] };
    assert!(resolve_call(&bare).is_empty());
    let parenthesised = CallChain {
        offset: 0,
        prefix: CallPrefix::Expression,
        suffixes: vec![call_link(vec![])],
    };
    assert!(resolve_call(&parenthesised).is_empty());
    let chained = CallChain {
        offset: 0,
        prefix: CallPrefix::Name("game".to_string()),
        suffixes: vec![
            CallSuffix::MethodCall("GetService".to_string(), CallArgs::StringLiteral),
            method_link("setfenv", vec![]),
        ],
    };
    assert_eq!(check_call(&chained), vec![Hit { offset: 0, rule: Rule::GlobalEnvWrite }]);
    let g = CallChain {
        offset: 4,
        prefix: CallPrefix::Name("game".to_string()),
        suffixes: vec![method_link("getfenv", vec![])],
    };
    let f = scan_script(&unit("S", "x = game:getfenv()"), &vec![g]);
    assert_eq!((f[0].line, f[0].column), (1, 5));
}

#[test]
fn every_call_of_a_chain_is_checked() {
    // foo():getfenv()
    let a = CallChain {
        offset: 0,
        prefix: CallPrefix::Name("foo".to_string()),
        suffixes: vec![call_link(vec![]), method_link("getfenv", vec![])],
    };
    let sites = resolve_call(&a);
    let names: Vec<(&str, usize, CallStyle)> =
        sites.iter().map(|s| (s.callee.as_str(), s.offset, s.style)).collect();
    assert_eq!(names, vec![("foo", 0, CallStyle::Direct), ("getfenv", 0, CallStyle::Method)]);
    assert_eq!(check_call(&a), vec![Hit { offset: 0, rule: Rule::GlobalEnvRead }]);
    // getfenv():setfenv(1)
    let b = CallChain {
        offset: 0,
        prefix: CallPrefix::Name("getfenv".to_string()),
        suffixes: vec![call_link(vec![]), method_link("setfenv", vec![number("1")])],
    };
    assert_eq!(
        check_call(&b),
        vec![Hit { offset: 0, rule: Rule::GlobalEnvRead }, Hit { offset: 0, rule: Rule::GlobalEnvWrite }]
    );
    // a:getfenv():b()
    let c = CallChain {
        offset: 0,
        prefix: CallPrefix::Name("a".to_string()),
        suffixes: vec![method_link("getfenv", vec![]), method_link("b", vec![])],
    };
    assert_eq!(check_call(&c), vec![Hit { offset: 0, rule: Rule::GlobalEnvRead }]);
    // x():require(7)():setfenv()
    let d = CallChain {
        offset: 0,
        prefix: CallPrefix::Name("x".to_string()),
        suffixes: vec![
            call_link(vec![]),
            method_link("require", vec![number("7")]),
            call_link(vec![]),
            method_link("setfenv", vec![]),
        ],
    };
    assert_eq!(rules_of(check_call(&d)), vec![Rule::NumericRequire(7), Rule::GlobalEnvWrite]);
    let f = scan_script(&unit("S", "  foo():getfenv()"), &vec![CallChain { offset: 2, ..a }]);
    assert_eq!(f.len(), 1);
    assert_eq!((f[0].line, f[0].column, f[0].rule), (1, 3, Rule::GlobalEnvRead));
    let g = scan_script(&unit("S", "getfenv():setfenv(1)"), &vec![b]);
    let got: Vec<(usize, Rule)> = g.iter().map(|x| (x.column, x.rule)).collect();
    assert_eq!(got, vec![(1, Rule::GlobalEnvRead), (1, Rule::GlobalEnvWrite)]);
}

#[test]
fn findings_are_ordered_by_offset_whatever_the_walk_order() {
    // getfenv(); a(getfenv()):setfenv(): the walk hands over the outer chain
    // before the call inside its arguments, and the first chain last.
    let source = "getfenv(); a(getfenv()):setfenv()";
    let outer = CallChain {
        offset: 11,
        prefix: CallPrefix::Name("a".to_string()),
        suffixes: vec![call_link(vec![Argument::Other]), method_link("setfenv", vec![])],
    };
    let inner = direct(13, "getfenv", vec![]);
    let first = direct(0, "getfenv", vec![]);
    let f = scan_script(&unit("S", source), &vec![outer, inner, first]);
    let got: Vec<(usize, Rule)> = f.iter().map(|x| (x.column, x.rule)).collect();
    assert_eq!(got, vec![(1, Rule::GlobalEnvRead), (12, Rule::GlobalEnvWrite), (14, Rule::GlobalEnvRead)]);
}

#[test]
fn messages_name_the_rule() {
    assert_eq!(
        Rule::GlobalEnvRead.message(),
        "Detected `getfenv` usage, which is extremely forbidden as it's commonly used for malicious purposes."
    );
    assert_eq!(
        Rule::GlobalEnvWrite.message(),
        "Detected `setfenv` usage, changing the script environment is not allowed."
    );
    assert_eq!(
        Rule::NumericRequire(4242).message(),
        "Detected requiring by id (4242). This is used to download malicious scripts, thus is not allowed."
    );
    assert_eq!(Rule::GlobalEnvWrite.rule_id(), "global-env-write");
}

#[test]
fn findings_follow_call_order_within_a_script() {
    let source = "getfenv()\nsetfenv(1, {})\nrequire(5) print(1) getfenv()";
    let calls = vec![
        direct(45, "getfenv", vec![]),
        direct(10, "setfenv", vec![number("1")]),
        direct(0, "getfenv", vec![]),
        direct(25, "require", vec![number("5")]),
        direct(36, "print", vec![number("1")]),
    ];
    let f = scan_script(&unit("S", source), &calls);
    let got: Vec<(usize, usize, Rule)> = f.iter().map(|x| (x.line, x.column, x.rule)).collect();
    assert_eq!(
        got,
        vec![
            (1, 1, Rule::GlobalEnvRead),
            (2, 1, Rule::GlobalEnvWrite),
            (3, 1, Rule::NumericRequire(5)),
            (3, 21, Rule::GlobalEnvRead),
        ]
    );
    for w in got.windows(2) {
        assert!((w[0].0, w[0].1) < (w[1].0, w[1].1));
    }
}

#[test]
fn findings_follow_script_order() {
    let scripts = vec![
        parsed("Main.Loader", "local e = getfenv(); setfenv(1, e)", vec![
            direct(10, "getfenv", vec![]),
            direct(21, "setfenv", vec![number("1"), Argument::Other]),
        ]),
        parsed("Main.Net", "print(\"ok\")", vec![direct(0, "print", vec![Argument::Other])]),
        parsed("Main.Late", "getfenv()", vec![direct(0, "getfenv", vec![])]),
    ];
    let report = report_of(&scripts);
    assert!(report.is_malicious);
    let got: Vec<(String, &str)> =
        report.findings.iter().map(|f| (f.script_location.clone(), f.rule_id())).collect();
    assert_eq!(
        got,
        vec![
            ("Main.Loader".to_string(), "global-env-read"),
            ("Main.Loader".to_string(), "global-env-write"),
            ("Main.Late".to_string(), "global-env-read"),
        ]
    );
}

#[test]
fn syntax_error_aborts_whole_scan() {
    let scripts = vec![
        parsed("A", "getfenv()", vec![direct(0, "getfenv", vec![])]),
        ParsedScript {
            unit: unit("B", "local = ="),
            calls: Err(SyntaxError { offset: 6, message: "expected name".to_string() }),
        },
        ParsedScript {
            unit: unit("C", "("),
            calls: Err(SyntaxError { offset: 1, message: "unexpected end".to_string() }),
        },
    ];
    match scan_scripts(&scripts) {
        Ok(_) => panic!("a script that does not parse must fail the scan"),
        Err(e) => {
            assert_eq!(e.offset, 6);
            assert_eq!(e.message, "expected name");
        }
    }
}

#[test]
fn no_scripts_is_clean() {
    let report = report_of(&vec![]);
    assert!(!report.is_malicious);
    assert!(report.findings.is_empty());
    let report = report_of(&vec![parsed("A", "print(1)", vec![direct(0, "print", vec![number("1")])])]);
    assert!(!report.is_malicious);
    assert!(report.findings.is_empty());
}

#[test]
fn scanning_twice_gives_the_same_report() {
    let make = || {
        vec![
            parsed("A", "getfenv()\nx:require(9)", vec![
                direct(0, "getfenv", vec![]),
                method(10, "x", "require", vec![number("9")]),
            ]),
            parsed("B", "setfenv(1)", vec![direct(0, "setfenv", vec![number("1")])]),
        ]
    };
    let a = report_of(&make());
    let b = report_of(&make());
    let view = |r: &ScanReport| -> Vec<(String, usize, usize, String, String)> {
        r.findings
            .iter()
            .map(|f| (f.script_location.clone(), f.line, f.column, f.rule_id().to_string(), f.message()))
            .collect()
    };
    assert_eq!(a.is_malicious, b.is_malicious);
    assert_eq!(view(&a), view(&b));
}
