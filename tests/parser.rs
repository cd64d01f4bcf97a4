use tip_syntax::{
    build, flatten, parse, tokenize, Input, Parse, Parser, Step, StepEvent, SyntaxKind, TreeEvent,
};

fn render(tree: &[TreeEvent]) -> String {
    let mut out = String::new();
    let mut need_space = false;
    for event in tree {
        match event {
            TreeEvent::Enter(kind) => {
                if need_space {
                    out.push(' ');
                }
                out.push_str(&format!("{:?}[", kind));
                need_space = false;
            }
            TreeEvent::Leaf { kind, text } => {
                if need_space {
                    out.push(' ');
                }
                out.push_str(&format!("{:?}({:?})", kind, text));
                need_space = true;
            }
            TreeEvent::Exit => {
                out.push(']');
                need_space = true;
            }
        }
    }
    out
}

fn leaf_text(p: &Parse) -> String {
    let mut out = String::new();
    for event in &p.tree {
        if let TreeEvent::Leaf { text, .. } = event {
            out.push_str(text);
        }
    }
    out
}

fn messages(p: &Parse) -> Vec<String> {
    p.errors.iter().map(|e| e.message.clone()).collect()
}

#[test]
fn function_with_empty_parameter_list() {
    let p = parse("f()");
    assert_eq!(
        render(&p.tree),
        "PROGRAM[FUN[IDENT(\"f\") PARAM_LIST[OPEN_PAREN(\"(\") CLOSE_PAREN(\")\")]]]"
    );
    assert!(p.errors.is_empty());
}

#[test]
fn function_with_two_parameters() {
    let p = parse("f(x, y)");
    assert_eq!(
        render(&p.tree),
        "PROGRAM[FUN[IDENT(\"f\") PARAM_LIST[OPEN_PAREN(\"(\") IDENT(\"x\") COMMA(\",\") \
         WHITESPACE(\" \") IDENT(\"y\") CLOSE_PAREN(\")\")]]]"
    );
    assert!(p.errors.is_empty());
}

#[test]
fn missing_comma_is_reported_once() {
    let p = parse("f(x y)");
    assert_eq!(messages(&p), vec!["expected `,`".to_string()]);
    assert_eq!(
        render(&p.tree),
        "PROGRAM[FUN[IDENT(\"f\") PARAM_LIST[OPEN_PAREN(\"(\") IDENT(\"x\") WHITESPACE(\" \") \
         IDENT(\"y\") CLOSE_PAREN(\")\")]]]"
    );
}

#[test]
fn numeral_at_top_level_is_skipped() {
    let p = parse("123");
    assert_eq!(messages(&p), vec!["expected an identifier".to_string()]);
    assert_eq!(p.errors[0].offset, 0);
    assert_eq!(render(&p.tree), "PROGRAM[INT(\"123\")]");
}

#[test]
fn unmatched_braces_make_progress() {
    let p = parse("}}}}");
    assert_eq!(p.errors.len(), 4);
    assert_eq!(leaf_text(&p), "}}}}");
    let offsets: Vec<usize> = p.errors.iter().map(|e| e.offset).collect();
    assert_eq!(offsets, vec![0, 1, 2, 3]);
}

#[test]
fn missing_parameter_list_is_reported() {
    let p = parse("f g()");
    assert_eq!(messages(&p), vec!["expected `(`".to_string()]);
    assert_eq!(
        render(&p.tree),
        "PROGRAM[FUN[IDENT(\"f\")] WHITESPACE(\" \") FUN[IDENT(\"g\") PARAM_LIST[OPEN_PAREN(\"(\") \
         CLOSE_PAREN(\")\")]]]"
    );
}

#[test]
fn missing_close_paren_and_name() {
    let p = parse("f(x,");
    assert_eq!(
        messages(&p),
        vec!["expected parameter name".to_string(), "expected ')'".to_string()]
    );
    let p = parse("f(");
    assert_eq!(messages(&p), vec!["expected ')'".to_string()]);
}

#[test]
fn empty_input_gives_empty_program() {
    let p = parse("");
    assert_eq!(render(&p.tree), "PROGRAM[]");
    assert!(p.errors.is_empty());
}

#[test]
fn trees_are_lossless() {
    let inputs = [
        "",
        " ",
        "f()",
        "  f ( a ,b )  \n g()\t",
        "iterate(n) {\n  var f;\n  f = 1;\n}",
        "==\u{0}é=",
        "f(é, ü) ∀x",
        "f(x y z",
        ")))(((",
        "=",
        "a == b = c",
    ];
    for input in inputs {
        let p = parse(input);
        assert_eq!(leaf_text(&p), input);
        let leaves = p
            .tree
            .iter()
            .filter(|e| matches!(e, TreeEvent::Leaf { .. }))
            .count();
        assert_eq!(leaves, tokenize(input).len());
        let total: usize = tokenize(input).iter().map(|t| t.len as usize).sum();
        assert_eq!(total, input.len());
    }
}

#[test]
fn whitespace_around_items_stays_outside_them() {
    let p = parse(" f() ");
    assert_eq!(
        render(&p.tree),
        "PROGRAM[WHITESPACE(\" \") FUN[IDENT(\"f\") PARAM_LIST[OPEN_PAREN(\"(\") \
         CLOSE_PAREN(\")\")]] WHITESPACE(\" \")]"
    );
}

#[test]
fn trivia_free_input() {
    let tokens = tokenize("f ( x )");
    let input = Input::new(&tokens);
    assert_eq!(
        input.kinds(),
        vec![
            SyntaxKind::IDENT,
            SyntaxKind::OPEN_PAREN,
            SyntaxKind::IDENT,
            SyntaxKind::CLOSE_PAREN
        ]
    );
}

#[test]
fn parser_lookahead_and_eat() {
    let mut p = Parser::new(vec![SyntaxKind::IDENT, SyntaxKind::COMMA]);
    assert_eq!(p.current(), SyntaxKind::IDENT);
    assert_eq!(p.nth(1), SyntaxKind::COMMA);
    assert_eq!(p.nth(2), SyntaxKind::EOF);
    assert!(p.nth_at(1, SyntaxKind::COMMA));
    assert!(!p.eat(SyntaxKind::COMMA));
    assert!(p.eat(SyntaxKind::IDENT));
    assert!(p.at(SyntaxKind::COMMA));
    p.bump_any();
    assert!(p.at(SyntaxKind::EOF));
    assert!(!p.eat(SyntaxKind::EOF));
    p.bump_any();
    let events = p.finish();
    assert_eq!(
        events,
        vec![
            StepEvent::Token { kind: SyntaxKind::IDENT },
            StepEvent::Token { kind: SyntaxKind::COMMA }
        ]
    );
}

#[test]
fn abandoned_marker_leaves_no_trace() {
    let mut p = Parser::new(vec![SyntaxKind::IDENT]);
    let m = p.start();
    m.abandon(&mut p);
    let m = p.start();
    p.bump(SyntaxKind::IDENT);
    m.abandon(&mut p);
    let events = p.finish();
    assert_eq!(
        events,
        vec![
            StepEvent::Tombstone,
            StepEvent::Token { kind: SyntaxKind::IDENT }
        ]
    );
    let steps = flatten(&events);
    assert_eq!(steps, vec![Step::Token(SyntaxKind::IDENT)]);
}

#[test]
fn error_is_recorded_without_consuming() {
    let mut p = Parser::new(vec![SyntaxKind::INT]);
    p.error("oops");
    assert_eq!(p.current(), SyntaxKind::INT);
    let events = p.finish();
    assert_eq!(
        events,
        vec![StepEvent::Error {
            message: "oops".to_string()
        }]
    );
}

#[test]
fn preceding_wraps_completed_operand() {
    let text = " (x) + (y) ";
    let tokens = tokenize(text);
    let input = Input::new(&tokens);
    let mut p = Parser::new(input.kinds());
    let root = p.start();
    let m = p.start();
    p.bump(SyntaxKind::OPEN_PAREN);
    p.bump(SyntaxKind::IDENT);
    p.bump(SyntaxKind::CLOSE_PAREN);
    let lhs = m.complete(&mut p, SyntaxKind::PAREN_EXP);
    let bin = lhs.precede(&mut p);
    p.bump(SyntaxKind::PLUS);
    let m = p.start();
    p.bump(SyntaxKind::OPEN_PAREN);
    p.bump(SyntaxKind::IDENT);
    p.bump(SyntaxKind::CLOSE_PAREN);
    m.complete(&mut p, SyntaxKind::PAREN_EXP);
    bin.complete(&mut p, SyntaxKind::BIN_EXP);
    root.complete(&mut p, SyntaxKind::PROGRAM);
    let events = p.finish();
    let steps = flatten(&events);
    assert_eq!(
        steps,
        vec![
            Step::Start(SyntaxKind::PROGRAM),
            Step::Start(SyntaxKind::BIN_EXP),
            Step::Start(SyntaxKind::PAREN_EXP),
            Step::Token(SyntaxKind::OPEN_PAREN),
            Step::Token(SyntaxKind::IDENT),
            Step::Token(SyntaxKind::CLOSE_PAREN),
            Step::Finish,
            Step::Token(SyntaxKind::PLUS),
            Step::Start(SyntaxKind::PAREN_EXP),
            Step::Token(SyntaxKind::OPEN_PAREN),
            Step::Token(SyntaxKind::IDENT),
            Step::Token(SyntaxKind::CLOSE_PAREN),
            Step::Finish,
            Step::Finish,
            Step::Finish,
        ]
    );
    let parse = build(text, &steps);
    assert_eq!(
        render(&parse.tree),
        "PROGRAM[WHITESPACE(\" \") BIN_EXP[PAREN_EXP[OPEN_PAREN(\"(\") IDENT(\"x\") \
         CLOSE_PAREN(\")\")] WHITESPACE(\" \") PLUS(\"+\") WHITESPACE(\" \") \
         PAREN_EXP[OPEN_PAREN(\"(\") IDENT(\"y\") CLOSE_PAREN(\")\")]] WHITESPACE(\" \")]"
    );
    assert_eq!(leaf_text(&parse), text);
}

#[test]
fn chained_preceding_nests_outermost_first() {
    let mut p = Parser::new(vec![SyntaxKind::IDENT, SyntaxKind::PLUS, SyntaxKind::IDENT, SyntaxKind::PLUS, SyntaxKind::IDENT]);
    let m = p.start();
    p.bump(SyntaxKind::IDENT);
    let a = m.complete(&mut p, SyntaxKind::REF_EXP);
    let inner = a.precede(&mut p);
    p.bump(SyntaxKind::PLUS);
    p.bump(SyntaxKind::IDENT);
    let first = inner.complete(&mut p, SyntaxKind::BIN_EXP);
    let outer = first.precede(&mut p);
    p.bump(SyntaxKind::PLUS);
    p.bump(SyntaxKind::IDENT);
    outer.complete(&mut p, SyntaxKind::BIN_EXP);
    let steps = flatten(&p.finish());
    assert_eq!(
        steps,
        vec![
            Step::Start(SyntaxKind::BIN_EXP),
            Step::Start(SyntaxKind::BIN_EXP),
            Step::Start(SyntaxKind::REF_EXP),
            Step::Token(SyntaxKind::IDENT),
            Step::Finish,
            Step::Token(SyntaxKind::PLUS),
            Step::Token(SyntaxKind::IDENT),
            Step::Finish,
            Step::Token(SyntaxKind::PLUS),
            Step::Token(SyntaxKind::IDENT),
            Step::Finish,
        ]
    );
}

#[test]
fn checkpoint_wraps_binary_expression() {
    let text = "(a)  ==  (b)\n";
    let tokens = tokenize(text);
    let input = Input::new(&tokens);
    let mut p = Parser::new(input.kinds());
    let root = p.start();
    let cp = p.checkpoint();
    let m = p.start();
    p.bump(SyntaxKind::OPEN_PAREN);
    p.bump(SyntaxKind::IDENT);
    p.bump(SyntaxKind::CLOSE_PAREN);
    m.complete(&mut p, SyntaxKind::PAREN_EXP);
    assert!(p.at(SyntaxKind::EQEQ));
    let bin = p.start_node_at(cp).unwrap();
    p.bump(SyntaxKind::EQEQ);
    let m = p.start();
    p.bump(SyntaxKind::OPEN_PAREN);
    p.bump(SyntaxKind::IDENT);
    p.bump(SyntaxKind::CLOSE_PAREN);
    m.complete(&mut p, SyntaxKind::PAREN_EXP);
    bin.complete(&mut p, SyntaxKind::BIN_EXP);
    root.complete(&mut p, SyntaxKind::PROGRAM);
    let steps = flatten(&p.finish());
    let parse = build(text, &steps);
    assert_eq!(
        render(&parse.tree),
        "PROGRAM[BIN_EXP[PAREN_EXP[OPEN_PAREN(\"(\") IDENT(\"a\") CLOSE_PAREN(\")\")] \
         WHITESPACE(\"  \") EQEQ(\"==\") WHITESPACE(\"  \") PAREN_EXP[OPEN_PAREN(\"(\") \
         IDENT(\"b\") CLOSE_PAREN(\")\")]] WHITESPACE(\"\\n\")]"
    );
    let mut bin_text = String::new();
    let mut depth = 0;
    let mut inside = false;
    for event in &parse.tree {
        match event {
            TreeEvent::Enter(SyntaxKind::BIN_EXP) => {
                inside = true;
                depth = 1;
            }
            TreeEvent::Enter(_) if inside => depth += 1,
            TreeEvent::Exit if inside => {
                depth -= 1;
                if depth == 0 {
                    inside = false;
                }
            }
            TreeEvent::Leaf { text, .. } if inside => bin_text.push_str(text),
            _ => {}
        }
    }
    assert_eq!(bin_text, "(a)  ==  (b)");
}

#[test]
fn checkpoint_without_node_gives_nothing() {
    let mut p = Parser::new(vec![SyntaxKind::IDENT]);
    let cp = p.checkpoint();
    assert!(p.start_node_at(cp).is_none());
    p.bump(SyntaxKind::IDENT);
    assert!(p.start_node_at(cp).is_none());
    assert!(p.start_node_at(7).is_none());
    assert_eq!(
        p.finish(),
        vec![StepEvent::Token { kind: SyntaxKind::IDENT }]
    );
}

#[test]
fn repeated_checkpoint_wrapping_chains_outward() {
    let mut p = Parser::new(vec![
        SyntaxKind::INT,
        SyntaxKind::PLUS,
        SyntaxKind::INT,
        SyntaxKind::STAR,
        SyntaxKind::INT,
    ]);
    let cp = p.checkpoint();
    let m = p.start();
    p.bump(SyntaxKind::INT);
    m.complete(&mut p, SyntaxKind::PAREN_EXP);
    let inner = p.start_node_at(cp).unwrap();
    p.bump(SyntaxKind::PLUS);
    p.bump(SyntaxKind::INT);
    inner.complete(&mut p, SyntaxKind::BIN_EXP);
    let outer = p.start_node_at(cp).unwrap();
    p.bump(SyntaxKind::STAR);
    p.bump(SyntaxKind::INT);
    outer.complete(&mut p, SyntaxKind::PREFIX_EXP);
    let steps = flatten(&p.finish());
    assert_eq!(
        steps,
        vec![
            Step::Start(SyntaxKind::PREFIX_EXP),
            Step::Start(SyntaxKind::BIN_EXP),
            Step::Start(SyntaxKind::PAREN_EXP),
            Step::Token(SyntaxKind::INT),
            Step::Finish,
            Step::Token(SyntaxKind::PLUS),
            Step::Token(SyntaxKind::INT),
            Step::Finish,
            Step::Token(SyntaxKind::STAR),
            Step::Token(SyntaxKind::INT),
            Step::Finish,
        ]
    );
}
