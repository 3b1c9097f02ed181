use bf_interp::parser::{tokenize, Cmd, Op, ParseError, Parser};

fn parse(src: &str) -> Result<Vec<Cmd>, ParseError> {
    Parser::from_bytes(&src.as_bytes().to_vec()).parse_all()
}

fn cmd(operator: Op, operand: usize) -> Cmd {
    Cmd { operator, operand }
}

#[test]
fn tokenize_skips_comments() {
    let toks = tokenize(&b"a+b-c<d>e.f,g[h]i\n".to_vec());
    assert_eq!(
        toks,
        vec![Op::Add, Op::Sub, Op::Left, Op::Right, Op::Out, Op::In, Op::JmpZero, Op::JmpNonZero]
    );
}

#[test]
fn tokenize_empty_and_comment_only() {
    assert!(tokenize(&Vec::new()).is_empty());
    assert!(tokenize(&b"hello world".to_vec()).is_empty());
}

#[test]
fn parse_empty_program() {
    assert_eq!(parse("").unwrap(), vec![]);
}

#[test]
fn parse_collapses_runs() {
    let cmds = parse("+++--<<<<>.., ,").unwrap();
    assert_eq!(
        cmds,
        vec![
            cmd(Op::Add, 3),
            cmd(Op::Sub, 2),
            cmd(Op::Left, 4),
            cmd(Op::Right, 1),
            cmd(Op::Out, 2),
            cmd(Op::In, 2),
        ]
    );
}

#[test]
fn parse_does_not_collapse_brackets() {
    let cmds = parse("[[]]").unwrap();
    assert_eq!(
        cmds,
        vec![
            cmd(Op::JmpZero, 4),
            cmd(Op::JmpZero, 3),
            cmd(Op::JmpNonZero, 2),
            cmd(Op::JmpNonZero, 1),
        ]
    );
}

#[test]
fn parse_resolves_jump_targets() {
    let cmds = parse("+++[>++<-].>.").unwrap();
    assert_eq!(
        cmds,
        vec![
            cmd(Op::Add, 3),
            cmd(Op::JmpZero, 7),
            cmd(Op::Right, 1),
            cmd(Op::Add, 2),
            cmd(Op::Left, 1),
            cmd(Op::Sub, 1),
            cmd(Op::JmpNonZero, 2),
            cmd(Op::Out, 1),
            cmd(Op::Right, 1),
            cmd(Op::Out, 1),
        ]
    );
}

#[test]
fn parse_deep_nesting() {
    let depth = 200;
    let src = format!("{}+{}", "[".repeat(depth), "]".repeat(depth));
    let cmds = parse(&src).unwrap();
    assert_eq!(cmds.len(), 2 * depth + 1);
    assert_eq!(cmds[0], cmd(Op::JmpZero, 2 * depth + 1));
    assert_eq!(cmds[2 * depth], cmd(Op::JmpNonZero, 1));
    assert!(parse("[[[-]>[+]]<[[[.]]]]").is_ok());
}

#[test]
fn parse_unopened_bracket() {
    assert_eq!(parse("]").unwrap_err(), ParseError::UnopenedBracket(0));
    assert_eq!(parse("++[-]]>>").unwrap_err(), ParseError::UnopenedBracket(4));
    assert_eq!(parse("[[]]]").unwrap_err(), ParseError::UnopenedBracket(4));
}

#[test]
fn parse_unclosed_bracket_reports_oldest() {
    assert_eq!(parse("[").unwrap_err(), ParseError::UnclosedBracket(0));
    assert_eq!(parse("+[-[+]").unwrap_err(), ParseError::UnclosedBracket(1));
    assert_eq!(parse(">[[").unwrap_err(), ParseError::UnclosedBracket(1));
}

#[test]
fn parse_unopened_wins_over_later_unclosed() {
    assert_eq!(parse("][").unwrap_err(), ParseError::UnopenedBracket(0));
}
