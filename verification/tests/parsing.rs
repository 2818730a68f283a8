use brainquack::Instruction;
use brainquack::LexerError;
use brainquack::parse;
use brainquack::program_to_source;
use brainquack::remove_comments;

const HELLO_WORLD_SRC: &str =
    "++++++++[>++++[>++>+++>+++>+<<<<-]>+>+>->>+[<]<-]>>.>---.+++++++..+++.>>.<-.<.+++.------.--------.>>+.>++.";

#[test]
fn comments() {
    let toks = remove_comments(
        "+++++[>+df+#$%++[>++>ds+g!d+sg+d>sd+++>+<g<s<<-3]>+>+423>->>+[<]<-]>>.>!-,",
    );
    let mut kept = String::new();
    for (_, c) in toks {
        kept.push(c);
    }
    assert_eq!(kept, "+++++[>++++[>++>+++>+++>+<<<<-]>+>+>->>+[<]<-]>>.>-,");
}

#[test]
fn comments_keep_original_indices() {
    let toks = remove_comments("a+b[c]");
    assert_eq!(toks, vec![(1, '+'), (3, '['), (5, ']')]);
}

#[test]
fn parsing_simple() {
    let p = parse("><+-.,[+-]");

    let expected = vec![
        Instruction::MoveRight,
        Instruction::MoveLeft,
        Instruction::Increment,
        Instruction::Decrement,
        Instruction::Output,
        Instruction::Input,
        Instruction::Loop(vec![Instruction::Increment, Instruction::Decrement]),
    ];

    assert!(p.is_ok());
    assert_eq!(p.unwrap(), expected);
}

#[test]
fn parsing_hello_world() {
    let p = parse(HELLO_WORLD_SRC);

    assert!(p.is_ok());
}

#[test]
fn comment_only_source_parses_empty() {
    let p = parse("nothing here but prose; no symbols of the language at all");
    assert_eq!(p.unwrap(), Vec::<Instruction>::new());
    let p = parse("");
    assert_eq!(p.unwrap(), Vec::<Instruction>::new());
}

#[test]
fn unmatched_open_bracket() {
    assert_eq!(
        parse("[").unwrap_err(),
        LexerError::UnmatchedOpenBracket(0)
    );
}

#[test]
fn unmatched_close_bracket() {
    assert_eq!(
        parse("]").unwrap_err(),
        LexerError::UnmatchedCloseBracket(0)
    );
}

#[test]
fn unmatched_brackets_report_original_indices() {
    // Indices count every character of the source, comments included.
    assert_eq!(
        parse("ab]").unwrap_err(),
        LexerError::UnmatchedCloseBracket(2)
    );
    // The most recently opened bracket that was never closed is reported.
    assert_eq!(
        parse("[+[+").unwrap_err(),
        LexerError::UnmatchedOpenBracket(2)
    );
    // An unmatched close is found even if an open bracket dangles later.
    assert_eq!(
        parse("[]][").unwrap_err(),
        LexerError::UnmatchedCloseBracket(2)
    );
}

#[test]
fn parsing_nested_loops() {
    let p = parse("[[]]").unwrap();
    assert_eq!(
        p,
        vec![Instruction::Loop(vec![Instruction::Loop(vec![])])]
    );
}

#[test]
fn reparsing_rendered_source_gives_same_tree() {
    let p = parse(HELLO_WORLD_SRC).unwrap();
    let rendered = program_to_source(&p);
    assert_eq!(rendered, HELLO_WORLD_SRC);
    let reparsed = parse(rendered.as_str()).unwrap();
    assert_eq!(reparsed, p);
}

#[test]
fn reparsing_drops_comments_only() {
    let p = parse("+ add one, [ loop: - take it back ] done.").unwrap();
    let rendered = program_to_source(&p);
    assert_eq!(rendered, "+,[-].");
    let reparsed = parse(rendered.as_str()).unwrap();
    assert_eq!(reparsed, p);
}

#[test]
fn instruction_to_source() {
    assert_eq!(Instruction::MoveRight.to_source(), ">");
    assert_eq!(Instruction::Input.to_source(), ",");
    assert_eq!(
        Instruction::Loop(vec![Instruction::Decrement]).to_source(),
        "[-]"
    );
}
