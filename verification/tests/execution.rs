use brainquack::BrainQuackError;
use brainquack::InterpreterError;
use brainquack::LexerError;
use brainquack::execute;

const HELLO_WORLD_SRC: &str =
    "++++++++[>++++[>++>+++>+++>+<<<<-]>+>+>->>+[<]<-]>>.>---.+++++++..+++.>>.<-.<.+++.------.--------.>>+.>++.";

#[test]
fn execute_hello_world() {
    let mut output = String::new();
    assert!(execute(HELLO_WORLD_SRC, &[], &mut output, u64::MAX).is_ok());
    assert_eq!(output, "Hello World!\n");
}

#[test]
fn execute_appends_to_existing_output() {
    let mut output = String::from("before:");
    assert!(execute("+++.", &[], &mut output, u64::MAX).is_ok());
    assert_eq!(output, "before:\u{3}");
}

#[test]
fn execute_reports_parse_errors() {
    let mut output = String::new();
    let r = execute("[", &[], &mut output, u64::MAX);
    assert_eq!(
        r.unwrap_err(),
        BrainQuackError::LexerError(LexerError::UnmatchedOpenBracket(0))
    );
    assert_eq!(output, "");
}

#[test]
fn execute_reports_runtime_errors() {
    let mut output = String::new();
    let r = execute(",", &[], &mut output, u64::MAX);
    assert_eq!(
        r.unwrap_err(),
        BrainQuackError::InterpreterError(InterpreterError::InputExhausted)
    );
}

#[test]
fn execute_consumes_input() {
    let mut output = String::new();
    let input: Vec<u8> = vec![72, 105];
    assert!(execute(",.,.", &input, &mut output, u64::MAX).is_ok());
    assert_eq!(output, "Hi");
}
