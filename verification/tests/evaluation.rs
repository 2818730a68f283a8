use brainquack::InterpreterError;
use brainquack::interpret;
use brainquack::new_tape;
use brainquack::parse;

const HELLO_WORLD_SRC: &str =
    "++++++++[>++++[>++>+++>+++>+<<<<-]>+>+>->>+[<]<-]>>.>---.+++++++..+++.>>.<-.<.+++.------.--------.>>+.>++.";

fn push_repeat(s: &mut String, c: char, n: usize) {
    let mut k = 0;
    while k < n {
        s.push(c);
        k += 1;
    }
}

/// A program that prints a NUL, then "8 bit cells" and a newline, computing
/// the '8' by decrementing a zero cell 200 times (eight-bit underflow wrap).
fn cell_size_src() -> String {
    let mut src = String::new();
    src.push('.');
    push_repeat(&mut src, '-', 200);
    src.push('.');
    for c in " bit cells\n".chars() {
        src.push('>');
        push_repeat(&mut src, '+', c as usize);
        src.push('.');
    }
    src
}

#[test]
fn hello_world() {
    let mut src = String::from(".");
    src.push_str(HELLO_WORLD_SRC);
    let instructions = parse(src.as_str()).unwrap();
    let mut memory = new_tape(30_000);
    let mut output = String::new();

    assert!(interpret(&instructions, &mut memory, &[], &mut output, u64::MAX).is_ok());
    assert_eq!(output, "\0Hello World!\n".to_string());
}

#[test]
fn cell_size() {
    let src = cell_size_src();
    let instructions = parse(src.as_str()).unwrap();
    let mut memory = new_tape(30_000);
    let mut output = String::new();

    assert!(interpret(&instructions, &mut memory, &[], &mut output, u64::MAX).is_ok());
    assert_eq!(output, "\08 bit cells\n".to_string());
}

#[test]
fn three_increments_output_code_three() {
    let instructions = parse("+++.").unwrap();
    let mut memory = new_tape(10);
    let mut output = String::new();
    assert!(interpret(&instructions, &mut memory, &[], &mut output, 0).is_ok());
    let chars: Vec<char> = output.chars().collect();
    assert_eq!(chars.len(), 1);
    assert_eq!(chars[0] as u32, 3);
    assert_eq!(memory[0], 3);
}

#[test]
fn decrement_wraps_to_255() {
    let instructions = parse("-.").unwrap();
    let mut memory = new_tape(10);
    let mut output = String::new();
    assert!(interpret(&instructions, &mut memory, &[], &mut output, 0).is_ok());
    let chars: Vec<char> = output.chars().collect();
    assert_eq!(chars.len(), 1);
    assert_eq!(chars[0] as u32, 255);
    assert_eq!(memory[0], 255);
}

#[test]
fn increment_wraps_to_zero() {
    let mut src = String::new();
    push_repeat(&mut src, '+', 256);
    src.push('.');
    let instructions = parse(src.as_str()).unwrap();
    let mut memory = new_tape(3);
    let mut output = String::new();
    assert!(interpret(&instructions, &mut memory, &[], &mut output, 0).is_ok());
    assert_eq!(output, "\0");
    assert_eq!(memory[0], 0);
}

#[test]
fn move_left_wraps_to_last_cell() {
    let instructions = parse("<.").unwrap();
    let mut memory = new_tape(5);
    memory[4] = 7;
    let mut output = String::new();
    assert!(interpret(&instructions, &mut memory, &[], &mut output, 0).is_ok());
    let chars: Vec<char> = output.chars().collect();
    assert_eq!(chars, vec!['\u{7}']);
}

#[test]
fn move_right_wraps_to_first_cell() {
    let instructions = parse(">>.").unwrap();
    let mut memory = new_tape(2);
    memory[0] = 5;
    memory[1] = 9;
    let mut output = String::new();
    assert!(interpret(&instructions, &mut memory, &[], &mut output, 0).is_ok());
    let chars: Vec<char> = output.chars().collect();
    assert_eq!(chars, vec!['\u{5}']);
}

#[test]
fn input_bytes_are_stored_and_echoed() {
    let instructions = parse(",.>,.").unwrap();
    let mut memory = new_tape(4);
    let mut output = String::new();
    let input: Vec<u8> = vec![65, 66];
    assert!(interpret(&instructions, &mut memory, &input, &mut output, 0).is_ok());
    assert_eq!(output, "AB");
    assert_eq!(memory[0], 65);
    assert_eq!(memory[1], 66);
}

#[test]
fn input_exhausted_retains_output() {
    let instructions = parse(".,").unwrap();
    let mut memory = new_tape(4);
    let mut output = String::new();
    let r = interpret(&instructions, &mut memory, &[], &mut output, 0);
    assert_eq!(r.unwrap_err(), InterpreterError::InputExhausted);
    assert_eq!(output, "\0");
}

#[test]
fn loop_with_zero_cell_does_nothing() {
    let instructions = parse("[.+>]").unwrap();
    let mut memory = new_tape(4);
    let mut output = String::new();
    assert!(interpret(&instructions, &mut memory, &[], &mut output, 0).is_ok());
    assert_eq!(output, "");
    assert_eq!(memory, vec![0, 0, 0, 0]);
}

#[test]
fn loop_counts_down_to_zero() {
    // Move three units from the first cell to the second, then print both.
    let instructions = parse("+++[->+<].>.").unwrap();
    let mut memory = new_tape(4);
    let mut output = String::new();
    assert!(interpret(&instructions, &mut memory, &[], &mut output, 16).is_ok());
    let chars: Vec<char> = output.chars().collect();
    assert_eq!(chars, vec!['\u{0}', '\u{3}']);
}

#[test]
fn endless_loop_runs_out_of_fuel() {
    let instructions = parse("+[]").unwrap();
    let mut memory = new_tape(4);
    let mut output = String::new();
    let r = interpret(&instructions, &mut memory, &[], &mut output, 1000);
    assert_eq!(r.unwrap_err(), InterpreterError::OutOfFuel);
}

#[test]
fn new_tape_is_zeroed() {
    let t = new_tape(17);
    assert_eq!(t.len(), 17);
    assert!(t.iter().all(|&b| b == 0));
}
