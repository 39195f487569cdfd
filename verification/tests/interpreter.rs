use brnfck::Instruction;
use brnfck::Machine;
use brnfck::StepEffect;
use brnfck::TranslationError;
use brnfck::parse;
use brnfck::run_with_input;

#[test]
fn hello_world() {
    let src = "++++++++[>++++[>++>+++>+++>+<<<<-]>+>+>->>+[<]<-]>>.>---.+++++++..+++.>>.<-.<.+++.------.--------.>>+.>++.";
    assert_eq!(run_with_input(src, ""), "Hello World!\n");
}

#[test]
fn cat() {
    let src = ",[.,]";
    assert_eq!(run_with_input(src, "hello"), "hello");
}

#[test]
fn quine() {
    let src = ">+++++>+++>+++>+++++>+++>+++>+++++>++++++>+>++>+++>++++>++++>+++>+++>+++++>+>+>++++>+++++++>+>+++++>+>+>+++++>++++++>+++>+++>++>+>+>++++>++++++>++++>++++>+++>+++++>+++>+++>++++>++>+>+>+>+>++>++>++>+>+>++>+>+>++++++>++++++>+>+>++++++>++++++>+>+>+>+++++>++++++>+>+++++>+++>+++>++++>++>+>+>++>+>+>++>++>+>+>++>++>+>+>+>+>++>+>+>+>++++>++>++>+>+++++>++++++>+++>+++>+++>+++>+++>+++>++>+>+>+>+>++>+>+>++++>+++>+++>+++>+++++>+>+++++>++++++>+>+>+>++>+++>+++>+++++++>+++>++++>+>++>+>+++++++>++++++>+>+++++>++++++>+++>+++>++>++>++>++>++>++>+>++>++>++>++>++>++>++>++>++>+>++++>++>++>++>++>++>++>++>+++++>++++++>++++>+++>+++++>++++++>++++>+++>+++>++++>+>+>+>+>+++++>+++>+++++>++++++>+++>+++>+++>++>+>+>+>++++>++++[[>>>+<<<-]<]>>>>[<<[-]<[-]+++++++[>+++++++++>++++++<<-]>-.>+>[<.<<+>>>-]>]<<<[>>+>>>>+<<<<<<-]>++[>>>+>>>>++>>++>>+>>+[<<]>-]>>>-->>-->>+>>+++>>>>+[<<]<[[-[>>+<<-]>>]>.[>>]<<[[<+>-]<<]<<]";
    assert_eq!(run_with_input(src, ""), src);
}

#[test]
fn two_increments_output() {
    assert_eq!(run_with_input("++.", ""), "\u{2}");
}

#[test]
fn transfer_loop_reenters_brackets() {
    // moves the count from cell 0 to cell 1 and leaves cell 0 at zero
    assert_eq!(run_with_input("+++++[->+<]>.<.", ""), "\u{5}\u{0}");
}

#[test]
fn no_symbols_no_output() {
    assert_eq!(run_with_input("a quiet text with nothing to run", ""), "");
}

#[test]
fn empty_source_no_output() {
    assert_eq!(run_with_input("", ""), "");
}

#[test]
fn unmatched_open_bracket_fails() {
    assert_eq!(parse("[+"), Err(TranslationError::UnmatchedBrackets));
}

#[test]
fn unmatched_close_bracket_fails() {
    assert_eq!(parse("+]"), Err(TranslationError::UnmatchedBrackets));
}

#[test]
fn translation_resolves_jump_targets() {
    let code = parse("+[-]").unwrap();
    assert_eq!(
        code,
        vec![
            Instruction::Increment,
            Instruction::LoopStart(3),
            Instruction::Decrement,
            Instruction::LoopEnd(1),
        ]
    );
}

#[test]
fn translation_indexes_symbols_only() {
    // jump targets count recognized symbols, not raw character offsets
    let plain = parse("+[-]").unwrap();
    let noisy = parse("x + y [ z - w ] q").unwrap();
    assert_eq!(plain, noisy);
}

#[test]
fn translate_twice_identical() {
    let src = "++[>+<-].";
    assert_eq!(parse(src).unwrap(), parse(src).unwrap());
}

#[test]
fn pointer_wraps_at_both_bounds() {
    // '<' at cell 0 lands on the last cell; '>' there lands back on cell 0,
    // where the first '+' left a 1 for the '-' to take back to 0
    assert_eq!(run_with_input("+<>-.", ""), "\u{0}");
    // after the left wrap the pointer is on the last cell, still zero
    assert_eq!(run_with_input("+<-.", ""), "\u{ff}");
}

#[test]
fn cell_wraps_below_zero() {
    assert_eq!(run_with_input("-.", ""), "\u{ff}");
}

#[test]
fn cell_wraps_above_255() {
    let src = format!("{}.", "+".repeat(256));
    assert_eq!(run_with_input(&src, ""), "\u{0}");
}

#[test]
fn exhausted_input_reads_zero() {
    assert_eq!(run_with_input(",.", ""), "\u{0}");
    assert_eq!(run_with_input(",.,.", "A"), "A\u{0}");
}

#[test]
fn input_takes_low_byte_of_character() {
    assert_eq!(run_with_input(",.", "\u{0101}"), "\u{1}");
}

#[test]
fn machine_steps_one_instruction_at_a_time() {
    let mut m = Machine::from_source("+.").unwrap();
    assert!(!m.halted());
    assert!(!m.needs_input());
    assert_eq!(m.step(0), StepEffect::Continue);
    assert_eq!(m.step(0), StepEffect::Emit(1));
    assert!(m.halted());
    assert_eq!(m.step(0), StepEffect::Halted);
}

#[test]
fn machine_asks_for_input() {
    let mut m = Machine::from_source(",.").unwrap();
    assert!(m.needs_input());
    assert_eq!(m.step(65), StepEffect::Continue);
    assert!(!m.needs_input());
    assert_eq!(m.step(0), StepEffect::Emit(65));
    assert!(m.halted());
}

#[test]
fn machine_rejects_unmatched_brackets() {
    assert_eq!(
        Machine::from_source("[[]").err(),
        Some(TranslationError::UnmatchedBrackets)
    );
}

#[test]
fn machine_drives_a_whole_run() {
    // the same loop the command-line front end runs, with buffered streams
    let mut m = Machine::from_source(",[.,]").unwrap();
    let mut input = "hello".bytes();
    let mut output = String::new();
    while !m.halted() {
        let mut byte: u8 = 0;
        if m.needs_input() {
            byte = input.next().unwrap_or(0);
        }
        match m.step(byte) {
            StepEffect::Emit(code) => output.push(code as char),
            _ => {},
        }
    }
    assert_eq!(output, "hello");
}

#[test]
fn machine_runs_nested_loops() {
    let src = "++++++++[>++++[>++>+++>+++>+<<<<-]>+>+>->>+[<]<-]>>.>---.+++++++..+++.>>.<-.<.+++.------.--------.>>+.>++.";
    let mut m = Machine::from_source(src).unwrap();
    let mut output = String::new();
    while !m.halted() {
        match m.step(0) {
            StepEffect::Emit(code) => output.push(code as char),
            _ => {},
        }
    }
    assert_eq!(output, "Hello World!\n");
}
