use bf_interp::interpreter::{Event, Interpreter, Status, MEM_SIZE};
use bf_interp::parser::{Cmd, Op, Parser};

const FUEL: usize = 1_000_000;

fn run(src: &str, input: &[u8]) -> (Vec<u8>, Status) {
    let cmds = Parser::from_bytes(&src.as_bytes().to_vec()).parse_all().unwrap();
    Interpreter::new().run_on_input(&cmds, &input.to_vec(), FUEL)
}

fn cmd(operator: Op, operand: usize) -> Cmd {
    Cmd { operator, operand }
}

#[test]
fn echo_one_byte() {
    assert_eq!(run(",.", b"a"), (b"a".to_vec(), Status::Finished));
}

#[test]
fn increment_then_output() {
    assert_eq!(run("+.", b""), (vec![1], Status::Finished));
}

#[test]
fn increment_decrement_output() {
    assert_eq!(run("+-.", b""), (vec![0], Status::Finished));
}

#[test]
fn underflow_is_not_ascii() {
    assert_eq!(run("-.", b""), (vec![], Status::InvalidOutputByte(255)));
}

#[test]
fn underflow_wraps_to_255() {
    let cmds = vec![cmd(Op::Sub, 1)];
    let mut it = Interpreter::new();
    assert_eq!(it.step(&cmds, None), Event::Ran);
    assert_eq!(it.current_cell(), 255);
    let out = vec![cmd(Op::Sub, 1), cmd(Op::Out, 1)];
    let mut it2 = Interpreter::new();
    assert_eq!(it2.run_on_input(&out, &vec![], 10), (vec![], Status::InvalidOutputByte(255)));
}

#[test]
fn multiply_loop() {
    assert_eq!(run("+++[>++<-].>.", b""), (vec![0, 6], Status::Finished));
}

#[test]
fn loop_driven_echo() {
    assert_eq!(run("++++[>,.<-]", b"bruh"), (b"bruh".to_vec(), Status::Finished));
}

fn cell_after(src: &str) -> u8 {
    let cmds = Parser::from_bytes(&src.as_bytes().to_vec()).parse_all().unwrap();
    let mut it = Interpreter::new();
    let (_, status) = it.run_on_input(&cmds, &vec![], FUEL);
    assert_eq!(status, Status::Finished);
    it.current_cell()
}

#[test]
fn increments_then_decrement_wrap() {
    for n in 0..256usize {
        let src = format!("{}-", "+".repeat(n));
        assert_eq!(cell_after(&src) as usize, (n + 255) % 256);
    }
    assert_eq!(cell_after("-"), 255);
}

#[test]
fn decrements_then_increment_wrap() {
    for n in 0..256usize {
        let src = format!("{}+", "-".repeat(n));
        assert_eq!(cell_after(&src) as usize, (256 - n + 1) % 256);
    }
}

#[test]
fn add_count_above_256_wraps() {
    let cmds = vec![cmd(Op::Add, 256 * 3 + 65), cmd(Op::Out, 1)];
    assert_eq!(Interpreter::new().run_on_input(&cmds, &vec![], 10), (b"A".to_vec(), Status::Finished));
}

#[test]
fn right_then_left_returns_home() {
    for n in [0usize, 1, 7, MEM_SIZE - 1, MEM_SIZE, MEM_SIZE + 5, 3 * MEM_SIZE + 11] {
        let cmds = vec![
            cmd(Op::Add, 9),
            cmd(Op::Right, n),
            cmd(Op::Left, n),
            cmd(Op::Out, 1),
        ];
        assert_eq!(Interpreter::new().run_on_input(&cmds, &vec![], 10), (vec![9], Status::Finished));
    }
}

#[test]
fn left_of_zero_wraps_to_last_cell() {
    let cmds = vec![
        cmd(Op::Left, 1),
        cmd(Op::Add, 5),
        cmd(Op::Right, MEM_SIZE - 1),
        cmd(Op::Out, 1),
        cmd(Op::Left, MEM_SIZE - 1),
        cmd(Op::Out, 1),
    ];
    assert_eq!(Interpreter::new().run_on_input(&cmds, &vec![], 10), (vec![0, 5], Status::Finished));
}

#[test]
fn right_past_end_wraps_to_zero() {
    let cmds = vec![cmd(Op::Add, 7), cmd(Op::Right, MEM_SIZE), cmd(Op::Out, 1)];
    assert_eq!(Interpreter::new().run_on_input(&cmds, &vec![], 10), (vec![7], Status::Finished));
}

#[test]
fn clear_loop_runs_to_zero() {
    for c in [1usize, 2, 100, 255] {
        let src = format!("{}[-].", "+".repeat(c));
        assert_eq!(run(&src, b""), (vec![0], Status::Finished));
        let cmds = vec![
            cmd(Op::Add, c),
            cmd(Op::JmpZero, 4),
            cmd(Op::Sub, 1),
            cmd(Op::JmpNonZero, 2),
        ];
        let fuel = 1 + 2 * c + 2;
        let mut it = Interpreter::new();
        assert_eq!(it.run_on_input(&cmds, &vec![], fuel), (vec![], Status::Finished));
        assert_eq!(it.current_cell(), 0);
        let mut short = Interpreter::new();
        assert_eq!(short.run_on_input(&cmds, &vec![], fuel - 1), (vec![], Status::OutOfFuel));
    }
}

#[test]
fn clear_loop_skips_body_on_zero() {
    let (out, status) = run("[-+++].", b"");
    assert_eq!((out, status), (vec![0], Status::Finished));
    let cmds = vec![cmd(Op::JmpZero, 3), cmd(Op::Sub, 1), cmd(Op::JmpNonZero, 1)];
    assert_eq!(Interpreter::new().run_on_input(&cmds, &vec![], 2), (vec![], Status::Finished));
}

#[test]
fn read_keeps_last_byte() {
    assert_eq!(run(",,,.", b"xyz"), (b"z".to_vec(), Status::Finished));
    assert_eq!(run(",,.,.", b"abcd"), (b"bc".to_vec(), Status::Finished));
}

#[test]
fn short_read_stores_zero() {
    assert_eq!(run("+,.", b""), (vec![0], Status::Finished));
    assert_eq!(run(",,,.", b"ab"), (vec![0], Status::Finished));
    assert_eq!(run(",,.,.", b"ab"), (vec![b'b', 0], Status::Finished));
}

#[test]
fn output_repeats_count() {
    assert_eq!(run(",...", b"q"), (b"qqq".to_vec(), Status::Finished));
}

#[test]
fn infinite_loop_runs_out_of_fuel() {
    let cmds = Parser::from_bytes(&b"+[]".to_vec()).parse_all().unwrap();
    let (out, status) = Interpreter::new().run_on_input(&cmds, &vec![], 1000);
    assert!(out.is_empty());
    assert_eq!(status, Status::OutOfFuel);
}

#[test]
fn step_reports_each_event() {
    let cmds = Parser::from_bytes(&b",.".to_vec()).parse_all().unwrap();
    let mut it = Interpreter::new();
    assert_eq!(it.input_wanted(&cmds), Some(1));
    assert_eq!(it.step(&cmds, Some(b'k')), Event::Ran);
    assert_eq!(it.input_wanted(&cmds), None);
    assert_eq!(it.step(&cmds, None), Event::Output(b'k', 1));
    assert_eq!(it.step(&cmds, None), Event::Halted);
    assert_eq!(it.step(&cmds, None), Event::Halted);
}

#[test]
fn step_rejects_non_ascii_and_stays() {
    let cmds = vec![cmd(Op::Add, 200), cmd(Op::Out, 2)];
    let mut it = Interpreter::new();
    assert_eq!(it.step(&cmds, None), Event::Ran);
    assert_eq!(it.step(&cmds, None), Event::InvalidOutputByte(200));
    assert_eq!(it.step(&cmds, None), Event::InvalidOutputByte(200));
}
