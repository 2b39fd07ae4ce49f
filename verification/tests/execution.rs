use brainfuck::token::tokenize;
use brainfuck::parser::parse_root;
use brainfuck::lower::BytecodeElement;
use brainfuck::lower::tree_walker;
use brainfuck::vm::RunStatus;
use brainfuck::vm::change_value;
use brainfuck::vm::interpret;
use brainfuck::vm::move_pointer;
use brainfuck::vm::negative_jump;
use brainfuck::vm::positive_jump;

const FUEL: u64 = 10_000_000;

fn compile(src: &str) -> Vec<BytecodeElement> {
    tree_walker(parse_root(tokenize(src)).unwrap())
}

fn run_program(src: &str, lines: Vec<Vec<u8>>) -> (Vec<u8>, RunStatus) {
    let r = interpret(compile(src), lines, FUEL);
    (r.output, r.status)
}

#[test]
fn cell_value_wraps_around() {
    assert_eq!(change_value(255, 1), 0);
    assert_eq!(change_value(0, -1), 255);
    assert_eq!(change_value(0, 1), 1);
    assert_eq!(change_value(128, -1), 127);
    assert_eq!(change_value(7, 0), 7);
}

#[test]
fn pointer_wraps_around() {
    assert_eq!(move_pointer(29999, 1), 0);
    assert_eq!(move_pointer(0, -1), 29999);
    assert_eq!(move_pointer(0, 1), 1);
    assert_eq!(move_pointer(15000, -1), 14999);
    assert_eq!(move_pointer(42, 0), 42);
}

#[test]
fn jumps_pick_the_next_position() {
    assert_eq!(positive_jump(0, 5, 11), 11);
    assert_eq!(positive_jump(3, 5, 11), 6);
    assert_eq!(negative_jump(0, 5, 11), 6);
    assert_eq!(negative_jump(3, 5, 11), 11);
}

#[test]
fn empty_code_halts_immediately() {
    let (out, status) = run_program("just a comment", vec![]);
    assert_eq!(out, Vec::<u8>::new());
    assert_eq!(status, RunStatus::Halted);
}

#[test]
fn prints_a_cell_set_by_a_loop() {
    // Sets a cell to 8 * 9 = 72 through a loop, then prints 'H'.
    let (out, status) = run_program("++++++++[>+++++++++<-]>.", vec![]);
    assert_eq!(out, b"H".to_vec());
    assert_eq!(status, RunStatus::Halted);
}

#[test]
fn hello_world_prints_its_cells_in_order() {
    let src = "++++++++[>++++[>++>+++>+++>+<<<<-]>+>+>->>+[<]<-]>>.>---.+++++++\
               ..+++.>>.<-.<.+++.------.--------.>>+.>++.";
    let (out, status) = run_program(src, vec![]);
    assert_eq!(out, b"Hello World!\n".to_vec());
    assert_eq!(status, RunStatus::Halted);
}

#[test]
fn wraparound_is_observable_in_a_program() {
    // A fresh cell decremented once prints 255.
    let (out, status) = run_program("-.", vec![]);
    assert_eq!(out, vec![255u8]);
    assert_eq!(status, RunStatus::Halted);
}

#[test]
fn echo_program_echoes_the_input_line() {
    let (out, status) = run_program(",.,.", vec![b"AB".to_vec()]);
    assert_eq!(out, b"AB".to_vec());
    assert_eq!(status, RunStatus::Halted);
}

#[test]
fn one_line_serves_many_reads() {
    let (out, status) = run_program(",.,.,.", vec![b"AB\n".to_vec()]);
    assert_eq!(out, b"AB\n".to_vec());
    assert_eq!(status, RunStatus::Halted);
}

#[test]
fn reading_with_no_input_starves() {
    let (out, status) = run_program(",", vec![]);
    assert_eq!(out, Vec::<u8>::new());
    assert_eq!(status, RunStatus::Starved);
}

#[test]
fn output_before_starving_is_kept() {
    let (out, status) = run_program("+.,", vec![]);
    assert_eq!(out, vec![1u8]);
    assert_eq!(status, RunStatus::Starved);
}

#[test]
fn invalid_input_lines_are_skipped() {
    let lines = vec![vec![200u8, 65u8], b"Z".to_vec()];
    let (out, status) = run_program(",.", lines);
    assert_eq!(out, b"Z".to_vec());
    assert_eq!(status, RunStatus::Halted);
}

#[test]
fn an_empty_first_valid_line_starves() {
    let lines = vec![vec![], b"A".to_vec()];
    let (out, status) = run_program(",.", lines);
    assert_eq!(out, Vec::<u8>::new());
    assert_eq!(status, RunStatus::Starved);
}

#[test]
fn an_endless_loop_runs_out_of_fuel() {
    let r = interpret(compile("+[]"), vec![], 1000);
    assert_eq!(r.output, Vec::<u8>::new());
    assert_eq!(r.status, RunStatus::OutOfFuel);
}

#[test]
fn zero_fuel_reports_out_of_fuel_when_work_remains() {
    let r = interpret(compile("+"), vec![], 0);
    assert_eq!(r.output, Vec::<u8>::new());
    assert_eq!(r.status, RunStatus::OutOfFuel);
}

#[test]
fn a_skipped_loop_is_not_entered() {
    // The cell is zero, so the loop body (which would print) is skipped.
    let (out, status) = run_program("[.]+.", vec![]);
    assert_eq!(out, vec![1u8]);
    assert_eq!(status, RunStatus::Halted);
}

#[test]
fn nested_loops_multiply() {
    // 2 outer runs, each adding 2 to the middle cell and then draining
    // it into the last cell two at a time: 2 * 2 * 2 = 8.
    let (out, status) = run_program("++[>++[>++<-]<-]>>.", vec![]);
    assert_eq!(out, vec![8u8]);
    assert_eq!(status, RunStatus::Halted);
}

#[test]
fn line_validity_is_single_byte_only() {
    assert!(brainfuck::vm::line_is_valid(&b"hello\n".to_vec()));
    assert!(brainfuck::vm::line_is_valid(&Vec::new()));
    assert!(!brainfuck::vm::line_is_valid(&vec![65u8, 200u8]));
}

#[test]
fn pointer_wraparound_reaches_the_last_cell() {
    // Moving left from cell 0 lands on cell 29999; set and print it.
    let (out, status) = run_program("<+++.", vec![]);
    assert_eq!(out, vec![3u8]);
    assert_eq!(status, RunStatus::Halted);
}
