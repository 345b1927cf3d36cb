use tapebrain::{
    build_jump_table, cell_from_line, chars_of, get_line_char, ArithPolicy, ExecError,
    Interpreter, Location, RunEnd, Step, TAPE_SIZE,
};

fn run_program(itp: &mut Interpreter, code: &str, input: &[u8]) -> (Vec<u8>, RunEnd) {
    let r = itp.run(code, &input.to_vec(), 100_000);
    (r.output, r.end)
}

#[test]
fn eight_times_eight_prints_64() {
    let mut itp = Interpreter::new();
    let (out, end) = run_program(&mut itp, "++++++++[>++++++++<-]>.", &[]);
    assert_eq!(out, vec![64u8]);
    assert_eq!(end, RunEnd::Done);
    assert_eq!(itp.cell(1), Some(64));
    assert_eq!(itp.cell(0), Some(0));
    assert_eq!(itp.cursor(), 1);
}

#[test]
fn input_byte_is_stored_and_echoed() {
    let mut itp = Interpreter::new();
    let (out, end) = run_program(&mut itp, ",.", &[65]);
    assert_eq!(end, RunEnd::Done);
    assert_eq!(itp.cell(0), Some(65));
    assert_eq!(out, vec![65u8]);
    assert_eq!(out[0] as char, 'A');
}

#[test]
fn lone_close_is_rejected_before_running() {
    let mut itp = Interpreter::new();
    let _ = run_program(&mut itp, "+++>++", &[]);
    let (out, end) = run_program(&mut itp, "+>]", &[]);
    assert_eq!(end, RunEnd::Fault(ExecError::UnmatchedClose { pos: 2 }));
    assert!(out.is_empty());
    assert_eq!(itp.cursor(), 1);
    assert_eq!(itp.cell(0), Some(3));
    assert_eq!(itp.cell(1), Some(2));

    let mut fresh = Interpreter::new();
    let (_, end) = run_program(&mut fresh, "]", &[]);
    assert_eq!(end, RunEnd::Fault(ExecError::UnmatchedClose { pos: 0 }));
    assert_eq!(fresh.cursor(), 0);
    assert_eq!(fresh.cell(0), Some(0));
}

#[test]
fn lone_open_is_rejected() {
    let mut itp = Interpreter::new();
    let (out, end) = run_program(&mut itp, "[", &[]);
    assert_eq!(end, RunEnd::Fault(ExecError::UnmatchedOpen));
    assert!(out.is_empty());
    assert_eq!(itp.cell(0), Some(0));
}

#[test]
fn move_left_from_start_fails() {
    let mut itp = Interpreter::new();
    let (_, end) = run_program(&mut itp, "<", &[]);
    assert_eq!(
        end,
        RunEnd::Fault(ExecError::CursorUnderflow(Location { cell: 0, pos: 0, line: 1, column: 1 }))
    );
    assert_eq!(itp.cursor(), 0);
}

#[test]
fn jump_table_pairs_both_ways() {
    let code = chars_of("[[]]a[]");
    let t = build_jump_table(&code).unwrap();
    assert_eq!(t, vec![Some(3), Some(2), Some(1), Some(0), None, Some(6), Some(5)]);
    for x in 0..code.len() {
        if let Some(y) = t[x] {
            assert_eq!(t[y], Some(x));
        }
    }
    assert_eq!(build_jump_table(&chars_of("no loops")).unwrap(), vec![None; 8]);
    assert_eq!(build_jump_table(&chars_of("")).unwrap(), Vec::<Option<usize>>::new());
}

#[test]
fn unmatched_close_reports_its_position() {
    assert_eq!(build_jump_table(&chars_of("[]]")), Err(ExecError::UnmatchedClose { pos: 2 }));
    assert_eq!(build_jump_table(&chars_of("]]")), Err(ExecError::UnmatchedClose { pos: 0 }));
    assert_eq!(build_jump_table(&chars_of("+[-]-][")), Err(ExecError::UnmatchedClose { pos: 5 }));
}

#[test]
fn trailing_open_is_unmatched() {
    assert_eq!(build_jump_table(&chars_of("[][")), Err(ExecError::UnmatchedOpen));
    assert_eq!(build_jump_table(&chars_of("[[]")), Err(ExecError::UnmatchedOpen));
}

#[test]
fn cursor_stops_at_tape_end() {
    let mut itp = Interpreter::new();
    let right = ">".repeat(TAPE_SIZE - 1);
    let (_, end) = run_program(&mut itp, &right, &[]);
    assert_eq!(end, RunEnd::Done);
    let (_, end) = run_program(&mut itp, ">", &[]);
    assert!(matches!(end, RunEnd::Fault(ExecError::CursorOverflow(_))));
    assert_eq!(itp.cursor(), TAPE_SIZE - 1);
    let (_, end) = run_program(&mut itp, "+>", &[]);
    assert_eq!(
        end,
        RunEnd::Fault(ExecError::CursorOverflow(Location {
            cell: TAPE_SIZE - 1,
            pos: 1,
            line: 1,
            column: 2
        }))
    );
    assert_eq!(itp.cursor(), TAPE_SIZE - 1);
    assert_eq!(itp.cell(TAPE_SIZE - 1), Some(1));
    assert_eq!(itp.cell(TAPE_SIZE), None);
}

#[test]
fn wrapping_cells() {
    let mut itp = Interpreter::new();
    assert_eq!(itp.policy(), ArithPolicy::Wrap);
    let (_, end) = run_program(&mut itp, "-", &[]);
    assert_eq!(end, RunEnd::Done);
    assert_eq!(itp.cell(0), Some(255));
    let (_, end) = run_program(&mut itp, "+", &[]);
    assert_eq!(end, RunEnd::Done);
    assert_eq!(itp.cell(0), Some(0));
}

#[test]
fn fail_fast_cells() {
    let mut itp = Interpreter::with_policy(ArithPolicy::FailFast);
    let (_, end) = run_program(&mut itp, "-", &[]);
    assert_eq!(
        end,
        RunEnd::Fault(ExecError::CellUnderflow(Location { cell: 0, pos: 0, line: 1, column: 1 }))
    );
    assert_eq!(itp.cell(0), Some(0));
    let up = "+".repeat(256);
    let (_, end) = run_program(&mut itp, &up, &[]);
    assert_eq!(
        end,
        RunEnd::Fault(ExecError::CellOverflow(Location { cell: 0, pos: 255, line: 1, column: 256 }))
    );
    assert_eq!(itp.cell(0), Some(255));
}

#[test]
fn nonzero_empty_loop_runs_out_of_fuel() {
    let mut itp = Interpreter::new();
    let r = itp.run("+[]", &vec![], 1000);
    assert_eq!(r.end, RunEnd::OutOfFuel);
    assert!(r.output.is_empty());
    assert_eq!(itp.cell(0), Some(1));
    let r = itp.run("[-]", &vec![], 1000);
    assert_eq!(r.end, RunEnd::Done);
    assert_eq!(itp.cell(0), Some(0));
}

#[test]
fn error_location_counts_lines() {
    let mut itp = Interpreter::new();
    let (_, end) = run_program(&mut itp, "+\n <", &[]);
    assert_eq!(
        end,
        RunEnd::Fault(ExecError::CursorUnderflow(Location { cell: 0, pos: 3, line: 2, column: 2 }))
    );
}

#[test]
fn line_and_column_of_positions() {
    assert_eq!(get_line_char("ab\ncd", 0), Some((1, 1)));
    assert_eq!(get_line_char("ab\ncd", 2), Some((1, 3)));
    assert_eq!(get_line_char("ab\ncd", 4), Some((2, 2)));
    assert_eq!(get_line_char("ab\ncd", 5), None);
    assert_eq!(get_line_char("\n\n+", 2), Some((3, 1)));
    assert_eq!(get_line_char("", 0), None);
}

#[test]
fn input_runs_dry() {
    let mut itp = Interpreter::new();
    let (out, end) = run_program(&mut itp, "+.,.", &[]);
    assert_eq!(out, vec![1u8]);
    assert_eq!(
        end,
        RunEnd::Fault(ExecError::InputFailure(Location { cell: 0, pos: 2, line: 1, column: 3 }))
    );
    assert_eq!(itp.cell(0), Some(1));
}

#[test]
fn state_persists_between_runs() {
    let mut itp = Interpreter::new();
    let _ = run_program(&mut itp, "++>+++", &[]);
    let (out, end) = run_program(&mut itp, ".<.", &[]);
    assert_eq!(end, RunEnd::Done);
    assert_eq!(out, vec![3u8, 2u8]);
}

#[test]
fn line_framing_takes_first_byte() {
    assert_eq!(cell_from_line(&vec![]), 0);
    assert_eq!(cell_from_line(&b"AB\n".to_vec()), 65);
    assert_eq!(cell_from_line(&b"\n".to_vec()), 10);
}

#[test]
fn characters_count_as_single_positions() {
    let code = chars_of("é[ü]");
    assert_eq!(code.len(), 4);
    assert_eq!(build_jump_table(&code).unwrap(), vec![None, Some(3), None, Some(1)]);
    assert_eq!(get_line_char("é\nü<", 3), Some((2, 2)));
    let mut itp = Interpreter::new();
    let (_, end) = run_program(&mut itp, "é]", &[]);
    assert_eq!(end, RunEnd::Fault(ExecError::UnmatchedClose { pos: 1 }));
}

#[test]
fn stepping_one_instruction_at_a_time() {
    let code = chars_of("+[.,]");
    let table = build_jump_table(&code).unwrap();
    let mut itp = Interpreter::new();
    assert_eq!(itp.step(&code, &table, 0), Step::Next(1));
    assert_eq!(itp.step(&code, &table, 1), Step::Next(2));
    assert_eq!(itp.step(&code, &table, 2), Step::Output(1, 3));
    assert_eq!(itp.step(&code, &table, 3), Step::NeedInput);
    assert_eq!(itp.accept_input(&code, 3, Some(0)), Ok(4));
    assert_eq!(itp.step(&code, &table, 4), Step::Next(5));
    assert_eq!(itp.step(&code, &table, 5), Step::Halt);
    itp.accept_input(&code, 3, Some(7)).unwrap();
    assert_eq!(itp.step(&code, &table, 4), Step::Next(2));
    assert_eq!(
        itp.accept_input(&code, 3, None),
        Err(ExecError::InputFailure(Location { cell: 0, pos: 3, line: 1, column: 4 }))
    );
    let mut zero = Interpreter::new();
    assert_eq!(zero.step(&code, &table, 1), Step::Next(5));
}
