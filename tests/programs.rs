use brainfuck_interpreter::{BrainfuckInstruction, BrainfuckProgram, Error, Halt, Tape, TapeData};

const HELLO: &str = "++++++++[>++++[>++>+++>+++>+<<<<-]>+>+>->>+[<]<-]>>.>---.+++++++..+++.>>.<-.<.+++.------.--------.>>+.>++.";

fn run_collect<T: Tape<Data = u8>>(p: &mut BrainfuckProgram<T>, inputs: &[u8]) -> (Option<Halt>, Vec<u8>) {
    let mut out: Vec<u8> = Vec::new();
    let mut pos = 0usize;
    let r = p.run(&mut |d: u8| out.push(d), &mut || {
        let v = if pos < inputs.len() { inputs[pos] } else { 0 };
        pos += 1;
        v
    });
    (r, out)
}

#[test]
fn missing_closing_brace_position() {
    match BrainfuckProgram::compile("[", Vec::<u8>::new()) {
        Err(Error::MissingClosingBrace(span)) => {
            assert_eq!(span.get_line_character_number(), (&0, &1));
            assert_eq!(span.get_text(), "[");
        }
        _ => panic!("expected a missing closing brace"),
    }
}

#[test]
fn missing_opening_brace_position() {
    match BrainfuckProgram::compile("]", Vec::<u8>::new()) {
        Err(Error::MissingOpeningBrace(span)) => {
            assert_eq!(span.get_line_character_number(), (&0, &1));
        }
        _ => panic!("expected a missing opening brace"),
    }
}

#[test]
fn error_reports_first_unmatched_with_line_and_column() {
    let src = "+ +\nab ]\n[";
    match BrainfuckProgram::compile(src, Vec::<u8>::new()) {
        Err(Error::MissingOpeningBrace(span)) => {
            assert_eq!(span.get_line_character_number(), (&1, &4));
            assert_eq!(span.get_text(), src);
        }
        _ => panic!("expected a missing opening brace"),
    }
    match BrainfuckProgram::compile("++\r\n  [+", Vec::<u8>::new()) {
        Err(Error::MissingClosingBrace(span)) => {
            assert_eq!(span.get_line_character_number(), (&1, &3));
        }
        _ => panic!("expected a missing closing brace"),
    }
}

#[test]
fn empty_program_halts_without_io() {
    let mut p = BrainfuckProgram::compile("", Vec::<u8>::new()).ok().unwrap();
    assert!(p.instructions.is_empty());
    let mut outputs = 0;
    let mut reads = 0;
    let r = p.run(&mut |_d: u8| outputs += 1, &mut || {
        reads += 1;
        0u8
    });
    assert_eq!(r, Some(Halt::Finished));
    assert_eq!(outputs, 0);
    assert_eq!(reads, 0);
}

#[test]
fn other_characters_are_ignored() {
    let a = BrainfuckProgram::compile("a[b+c]d", Vec::<u8>::new()).ok().unwrap();
    let b = BrainfuckProgram::compile("[+]", Vec::<u8>::new()).ok().unwrap();
    assert_eq!(a.instructions, b.instructions);
    assert_eq!(
        b.instructions,
        vec![
            BrainfuckInstruction::JumpForward(3),
            BrainfuckInstruction::IncreaseData,
            BrainfuckInstruction::JumpBackwards(1),
        ]
    );
}

#[test]
fn nested_offsets_round_trip() {
    let p = BrainfuckProgram::compile("[[-]>]", Vec::<u8>::new()).ok().unwrap();
    assert_eq!(
        p.instructions,
        vec![
            BrainfuckInstruction::JumpForward(6),
            BrainfuckInstruction::JumpForward(3),
            BrainfuckInstruction::DecreaseData,
            BrainfuckInstruction::JumpBackwards(1),
            BrainfuckInstruction::IncrementDataPointer,
            BrainfuckInstruction::JumpBackwards(4),
        ]
    );
    for (i, ins) in p.instructions.iter().enumerate() {
        if let BrainfuckInstruction::JumpForward(o) = ins {
            let close = i + o - 1;
            match p.instructions[close] {
                BrainfuckInstruction::JumpBackwards(b) => assert_eq!(close - b, i + 1),
                _ => panic!("forward jump does not land past a closing bracket"),
            }
        }
    }
}

#[test]
fn growing_tape_loop_never_halts() {
    let mut p = BrainfuckProgram::compile("+[>+]", Vec::<u8>::new()).ok().unwrap();
    for _ in 0..10_000 {
        assert_eq!(p.step(&mut |_d: u8| {}, &mut || 0u8), Ok(()));
    }
    assert!(p.data_pointer > 1000);
}

#[test]
fn hello_world_output() {
    let mut p = BrainfuckProgram::compile(HELLO, Vec::<u8>::new()).ok().unwrap();
    let (r, out) = run_collect(&mut p, &[]);
    assert_eq!(r, Some(Halt::Finished));
    assert_eq!(out, b"Hello World!\n".to_vec());
}

#[test]
fn reset_restores_and_reruns() {
    let mut p = BrainfuckProgram::compile(HELLO, [0u8; 64]).ok().unwrap();
    let before = p.instructions.clone();
    for _ in 0..200 {
        p.step(&mut |_d: u8| {}, &mut || 0u8).unwrap();
    }
    assert!(p.instruction_pointer > 0);
    p.reset();
    assert_eq!(p.instruction_pointer, 0);
    assert_eq!(p.data_pointer, 0);
    assert!(p.tape.iter().all(|c| *c == 0));
    assert_eq!(p.instructions, before);
    let (_, out) = run_collect(&mut p, &[]);
    assert_eq!(out, b"Hello World!\n".to_vec());
}

#[test]
fn rerun_after_reset_is_identical() {
    let mut p = BrainfuckProgram::compile(",[.-],.", Vec::<u8>::new()).ok().unwrap();
    let (_, first) = run_collect(&mut p, &[3, 9]);
    p.reset();
    let (_, second) = run_collect(&mut p, &[3, 9]);
    assert_eq!(first, vec![3, 2, 1, 9]);
    assert_eq!(first, second);
}

#[test]
fn input_overwrites_cell_and_output_copies_it() {
    let mut p = BrainfuckProgram::compile(",+.", Vec::<u8>::new()).ok().unwrap();
    let (r, out) = run_collect(&mut p, &[41]);
    assert_eq!(r, Some(Halt::Finished));
    assert_eq!(out, vec![42]);
}

#[test]
fn cells_wrap_around() {
    let mut p = BrainfuckProgram::compile("-.+.", Vec::<u8>::new()).ok().unwrap();
    let (_, out) = run_collect(&mut p, &[]);
    assert_eq!(out, vec![255, 0]);
}

#[test]
fn fixed_tape_out_of_range() {
    let mut p = BrainfuckProgram::compile(">>+", [0u8; 2]).ok().unwrap();
    assert_eq!(p.step(&mut |_d: u8| {}, &mut || 0u8), Ok(()));
    assert_eq!(p.step(&mut |_d: u8| {}, &mut || 0u8), Ok(()));
    assert_eq!(p.data_pointer, 2);
    assert_eq!(p.step(&mut |_d: u8| {}, &mut || 0u8), Err(Halt::DataPointerOutOfRange));
    assert_eq!(p.instruction_pointer, 2);
    let (r, _) = run_collect(&mut p, &[]);
    assert_eq!(r, Some(Halt::DataPointerOutOfRange));
}

#[test]
fn moving_left_of_zero_faults_on_next_access() {
    let mut p = BrainfuckProgram::compile("<+", Vec::<u8>::new()).ok().unwrap();
    let (r, _) = run_collect(&mut p, &[]);
    assert_eq!(r, Some(Halt::DataPointerOutOfRange));
    assert_eq!(p.data_pointer, usize::MAX);
    assert_eq!(p.instruction_pointer, 1);
}

#[test]
fn halted_step_reports_finished() {
    let mut p = BrainfuckProgram::compile("+", Vec::<u8>::new()).ok().unwrap();
    assert_eq!(p.step(&mut |_d: u8| {}, &mut || 0u8), Ok(()));
    assert_eq!(p.step(&mut |_d: u8| {}, &mut || 0u8), Err(Halt::Finished));
    assert_eq!(p.instruction_pointer, 1);
}

#[test]
fn tapes_and_cells() {
    let mut v: Vec<u8> = Vec::new();
    assert_eq!(v.get_data_at(5), Some(&0));
    assert_eq!(v.len(), 6);
    *v.get_data_at_mut(2).unwrap() = 9;
    assert_eq!(v.get_data_at(2), Some(&9));
    v.reset();
    assert!(v.iter().all(|c| *c == 0));
    let mut a = [1u8; 3];
    assert_eq!(a.get_data_at(3), None);
    assert!(a.get_data_at_mut(3).is_none());
    a.reset();
    assert_eq!(a, [0u8; 3]);
    let mut c = 255u8;
    c.increase();
    assert_eq!(c, 0);
    c.decrease();
    assert_eq!(c, 255);
    assert!(u8::zero().is_zero());
}

#[test]
fn render_points_at_offending_bracket() {
    match BrainfuckProgram::compile("+\n  [", Vec::<u8>::new()) {
        Err(Error::MissingClosingBrace(span)) => {
            assert_eq!(span.render(), Some("  [\n  ^".to_string()));
        }
        _ => panic!("expected a missing closing brace"),
    }
    match BrainfuckProgram::compile("ab\r\n ]x", Vec::<u8>::new()) {
        Err(Error::MissingOpeningBrace(span)) => {
            assert_eq!(span.get_line_character_number(), (&1, &2));
            assert_eq!(span.render(), Some(" ]x\n ^".to_string()));
        }
        _ => panic!("expected a missing opening brace"),
    }
    match BrainfuckProgram::compile("[[..,,>><<]", Vec::<u8>::new()) {
        Err(Error::MissingClosingBrace(span)) => {
            assert_eq!(span.get_line_character_number(), (&0, &1));
            assert_eq!(span.render(), Some("[[..,,>><<]\n^".to_string()));
        }
        _ => panic!("expected a missing closing brace"),
    }
}

#[test]
fn slice_tape_runs_and_bounds() {
    let mut cells = [0u8; 3];
    let mut p = BrainfuckProgram::compile("+>++>+++.>", &mut cells[..]).ok().unwrap();
    let (r, out) = run_collect(&mut p, &[]);
    assert_eq!(out, vec![3]);
    assert_eq!(r, Some(Halt::Finished));
    assert_eq!(p.instruction_pointer, 10);
    assert_eq!(p.data_pointer, 3);
    p.instruction_pointer = 1;
    assert_eq!(p.step(&mut |_d: u8| {}, &mut || 0u8), Ok(()));
    assert_eq!(p.data_pointer, 4);
    assert_eq!(p.step(&mut |_d: u8| {}, &mut || 0u8), Err(Halt::DataPointerOutOfRange));
    assert_eq!(p.instruction_pointer, 2);
    drop(p);
    assert_eq!(cells, [1, 2, 3]);
}

#[test]
fn halt_is_checked_before_the_tape() {
    let mut p = BrainfuckProgram::compile(">", [0u8; 1]).ok().unwrap();
    let (r, _) = run_collect(&mut p, &[]);
    assert_eq!(r, Some(Halt::Finished));
    assert_eq!(p.data_pointer, 1);
    assert_eq!(p.step(&mut |_d: u8| {}, &mut || 0u8), Err(Halt::Finished));
}

#[test]
fn moves_past_a_fixed_tape_are_unchecked() {
    let mut p = BrainfuckProgram::compile(">><<+", [0u8; 1]).ok().unwrap();
    let (r, _) = run_collect(&mut p, &[]);
    assert_eq!(r, Some(Halt::Finished));
    assert_eq!(p.data_pointer, 0);
    assert_eq!(p.tape, [1u8]);
}

#[test]
fn growing_tape_holds_exactly_the_touched_cells() {
    let mut p = BrainfuckProgram::compile("+[>+]", Vec::<u8>::new()).ok().unwrap();
    for _ in 0..5 {
        assert_eq!(p.step(&mut |_d: u8| {}, &mut || 0u8), Ok(()));
    }
    assert_eq!(p.instruction_pointer, 2);
    assert_eq!(p.data_pointer, 1);
    assert_eq!(p.tape, vec![1u8, 1u8]);
    let mut q = BrainfuckProgram::compile("+>+", Vec::<u8>::new()).ok().unwrap();
    for _ in 0..3 {
        assert_eq!(q.step(&mut |_d: u8| {}, &mut || 0u8), Ok(()));
    }
    assert_eq!(q.tape, vec![1u8, 1u8]);
    q.reset();
    assert_eq!(q.tape, vec![0u8, 0u8]);
    assert_eq!(q.instruction_pointer, 0);
    assert_eq!(q.data_pointer, 0);
}
