use rust_whitespace::Instruction;
use rust_whitespace::interpreter::Interpreter;
use rust_whitespace::interpreter::LoadError;
use rust_whitespace::interpreter::RuntimeError;
use rust_whitespace::parser::encode_number;
use rust_whitespace::parser::parse;

#[test]
fn test_run_hello_world() {
    let codes: [i64; 12] = [9, 83, 27, 27, 123, 13, 1, 119, 123, 39, 27, 19];
    let mut source: Vec<u8> = Vec::new();
    for c in codes.iter() {
        source.push(32);
        source.push(32);
        source.extend_from_slice(&encode_number(*c));
        source.extend_from_slice(&[9, 10, 32, 32]);
    }
    source.extend_from_slice(&[10, 10, 10]);
    let program = parse(&source).unwrap();
    let mut interpreter = Interpreter::new(program, Vec::new()).unwrap();
    while !interpreter.is_halted() {
        let _ = interpreter.step();
    }
    assert_eq!(None, interpreter.error());
    let expected: Vec<u8> = vec![9, 83, 27, 27, 123, 13, 1, 119, 123, 39, 27, 19];
    assert_eq!(&expected, interpreter.output());
}

#[test]
fn test_addition() {
    let program = vec![
        Instruction::PushNrOnStack(3),
        Instruction::PushNrOnStack(4),
        Instruction::Addition,
        Instruction::End,
    ];
    let mut vm = Interpreter::new(program, Vec::new()).unwrap();
    while !vm.is_halted() {
        let _ = vm.step();
    }
    assert_eq!(None, vm.error());
    assert_eq!(&vec![7i64], vm.stack());
}

#[test]
fn test_division_by_zero() {
    let program = vec![
        Instruction::PushNrOnStack(7),
        Instruction::PushNrOnStack(0),
        Instruction::IntegerDivision,
        Instruction::End,
    ];
    let mut vm = Interpreter::new(program, Vec::new()).unwrap();
    while !vm.is_halted() {
        let _ = vm.step();
    }
    assert_eq!(Some(RuntimeError::DivisionByZero), vm.error());
}

#[test]
fn test_truncating_division_and_modulo() {
    let program = vec![
        Instruction::PushNrOnStack(-7),
        Instruction::PushNrOnStack(2),
        Instruction::IntegerDivision,
        Instruction::PushNrOnStack(-7),
        Instruction::PushNrOnStack(2),
        Instruction::Modulo,
        Instruction::End,
    ];
    let mut vm = Interpreter::new(program, Vec::new()).unwrap();
    while !vm.is_halted() {
        let _ = vm.step();
    }
    assert_eq!(None, vm.error());
    assert_eq!(&vec![-3i64, -1], vm.stack());
}

#[test]
fn test_heap_round_trip() {
    // store 99 at address 5, then retrieve address 5
    let program = vec![
        Instruction::PushNrOnStack(5),
        Instruction::PushNrOnStack(99),
        Instruction::StoreInHeap,
        Instruction::PushNrOnStack(5),
        Instruction::RetreiveFomHeap,
        Instruction::End,
    ];
    let mut vm = Interpreter::new(program, Vec::new()).unwrap();
    while !vm.is_halted() {
        let _ = vm.step();
    }
    assert_eq!(None, vm.error());
    assert_eq!(&vec![99i64], vm.stack());
}

#[test]
fn test_retrieve_unset_address_is_zero() {
    let program = vec![
        Instruction::PushNrOnStack(123),
        Instruction::RetreiveFomHeap,
        Instruction::End,
    ];
    let mut vm = Interpreter::new(program, Vec::new()).unwrap();
    while !vm.is_halted() {
        let _ = vm.step();
    }
    assert_eq!(None, vm.error());
    assert_eq!(&vec![0i64], vm.stack());
}

#[test]
fn test_forward_label_resolution() {
    // the jump lands on a mark that only appears later in the program
    let program = vec![
        Instruction::Jmp(7),
        Instruction::PushNrOnStack(1),
        Instruction::MarkLocation(7),
        Instruction::End,
    ];
    let mut vm = Interpreter::new(program, Vec::new()).unwrap();
    while !vm.is_halted() {
        let _ = vm.step();
    }
    assert_eq!(None, vm.error());
    assert!(vm.stack().is_empty());
}

#[test]
fn test_unknown_label() {
    let program = vec![Instruction::CallSubroutine(42), Instruction::End];
    let mut vm = Interpreter::new(program, Vec::new()).unwrap();
    while !vm.is_halted() {
        let _ = vm.step();
    }
    assert_eq!(Some(RuntimeError::UnknownLabel), vm.error());

    let program2 = vec![Instruction::Jmp(42), Instruction::End];
    let mut vm2 = Interpreter::new(program2, Vec::new()).unwrap();
    while !vm2.is_halted() {
        let _ = vm2.step();
    }
    assert_eq!(Some(RuntimeError::UnknownLabel), vm2.error());
}

#[test]
fn test_call_return_symmetry() {
    // the subroutine pushes 1, then execution resumes after the call and
    // pushes 2
    let program = vec![
        Instruction::CallSubroutine(3),
        Instruction::PushNrOnStack(2),
        Instruction::End,
        Instruction::MarkLocation(3),
        Instruction::PushNrOnStack(1),
        Instruction::Ret,
    ];
    let mut vm = Interpreter::new(program, Vec::new()).unwrap();
    while !vm.is_halted() {
        let _ = vm.step();
    }
    assert_eq!(None, vm.error());
    assert_eq!(&vec![1i64, 2], vm.stack());
}

#[test]
fn test_bare_return_underflows_call_stack() {
    let program = vec![Instruction::Ret, Instruction::End];
    let mut vm = Interpreter::new(program, Vec::new()).unwrap();
    while !vm.is_halted() {
        let _ = vm.step();
    }
    assert_eq!(Some(RuntimeError::CallStackUnderflow), vm.error());
}

#[test]
fn test_duplicate_label_rejected_at_load() {
    let program = vec![
        Instruction::MarkLocation(5),
        Instruction::MarkLocation(5),
        Instruction::End,
    ];
    match Interpreter::new(program, Vec::new()) {
        Err(e) => assert_eq!(LoadError::DuplicateLabel, e),
        Ok(_) => panic!("a duplicate label must be rejected"),
    }
}

#[test]
fn test_stack_underflow() {
    let program = vec![Instruction::Addition, Instruction::End];
    let mut vm = Interpreter::new(program, Vec::new()).unwrap();
    while !vm.is_halted() {
        let _ = vm.step();
    }
    assert_eq!(Some(RuntimeError::StackUnderflow), vm.error());
}

#[test]
fn test_program_overrun_without_end() {
    let program = vec![Instruction::PushNrOnStack(1)];
    let mut vm = Interpreter::new(program, Vec::new()).unwrap();
    while !vm.is_halted() {
        let _ = vm.step();
    }
    assert_eq!(Some(RuntimeError::ProgramOverrun), vm.error());
}

#[test]
fn test_invalid_character_code() {
    let program = vec![
        Instruction::PushNrOnStack(256),
        Instruction::OutputChar,
        Instruction::End,
    ];
    let mut vm = Interpreter::new(program, Vec::new()).unwrap();
    while !vm.is_halted() {
        let _ = vm.step();
    }
    assert_eq!(Some(RuntimeError::InvalidCharacterCode), vm.error());
}

#[test]
fn test_output_char_boundary() {
    let program = vec![
        Instruction::PushNrOnStack(0),
        Instruction::OutputChar,
        Instruction::PushNrOnStack(255),
        Instruction::OutputChar,
        Instruction::End,
    ];
    let mut vm = Interpreter::new(program, Vec::new()).unwrap();
    while !vm.is_halted() {
        let _ = vm.step();
    }
    assert_eq!(None, vm.error());
    assert_eq!(&vec![0u8, 255], vm.output());
}

#[test]
fn test_output_number() {
    let program = vec![
        Instruction::PushNrOnStack(-45),
        Instruction::OutputNum,
        Instruction::PushNrOnStack(0),
        Instruction::OutputNum,
        Instruction::PushNrOnStack(10070),
        Instruction::OutputNum,
        Instruction::End,
    ];
    let mut vm = Interpreter::new(program, Vec::new()).unwrap();
    while !vm.is_halted() {
        let _ = vm.step();
    }
    assert_eq!(None, vm.error());
    assert_eq!("-45010070".as_bytes(), vm.output().as_slice());
}

#[test]
fn test_read_char_and_end_of_input() {
    let program = vec![
        Instruction::ReadChar,
        Instruction::ReadChar,
        Instruction::End,
    ];
    let mut vm = Interpreter::new(program, vec![65u8]).unwrap();
    while !vm.is_halted() {
        let _ = vm.step();
    }
    assert_eq!(Some(RuntimeError::EndOfInput), vm.error());
    assert_eq!(&vec![65i64], vm.stack());
}

#[test]
fn test_read_number() {
    let program = vec![
        Instruction::ReadNum,
        Instruction::ReadNum,
        Instruction::End,
    ];
    let input = "42\n-7\n".as_bytes().to_vec();
    let mut vm = Interpreter::new(program, input).unwrap();
    while !vm.is_halted() {
        let _ = vm.step();
    }
    assert_eq!(None, vm.error());
    assert_eq!(&vec![42i64, -7], vm.stack());
}

#[test]
fn test_read_number_malformed() {
    let program = vec![Instruction::ReadNum, Instruction::End];
    let input = "4x\n".as_bytes().to_vec();
    let mut vm = Interpreter::new(program, input).unwrap();
    while !vm.is_halted() {
        let _ = vm.step();
    }
    assert_eq!(Some(RuntimeError::EndOfInput), vm.error());
}

#[test]
fn test_stack_operations() {
    let program = vec![
        Instruction::PushNrOnStack(1),
        Instruction::PushNrOnStack(2),
        Instruction::PushNrOnStack(3),
        Instruction::DuplicateTopStack,
        Instruction::DiscardTopOfStack,
        Instruction::SwapTopTwoOnStack,
        Instruction::CopyNthOnTop(1),
        Instruction::SlideNOfTopOfStackKeepTopItem(2),
        Instruction::End,
    ];
    // stack evolves: [1,2,3] -> [1,2,3,3] -> [1,2,3] -> [1,3,2] -> [1,3,2,3]
    // -> [1,3]
    let mut vm = Interpreter::new(program, Vec::new()).unwrap();
    while !vm.is_halted() {
        let _ = vm.step();
    }
    assert_eq!(None, vm.error());
    assert_eq!(&vec![1i64, 3], vm.stack());
}

#[test]
fn test_step_after_halt_is_noop() {
    let program = vec![Instruction::End];
    let mut vm = Interpreter::new(program, Vec::new()).unwrap();
    while !vm.is_halted() {
        let _ = vm.step();
    }
    assert!(vm.step().is_ok());
    assert!(vm.is_halted());
    assert_eq!(None, vm.error());
}
