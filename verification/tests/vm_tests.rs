use toylang::vm::{Object, VirtualMachine};

#[test]
fn test_simple_bytecode_execution() {
    let constants = vec![Object::Integer(10), Object::Integer(3)];
    let bytecode = vec![
        0, 0, 0,
        0, 0, 1,
        2,
    ];

    let mut vm = VirtualMachine::new(bytecode, constants);
    vm.run();

    assert_eq!(vm.stack_top(), Some(&Object::Integer(7)));
    println!("Ans {:?}", vm.stack_top().unwrap());
}

use toylang::vm::{FloatOp, RunOutcome};

#[test]
fn add_pop_and_halt_at_end() {
    let constants = vec![Object::Integer(2), Object::Integer(40), Object::Integer(-5)];
    let bytecode = vec![0, 0, 0, 0, 0, 1, 1, 0, 0, 2, 3];
    let mut vm = VirtualMachine::new(bytecode, constants);
    assert_eq!(vm.run(), RunOutcome::Halted);
    assert_eq!(vm.stack, vec![Object::Integer(42)]);
    assert_eq!(vm.ip, 11);
    assert_eq!(vm.stack_top(), Some(&Object::Integer(42)));
}

#[test]
fn constant_index_is_big_endian() {
    let mut constants = vec![Object::Integer(0); 300];
    constants[258] = Object::Integer(9);
    let mut vm = VirtualMachine::new(vec![0, 1, 2], constants);
    vm.run();
    assert_eq!(vm.stack_top(), Some(&Object::Integer(9)));
}

#[test]
fn empty_program() {
    let mut vm = VirtualMachine::new(vec![], vec![]);
    assert_eq!(vm.run(), RunOutcome::Halted);
    assert_eq!(vm.stack_top(), None);
    assert_eq!(vm.ip, 0);
}

#[test]
fn float_arithmetic_is_handed_to_the_caller() {
    let constants = vec![Object::Float(2.5f32.to_bits()), Object::Float(1.0f32.to_bits())];
    let mut vm = VirtualMachine::new(vec![0, 0, 0, 0, 0, 1, 2, 0, 0, 0, 1], constants);
    let out = vm.run();
    assert_eq!(
        out,
        RunOutcome::FloatArith { op: FloatOp::Sub, left: 2.5f32.to_bits(), right: 1.0f32.to_bits() }
    );
    assert_eq!(vm.stack_top(), None);
    assert_eq!(vm.ip, 7);
    let result = f32::from_bits(2.5f32.to_bits()) - f32::from_bits(1.0f32.to_bits());
    vm.push_result(Object::Float(result.to_bits()));
    let out = vm.run();
    assert_eq!(
        out,
        RunOutcome::FloatArith { op: FloatOp::Add, left: 1.5f32.to_bits(), right: 2.5f32.to_bits() }
    );
    vm.push_result(Object::Float(4.0f32.to_bits()));
    assert_eq!(vm.run(), RunOutcome::Halted);
    assert_eq!(vm.stack_top(), Some(&Object::Float(4.0f32.to_bits())));
}

#[test]
fn halted_run_is_final() {
    let constants = vec![Object::Integer(1), Object::Integer(2)];
    let mut vm = VirtualMachine::new(vec![0, 0, 0, 0, 0, 1, 1], constants);
    assert_eq!(vm.run(), RunOutcome::Halted);
    let stack = vm.stack.clone();
    let ip = vm.ip;
    assert_eq!(vm.run(), RunOutcome::Halted);
    assert_eq!(vm.stack, stack);
    assert_eq!(vm.ip, ip);
    assert_eq!(vm.stack_top(), Some(&Object::Integer(3)));
}

#[test]
fn faults_are_foreseen() {
    let ints = vec![Object::Integer(i32::MAX), Object::Integer(1), Object::Float(1.0f32.to_bits())];
    // adding past i32::MAX
    assert!(VirtualMachine::new(vec![0, 0, 0, 0, 0, 1, 1], ints.clone()).would_fault());
    // mixed operand types
    assert!(VirtualMachine::new(vec![0, 0, 1, 0, 0, 2, 2], ints.clone()).would_fault());
    // constant out of range
    assert!(VirtualMachine::new(vec![0, 0, 9], ints.clone()).would_fault());
    // truncated constant operand
    assert!(VirtualMachine::new(vec![0, 0], ints.clone()).would_fault());
    // popping an empty stack
    assert!(VirtualMachine::new(vec![3], ints.clone()).would_fault());
    assert!(VirtualMachine::new(vec![0, 0, 1, 1], ints.clone()).would_fault());
    // unknown opcode
    assert!(VirtualMachine::new(vec![7], ints.clone()).would_fault());
    // fine programs
    assert!(!VirtualMachine::new(vec![0, 0, 1, 0, 0, 1, 2], ints.clone()).would_fault());
    assert!(!VirtualMachine::new(vec![], ints.clone()).would_fault());
    let floats = vec![Object::Float(1.0f32.to_bits()), Object::Float(2.0f32.to_bits())];
    assert!(!VirtualMachine::new(vec![0, 0, 0, 0, 0, 1, 1, 7], floats).would_fault());
    let vm = VirtualMachine::new(vec![0, 0, 1, 0, 0, 1, 2], ints);
    assert!(!vm.would_fault());
    assert_eq!(vm.ip, 0);
    assert!(vm.stack.is_empty());
}
