use lavaxemu_core::{Error, Program, RunOutcome, StepOutcome, Vm, LAV_HEADER_SIZE, LAV_MAGIC};

fn vm(bytecode: &[u8]) -> Vm {
    let mut image = vec![0; LAV_HEADER_SIZE];
    image[..4].copy_from_slice(&LAV_MAGIC);
    image[8] = 0xf0;
    image[9] = 15;
    image[10] = 10;
    image.extend_from_slice(bytecode);
    Vm::new(Program::load(&image).unwrap())
}

#[test]
fn executes_integer_expression() {
    let mut vm = vm(&[
        0x01, 7, // push_char 7
        0x02, 0xfd, 0xff, // push_int -3
        0x21, // add
        0x38, // pop result
        0x40, // exit
    ]);
    assert_eq!(vm.run(32).unwrap(), RunOutcome::Halted(0));
    assert_eq!(vm.result(), 4);
    assert_eq!(vm.stack_depth(), 0);
}

#[test]
fn assigns_and_loads_guest_memory() {
    let mut vm = vm(&[
        0x01, 0, // array index
        0x0c, 0x00, 0x20, 0x00, // address of long at 0x2000
        0x03, 42, 0, 0, 0, // value
        0x35, // assignment
        0x38, // discard expression value
        0x06, 0x00, 0x20, 0x00, // load long
        0x38, // save result
        0x40,
    ]);
    assert_eq!(vm.run(64).unwrap(), RunOutcome::Halted(0));
    assert_eq!(vm.result(), 42);
    assert_eq!(&vm.memory()[0x2000..0x2004], &42_i32.to_le_bytes());
}

#[test]
fn yields_system_calls_to_the_host() {
    let mut vm = vm(&[0x01, b'A', 0x80, 0x40]);
    assert_eq!(vm.run(16).unwrap(), RunOutcome::SystemCall(0));
    assert_eq!(vm.pop_value().unwrap(), i32::from(b'A'));
    assert_eq!(vm.run(16).unwrap(), RunOutcome::Halted(0));
}

#[test]
fn reports_unavailable_host_buffers_as_null() {
    let mut vm = vm(&[0x1a, 0x1b, 0x42, 0x40]);

    assert_eq!(vm.run(10).unwrap(), RunOutcome::Halted(0));
    assert_eq!(vm.pop_value().unwrap(), 0);
    assert_eq!(vm.pop_value().unwrap(), 0);
    assert_eq!(vm.pop_value().unwrap(), 0);
}

#[test]
fn calls_and_returns_from_a_function() {
    let mut vm = vm(&[
        0x3c, 0x00, 0x20, 0x00, // stack starts at 0x2000
        0x3d, 0x1a, 0x00, 0x00, // call absolute offset 0x1a
        0x38, // store returned expression
        0x40, // exit
        0x3e, 0x20, 0x00, 0x00, 0, // enter a frame with no arguments
        0x01, 9, // return expression
        0x3f, // leave function
    ]);
    assert_eq!(vm.run(32).unwrap(), RunOutcome::Halted(0));
    assert_eq!(vm.result(), 9);
    assert_eq!(vm.local_bp(), 0);
    assert_eq!(vm.local_sp(), 0x2000);
}

#[test]
fn copies_preset_data_into_memory() {
    let mut vm = vm(&[0x41, 0x00, 0x20, 0x00, 3, 0, 0xaa, 0xbb, 0xcc, 0x40]);
    assert_eq!(vm.run(16).unwrap(), RunOutcome::Halted(0));
    assert_eq!(&vm.memory()[0x2000..0x2003], &[0xaa, 0xbb, 0xcc]);
}

#[test]
fn reports_division_by_zero() {
    let mut vm = vm(&[0x01, 5, 0x01, 0, 0x2b]);
    assert!(matches!(vm.run(16), Err(Error::DivisionByZero { .. })));
}

#[test]
fn a_pushed_value_pops_back() {
    let mut vm = vm(&[0x40]);
    vm.push_value(-77).unwrap();
    vm.push_value(5).unwrap();
    assert_eq!(vm.stack_depth(), 2);
    assert_eq!(vm.pop_value().unwrap(), 5);
    assert_eq!(vm.pop_value().unwrap(), -77);
    assert_eq!(vm.pop_value(), Err(Error::StackUnderflow));
}

#[test]
fn a_halted_machine_stays_halted() {
    let mut vm = vm(&[0x01, 1, 0x40]);
    vm.halt(3);
    assert!(!vm.is_running());
    let count = vm.instructions_executed();
    assert_eq!(vm.step().unwrap(), StepOutcome::Halted(3));
    assert_eq!(vm.run(10).unwrap(), RunOutcome::Halted(3));
    assert_eq!(vm.instructions_executed(), count);
    assert_eq!(vm.exit_code(), 3);
}

#[test]
fn the_budget_bounds_a_run() {
    let mut vm = vm(&[0x01, 1, 0x38, 0x01, 2, 0x38, 0x40]);
    assert_eq!(vm.run(2).unwrap(), RunOutcome::BudgetExhausted);
    assert_eq!(vm.instructions_executed(), 2);
    assert_eq!(vm.result(), 1);
    assert_eq!(vm.run(100).unwrap(), RunOutcome::Halted(0));
    assert_eq!(vm.result(), 2);
}

#[test]
fn memory_can_be_changed_by_the_host() {
    let mut vm = vm(&[0x06, 0x00, 0x30, 0x00, 0x38, 0x40]);
    vm.memory_mut()[0x3000] = 9;
    vm.set_memory_byte(0x3001, 1);
    assert_eq!(vm.run(8).unwrap(), RunOutcome::Halted(0));
    assert_eq!(vm.result(), 0x109);
    vm.reset();
    assert_eq!(vm.memory()[0x3000], 0);
    assert!(vm.is_running());
}

#[test]
fn an_unknown_opcode_is_reported() {
    let mut vm = vm(&[0xff]);
    assert!(matches!(vm.run(4), Err(Error::InvalidOpcode { opcode: 0xff, .. })));
}

#[test]
fn errors_at_the_opcode_leave_the_machine_as_stated() {
    let mut vm = vm(&[]);
    assert_eq!(vm.step(), Err(Error::UnexpectedEnd { pc: LAV_HEADER_SIZE }));
    assert_eq!(vm.pc(), LAV_HEADER_SIZE);
    assert_eq!(vm.instructions_executed(), 0);
    let mut vm = self::vm(&[0x7f]);
    assert_eq!(vm.step(), Err(Error::InvalidOpcode { opcode: 0x7f, pc: LAV_HEADER_SIZE }));
    assert_eq!(vm.pc(), LAV_HEADER_SIZE + 1);
    assert_eq!(vm.instructions_executed(), 1);
}
