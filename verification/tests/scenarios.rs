use synacor_challenge::assembly::{Opcode, Val};
use synacor_challenge::emulator::{StopVmState, Vm};
use synacor_challenge::errors::VmError;
use synacor_challenge::semantics::VmState;

#[test]
fn add_wraps_at_modulus() {
    // Add r0, 32767, 1 and Add r0, 16384, 16384 both wrap to 0.
    let mut vm = Vm::new();
    vm.load_program_from_mem(&[9, 32768, 32767, 1, 0]);
    vm.run_until(StopVmState::new(&[VmState::Halted])).unwrap();
    assert_eq!(vm.get_registers()[0], 0);

    let mut vm = Vm::new();
    vm.load_program_from_mem(&[9, 32768, 16384, 16384, 0]);
    vm.run_until(StopVmState::new(&[VmState::Halted])).unwrap();
    assert_eq!(vm.get_registers()[0], 0);
}

#[test]
fn not_is_fifteen_bit_complement() {
    // Not r0, r1 writes 32767 - r1 for several register values.
    for v in [0u16, 1, 123, 4095, 32767] {
        let mut vm = Vm::new();
        vm.load_program_from_mem(&[14, 32768, 32769, 0]);
        vm.set_register(1, v);
        vm.run_until(StopVmState::new(&[VmState::Halted])).unwrap();
        assert_eq!(vm.get_registers()[0], 32767 - v);
    }
}

#[test]
fn mod_by_zero_is_runtime_error() {
    // Mod r0, 5, 0 fails with a divide-by-zero runtime error.
    let mut vm = Vm::new();
    vm.load_program_from_mem(&[11, 32768, 5, 0, 0]);
    let r = vm.step();
    assert_eq!(r, Err(VmError::DivByZero));
    // The failed step leaves the machine re-stepable and unchanged.
    assert_eq!(vm.get_state(), VmState::Running);
    assert_eq!(vm.get_registers()[0], 0);
}

#[test]
fn ret_on_empty_stack_halts_cleanly() {
    let mut vm = Vm::new();
    vm.load_program_from_mem(&[18]);
    let r = vm.step();
    assert!(r.is_ok());
    assert_eq!(vm.get_state(), VmState::Halted);
}

#[test]
fn jmp_to_invalid_tag_defers_decode_error() {
    // Jmp 3; the word at 3 is 99, not an opcode tag.  The jump itself
    // succeeds; the decode error comes at the next step.
    let mut vm = Vm::new();
    vm.load_program_from_mem(&[6, 3, 0, 99]);
    let first = vm.step();
    assert!(first.is_ok());
    assert_eq!(vm.get_state(), VmState::Running);
    let second = vm.step();
    assert_eq!(second, Err(VmError::Decode));
    assert_eq!(vm.get_state(), VmState::Running);
}

#[test]
fn add_out_halt_program() {
    // Add r0, r1, 4; Out r0; Halt: emits one character with code 4.
    let mut vm = Vm::new();
    vm.load_program_from_mem(&[9, 32768, 32769, 4, 19, 32768, 0]);
    let executed = vm.run_until(StopVmState::new(&[VmState::Halted])).unwrap();
    assert_eq!(executed.len(), 3);
    assert_eq!(vm.get_state(), VmState::Halted);
    assert_eq!(vm.get_registers()[0], 4);
    let messages = vm.get_messages();
    assert_eq!(messages.len(), 1);
    assert_eq!(messages[0], "\u{4}");
}

#[test]
fn call_noop_ret_halt_counts_four() {
    // Call 5; Halt; ...pad...; Noop; Ret executes exactly four
    // instructions: the call, the noop, the return, and the halt.
    let mut vm = Vm::new();
    vm.load_program_from_mem(&[17, 5, 0, 0, 0, 21, 18]);
    let executed = vm.run_until(StopVmState::new(&[VmState::Halted])).unwrap();
    assert_eq!(executed.len(), 4);
    assert_eq!(vm.get_state(), VmState::Halted);
    let kinds: Vec<Opcode> = executed.iter().map(|(_, op)| *op).collect();
    assert_eq!(
        kinds,
        vec![
            Opcode::Call(Val::Num(5)),
            Opcode::Noop,
            Opcode::Ret,
            Opcode::Halt,
        ]
    );
}

#[test]
fn input_suspension_protocol() {
    // In r0; Out r0; Halt: waits at the first In, flushing the (empty)
    // output into the message log; after feeding a line it consumes the
    // first character and emits it.
    let mut vm = Vm::new();
    vm.load_program_from_mem(&[20, 32768, 19, 32768, 0]);
    let stop = StopVmState::new(&[VmState::WaitingForInput, VmState::Halted]);
    vm.run_until(stop).unwrap();
    assert_eq!(vm.get_state(), VmState::WaitingForInput);
    assert_eq!(vm.get_messages().len(), 1);
    assert_eq!(vm.get_messages()[0], "");

    vm.feed("A").unwrap();
    assert_eq!(vm.get_state(), VmState::Running);
    let stop = StopVmState::new(&[VmState::WaitingForInput, VmState::Halted]);
    vm.run_until(stop).unwrap();
    assert_eq!(vm.get_state(), VmState::Halted);
    assert_eq!(vm.get_registers()[0], 'A' as u16);
    assert_eq!(vm.get_messages().len(), 2);
    assert_eq!(vm.get_messages()[1], "A");
}

#[test]
fn input_loop_consumes_newline_then_waits_again() {
    // In r0; Out r0; Jmp 0: echoes the fed character and the trailing
    // newline, then waits for input again with the echo flushed.
    let mut vm = Vm::new();
    vm.load_program_from_mem(&[20, 32768, 19, 32768, 6, 0]);
    let stop = StopVmState::new(&[VmState::WaitingForInput, VmState::Halted]);
    vm.run_until(stop).unwrap();
    assert_eq!(vm.get_state(), VmState::WaitingForInput);
    assert_eq!(vm.get_messages().len(), 1);
    assert_eq!(vm.get_messages()[0], "");

    vm.feed("A").unwrap();
    let stop = StopVmState::new(&[VmState::WaitingForInput, VmState::Halted]);
    vm.run_until(stop).unwrap();
    assert_eq!(vm.get_state(), VmState::WaitingForInput);
    assert_eq!(vm.get_messages().len(), 2);
    assert_eq!(vm.get_messages()[1], "A\n");
}

#[test]
fn disassembly_of_set_and_ret() {
    let vm = {
        let mut vm = Vm::new();
        vm.load_program_from_mem(&[1, 32768, 42, 18]);
        vm
    };
    let instrs = vm.disassemble(0, 2).unwrap();
    assert_eq!(
        instrs,
        vec![
            (0, Opcode::Assign(Val::Reg(0), Val::Num(42))),
            (3, Opcode::Ret),
        ]
    );
}

#[test]
fn bitwise_routine_writes_xor_masked() {

    // The routine of the patched entry: Push/Push/And/Not/Or/And/Pop/
    // Pop/Opcode::Ret, laid out at address 3; the call returns to the halt.
    let mut prog = vec![Opcode::Call(Val::Num(3)), Opcode::Halt];
    prog.extend_from_slice(&[
        Opcode::Push(Val::Reg(1)),
        Opcode::Push(Val::Reg(2)),
        Opcode::And(Val::Reg(2), Val::Reg(0), Val::Reg(1)),
        Opcode::Not(Val::Reg(2), Val::Reg(2)),
        Opcode::Or(Val::Reg(0), Val::Reg(0), Val::Reg(1)),
        Opcode::And(Val::Reg(0), Val::Reg(0), Val::Reg(2)),
        Opcode::Pop(Val::Reg(2)),
        Opcode::Pop(Val::Reg(1)),
        Opcode::Ret,
    ]);
    let code = Opcode::assemble_vec(&prog);

    for r0 in 0u16..100 {
        for r1 in 0u16..100 {
            let mut vm = Vm::new();
            vm.load_program_from_mem(&code);
            vm.set_register(0, r0);
            vm.set_register(1, r1);
            vm.run_until(StopVmState::new(&[VmState::Halted])).unwrap();
            assert_eq!(vm.get_registers()[0], (r0 ^ r1) & 0x7fff);
            assert_eq!(vm.get_registers()[1], r1);
        }
    }
}
