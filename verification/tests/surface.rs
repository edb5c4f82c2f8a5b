use synacor_challenge::assembly::{words_from_le_bytes, Opcode, Val};
use synacor_challenge::emulator::{
    ScanCmp, StopInstructionCounter, StopNever, StopRet, StopVmState, Vm,
};
use synacor_challenge::errors::VmError;
use synacor_challenge::semantics::VmState;
use synacor_challenge::text::{opcode_text, parse_opcode};

#[test]
fn value_codec_round_trip() {
    for w in [0u16, 1, 32767, 32768, 32775] {
        let v = Val::new(w);
        assert_ne!(v, Val::Invalid);
        assert_eq!(v.as_binary(), w);
    }
    assert_eq!(Val::new(32776), Val::Invalid);
    assert_eq!(Val::new(65535), Val::Invalid);
    assert_eq!(Val::new(5), Val::Num(5));
    assert_eq!(Val::new(32770), Val::Reg(2));
}

#[test]
fn words_from_little_endian_bytes() {
    let words = words_from_le_bytes(&[0x34, 0x12, 0x00, 0x80]);
    assert_eq!(words, vec![0x1234, 0x8000]);
    assert_eq!(words_from_le_bytes(&[]), Vec::<u16>::new());
}

#[test]
fn mnemonic_rendering_round_trip() {
    let lines = [
        "Set(Reg(1), 1531)",
        "Gt(Reg(1), Reg(2), Reg(1))",
        "Jf(Reg(1), 5636)",
        "Ret",
        "Add(Reg(2), 10666, 956)",
        "Halt",
        "Noop",
        "Out(65)",
        "In(Reg(7))",
        "Mult(Reg(0), 2, 3)",
        "Mod(Reg(0), 7, 3)",
        "And(Reg(0), 1, 2)",
        "Or(Reg(0), 1, 2)",
        "Not(Reg(0), 1)",
        "Rmem(Reg(0), 100)",
        "Wmem(100, Reg(0))",
        "Call(1234)",
        "Jmp(9)",
        "Jt(Reg(0), 9)",
        "Push(Reg(3))",
        "Pop(Reg(3))",
        "Eq(Reg(0), 1, 1)",
    ];
    for line in lines {
        let op = parse_opcode(line).unwrap();
        assert_eq!(opcode_text(&op), line);
    }
}

#[test]
fn mnemonic_parser_is_case_insensitive_and_strict() {
    assert_eq!(parse_opcode("halt"), Some(Opcode::Halt));
    assert_eq!(parse_opcode("HALT"), Some(Opcode::Halt));
    assert_eq!(parse_opcode("sEt( Reg(0) , 7 )"), Some(Opcode::Assign(Val::Reg(0), Val::Num(7))));
    assert_eq!(parse_opcode("frobnicate"), None);
    assert_eq!(parse_opcode("Set(Reg(0))"), None);
    assert_eq!(parse_opcode("Set(Reg(0), 1, 2)"), None);
    assert_eq!(parse_opcode("Set(Reg(8), 1)"), None);
    assert_eq!(parse_opcode("Set(Reg(0), 32768)"), None);
    assert_eq!(parse_opcode("Set(Reg(0), 32767)"), Some(Opcode::Assign(Val::Reg(0), Val::Num(32767))));
    assert_eq!(parse_opcode(""), None);
    assert_eq!(parse_opcode("Set(,1)"), None);
}

#[test]
fn breakpoints_suspend_and_resume() {
    // Noop; Noop; Halt with a breakpoint on the second noop.
    let mut vm = Vm::new();
    vm.load_program_from_mem(&[21, 21, 0]);
    vm.set_breakpoint(1);
    vm.set_breakpoint(1);
    assert_eq!(vm.get_breakpoints(), &vec![1]);

    let executed = vm.run_until(StopNever).unwrap();
    assert_eq!(executed.len(), 1);
    assert_eq!(vm.get_state(), VmState::HitBreakPoint);

    vm.unset_breakpoint(1);
    assert!(vm.get_breakpoints().is_empty());
}

#[test]
fn step_errors_when_not_running() {
    let mut vm = Vm::new();
    vm.load_program_from_mem(&[0]);
    vm.step().unwrap();
    assert_eq!(vm.get_state(), VmState::Halted);
    assert_eq!(vm.step(), Err(VmError::NotRunning));
}

#[test]
fn feed_errors() {
    let mut vm = Vm::new();
    vm.load_program_from_mem(&[21, 0]);
    assert_eq!(vm.feed("hello"), Err(VmError::NotWaiting));
}

#[test]
fn pop_on_empty_stack_is_runtime_error() {
    let mut vm = Vm::new();
    vm.load_program_from_mem(&[3, 32768, 0]);
    assert_eq!(vm.step(), Err(VmError::EmptyStack));
}

#[test]
fn invalid_operand_is_error() {
    // Out with an out-of-domain operand word.
    let mut vm = Vm::new();
    vm.load_program_from_mem(&[19, 40000, 0]);
    assert_eq!(vm.step(), Err(VmError::BadOperand));
}

#[test]
fn rmem_reads_through_a_register() {
    let mut vm = Vm::new();
    vm.load_program_from_mem(&[15, 32768, 32769, 777]);
    vm.set_register(1, 3);
    vm.step().unwrap();
    assert_eq!(vm.get_registers()[0], 777);
}

#[test]
fn scanmem_narrows_candidates() {
    let mut vm = Vm::new();
    vm.load_program_from_mem(&[5, 9, 5, 7]);
    vm.scanmem_init();
    vm.scanmem_filter(ScanCmp::Equal, Some(5));
    let shadow = vm.get_scanmem();
    assert_eq!(shadow[0], Some(5));
    assert_eq!(shadow[1], None);
    assert_eq!(shadow[2], Some(5));
    assert_eq!(shadow[3], None);
    let survivors = shadow.iter().filter(|x| x.is_some()).count();
    assert_eq!(survivors, 2);

    // Change one cell, then keep only the entries equal to the current
    // contents: the changed cell drops out.
    vm.mem_set(0, 6);
    vm.scanmem_filter(ScanCmp::Equal, None);
    let shadow = vm.get_scanmem();
    assert_eq!(shadow[0], None);
    assert_eq!(shadow[2], Some(5));
}

#[test]
fn patch_overwrites_and_warns_on_size_change() {
    let mut vm = Vm::new();
    vm.load_program_from_mem(&[21, 21, 21, 21, 0]);
    // Same size: a noop over a noop does not warn.
    let warn = vm.patch(Opcode::Noop, 0);
    assert!(!warn);
    // Different size: a two-word jump over a one-word noop warns but is
    // applied.
    let warn = vm.patch(Opcode::Jmp(Val::Num(4)), 0);
    assert!(warn);
    assert_eq!(vm.get_mem()[0], 6);
    assert_eq!(vm.get_mem()[1], 4);
    let mut vm2 = vm.clone();
    vm2.run_until(StopVmState::new(&[VmState::Halted])).unwrap();
    assert_eq!(vm2.get_state(), VmState::Halted);
}

#[test]
fn trace_records_selected_calls_with_resolution() {

    // A call through an immediate, then one through a register, each
    // to a bare return; trace only the calls.
    let mut vm = Vm::new();
    let prog = vec![Opcode::Call(Val::Num(5)), Opcode::Call(Val::Reg(1)), Opcode::Halt, Opcode::Ret];
    let code = Opcode::assemble_vec(&prog);
    vm.load_program_from_mem(&code);
    vm.set_register(1, 5);
    vm.set_traced_opcodes(Opcode::Call(Val::Num(0)).discriminant());
    vm.run_until(StopVmState::new(&[VmState::Halted])).unwrap();

    let trace = vm.get_trace_buffer();
    assert_eq!(trace.len(), 2);
    assert_eq!(trace[0], (0, Opcode::Call(Val::Num(5)), None));
    assert_eq!(trace[1], (2, Opcode::Call(Val::Reg(1)), Some(Opcode::Call(Val::Num(5)))));
}

#[test]
fn instruction_budget_stops_cleanly() {
    let mut vm = Vm::new();
    vm.load_program_from_mem(&[21, 21, 21, 21, 0]);
    let executed = vm.run_until(StopInstructionCounter::new(2)).unwrap();
    assert_eq!(executed.len(), 2);
    assert_eq!(vm.get_state(), VmState::Running);
    // The machine is resumable.
    let executed = vm.run_until(StopVmState::new(&[VmState::Halted])).unwrap();
    assert_eq!(executed.len(), 3);
}

#[test]
fn stop_on_unbalanced_ret_fails() {
    let mut vm = Vm::new();
    vm.load_program_from_mem(&[18]);
    assert_eq!(vm.run_until(StopRet::new()), Err(VmError::RetImbalance));
}

#[test]
fn patched_call_to_sentinel_returns_twenty() {
    // Call 3; Halt; Set r0, 20; Ret — natively patched when enabled.
    let prog = vec![
        Opcode::Call(Val::Num(3)),
        Opcode::Halt,
        Opcode::Assign(Val::Reg(0), Val::Num(20)),
        Opcode::Ret,
    ];
    let code = Opcode::assemble_vec(&prog);

    let mut vm1 = Vm::new();
    vm1.load_program_from_mem(&code);
    vm1.run_until(StopRet::new()).unwrap();

    let mut vm2 = Vm::new();
    vm2.load_program_from_mem(&code);
    vm2.set_fn_patching(true);
    vm2.run_until(StopRet::new()).unwrap();

    assert_eq!(vm1.get_registers()[0], 20);
    assert_eq!(vm2.get_registers()[0], 20);

    // Run both to the halt: the patched and unpatched machines are
    // observationally equal, stack included.
    let mut vma = Vm::new();
    vma.load_program_from_mem(&code);
    vma.run_until(StopVmState::new(&[VmState::Halted])).unwrap();

    let mut vmb = Vm::new();
    vmb.load_program_from_mem(&code);
    vmb.set_fn_patching(true);
    vmb.run_until(StopVmState::new(&[VmState::Halted])).unwrap();

    assert_eq!(vma, vmb);
}

#[test]
fn patched_recursion_matches_interpreted_run() {

    // The Ackermann-like routine laid out at its designated entry, with
    // a call at address 0 and noops in between.
    let mut prog = vec![Opcode::Call(Val::Num(6027)), Opcode::Halt];
    prog.extend([Opcode::Noop].repeat(6027 - 3));
    prog.extend_from_slice(&[
        Opcode::Jt(Val::Reg(0), Val::Num(6035)),
        Opcode::Add(Val::Reg(0), Val::Reg(1), Val::Num(1)),
        Opcode::Ret,
        Opcode::Jt(Val::Reg(1), Val::Num(6048)),
        Opcode::Add(Val::Reg(0), Val::Reg(0), Val::Num(32767)),
        Opcode::Assign(Val::Reg(1), Val::Reg(7)),
        Opcode::Call(Val::Num(6027)),
        Opcode::Ret,
        Opcode::Push(Val::Reg(0)),
        Opcode::Add(Val::Reg(1), Val::Reg(1), Val::Num(32767)),
        Opcode::Call(Val::Num(6027)),
        Opcode::Assign(Val::Reg(1), Val::Reg(0)),
        Opcode::Pop(Val::Reg(0)),
        Opcode::Add(Val::Reg(0), Val::Reg(0), Val::Num(32767)),
        Opcode::Call(Val::Num(6027)),
        Opcode::Ret,
    ]);
    let code = Opcode::assemble_vec(&prog);

    for (r0, r1, r7) in [(0u16, 0u16, 0u16), (1, 1, 2), (2, 3, 5), (3, 2, 1)] {
        let mut vm1 = Vm::new();
        vm1.load_program_from_mem(&code);
        vm1.set_register(0, r0);
        vm1.set_register(1, r1);
        vm1.set_register(7, r7);
        let mut vm2 = vm1.clone();

        vm1.run_until(StopVmState::new(&[VmState::Halted])).unwrap();
        vm2.set_fn_patching(true);
        vm2.run_until(StopVmState::new(&[VmState::Halted])).unwrap();

        assert_eq!(vm1.get_registers()[0], vm2.get_registers()[0]);
        assert_eq!(vm1.get_registers()[1], vm2.get_registers()[1]);
        // The patched and unpatched runs end observationally equal,
        // stack included.
        assert_eq!(vm1, vm2);
    }
}
