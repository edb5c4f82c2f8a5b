use synacor_challenge::analysis::Function;
use synacor_challenge::assembly::{Opcode, Val};
use synacor_challenge::emulator::Vm;
use synacor_challenge::errors::VmError;

#[test]
fn function_covers_reachable_branches() {
    // Jt r0, 7; Add r2, 1, 2; Ret at 8 — the branch target and the
    // fall-through both belong to the function.
    let prog = vec![
        Opcode::Jt(Val::Reg(0), Val::Num(7)),
        Opcode::Add(Val::Reg(2), Val::Num(1), Val::Num(2)),
        Opcode::Ret,
    ];
    let code = Opcode::assemble_vec(&prog);
    let mut vm = Vm::new();
    vm.load_program_from_mem(&code);

    let f = vm.disassemble_function(0).unwrap();
    assert_eq!(f.start, 0);
    assert_eq!(f.end, 7);
    assert_eq!(f.get_code().len(), 3);
}

#[test]
fn function_with_gap_is_refused() {
    // Jmp 5 jumps over unreachable cells: the discovered set {0, 5}
    // does not tile a contiguous range.
    let mut vm = Vm::new();
    vm.load_program_from_mem(&[6, 5, 0, 0, 0, 18]);
    assert_eq!(vm.disassemble_function(0), Err(VmError::GappedFunction));
}

#[test]
fn function_construction_checks_coverage() {
    let code = [Opcode::Noop, Opcode::Jmp(Val::Num(0)), Opcode::Ret];
    // Sizes 1 + 2 + 1: the last instruction starts at 3.
    let f = Function::new(10, 13, &code).unwrap();
    assert_eq!(f.start, 10);
    assert_eq!(f.end, 13);
    assert_eq!(f.get_code().len(), 3);
    // A wrong end address is a gap.
    assert!(Function::new(10, 12, &code).is_err());
    assert!(Function::new(10, 14, &code).is_err());
}

#[test]
fn range_containment_and_merge() {
    let outer = Function::new(0, 4, &[Opcode::Noop, Opcode::Noop, Opcode::Noop, Opcode::Noop,
        Opcode::Noop]).unwrap();
    let inner = Function::new(1, 3, &[Opcode::Noop, Opcode::Noop, Opcode::Noop]).unwrap();
    assert!(outer.contains(&inner));
    assert!(!inner.contains(&outer));
    assert_eq!(outer.merge_biggest(&inner).start, 0);
    assert_eq!(inner.merge_biggest(&outer).start, 0);
}
