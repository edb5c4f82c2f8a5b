use synacor_challenge::assembly::{Opcode, Val};
use synacor_challenge::emulator::{StopRet, StopVmState, Vm};
use synacor_challenge::semantics::VmState;
use synacor_challenge::text::opcode_text;

#[test]
fn main_load_program_from_mem() {
    let mut vm = Vm::new();
    let program = [9, 32768, 32769, 4, 19, 32768];
    vm.load_program_from_mem(&program);
}

#[test]
fn tests_load_program_from_mem() {
    let mut vm = Vm::new();
    let program = [9, 32768, 32769, 4, 19, 32768];
    vm.load_program_from_mem(&program);
}

#[test]
fn machine_code() {
    let expected = vec![0];
    let prog = vec![Opcode::Halt];

    assert_eq!(Opcode::assemble_vec(&prog), expected);
}

#[test]
fn disassemble_function() {

    let prog = vec![
        Opcode::Assign(Val::Reg(0), Val::Num(2)),
        Opcode::Eq(Val::Reg(0), Val::Reg(1), Val::Num(2)),
        Opcode::Jt(Val::Num(0), Val::Num(10)),
        Opcode::Ret,
        Opcode::Add(Val::Reg(2), Val::Num(1), Val::Num(2)),
        Opcode::Ret,
    ];
    let machine_code = Opcode::assemble_vec(&prog);

    let mut vm = Vm::new();
    vm.load_program_from_mem(&machine_code);

    let function = vm.disassemble_function(0).unwrap();
    let mut ptr = function.start;
    for op in function.get_code() {
        println!("{} {}", ptr, opcode_text(op));
        ptr += op.size();
    }
    assert_eq!(function.start, 0);
    assert_eq!(function.end, 10);
    assert_eq!(function.get_code().len(), 4);
}

#[test]
fn assemble_disassemble() {

    let prog = vec![
        Opcode::Assign(Val::Reg(0), Val::Num(2)),
        Opcode::Eq(Val::Reg(0), Val::Reg(1), Val::Num(2)),
        Opcode::Jt(Val::Num(0), Val::Num(15)),
        Opcode::Ret,
        Opcode::Add(Val::Reg(2), Val::Num(1), Val::Num(2)),
        Opcode::Call(Val::Num(2)),
        Opcode::Call(Val::Num(2)),
        Opcode::Call(Val::Num(2)),
        Opcode::Call(Val::Num(2)),
        Opcode::Ret,
    ];
    let machine_code = Opcode::assemble_vec(&prog);

    let prog2: Vec<Opcode> = Opcode::disassemble(&machine_code, 0)
        .unwrap()
        .iter()
        .map(|(_, op)| op)
        .copied()
        .collect();

    assert_eq!(prog, prog2);
}

// 2125: Opcode::Push(Val::Reg(1))
// 2127: Opcode::Push(Val::Reg(2))
// 2129: Opcode::And(Val::Reg(2), Val::Reg(0), Val::Reg(1))
// 2133: Opcode::Not(Val::Reg(2), Val::Reg(2))
// 2136: Opcode::Or(Val::Reg(0), Val::Reg(0), Val::Reg(1))
// 2140: Opcode::And(Val::Reg(0), Val::Reg(0), Val::Reg(2))
// 2144: Opcode::Pop(Val::Reg(2))
// 2146: Opcode::Pop(Val::Reg(1))
// 2148: Opcode::Ret
#[test]
fn patching_2125() {

    let mut prog = vec![Opcode::Call(Val::Num(2125))];
    prog.extend([Opcode::Noop].repeat(2125 - Opcode::Call(Val::Num(0)).size()));

    prog.extend_from_slice(&[
        Opcode::Push(Val::Reg(1)),
        Opcode::Push(Val::Reg(2)),
        Opcode::And(Val::Reg(2), Val::Reg(0), Val::Reg(1)),
        Opcode::Not(Val::Reg(2), Val::Reg(2)),
        Opcode::Or(Val::Reg(0), Val::Reg(0), Val::Reg(1)),
        Opcode::And(Val::Reg(0), Val::Reg(0), Val::Reg(2)),
        Opcode::Pop(Val::Reg(2)),
        Opcode::Pop(Val::Reg(1)),
        Opcode::Ret,
    ]);

    let prog = Opcode::assemble_vec(&prog);

    assert!(prog.len() == 2149);

    let mut vm = Vm::new();
    vm.load_program_from_mem(&prog);

    let mut vm1 = vm.clone();
    let mut vm2 = vm.clone();

    // Compare the two machines once both calls have returned: with
    // nothing but noops after the call, both run on into the routine
    // body and halt at its return on an empty stack.
    println!("vm1");
    let executed = vm1.run_until(StopVmState::new(&[VmState::Halted])).unwrap();
    for (offset, op) in executed.iter().take(4) {
        println!("{}: {}", offset, opcode_text(op));
    }

    println!();
    println!("vm2");
    vm2.set_fn_patching(true);
    let executed = vm2.run_until(StopVmState::new(&[VmState::Halted])).unwrap();
    for (offset, op) in executed.iter().take(4) {
        println!("{}: {}", offset, opcode_text(op));
    }

    assert_eq!(vm1, vm2);
}

#[test]
fn parse_opcode() {
    let input = "Set(Reg(1), 1531)
Gt(Reg(1), Reg(2), Reg(1))
Jf(Reg(1), 5636)
Ret
Add(Reg(2), 10666, 956)";

    let instructions: Vec<Opcode> = input
        .lines()
        .map(|line| line.parse::<Opcode>().unwrap())
        .collect();

    let expected = [
        Opcode::Assign(Val::Reg(1), Val::Num(1531)),
        Opcode::Gt(Val::Reg(1), Val::Reg(2), Val::Reg(1)),
        Opcode::Jf(Val::Reg(1), Val::Num(5636)),
        Opcode::Ret,
        Opcode::Add(Val::Reg(2), Val::Num(10666), Val::Num(956)),
    ];

    assert_eq!(instructions, expected)
}

#[test]
fn run_until_ret() {
    let prog = vec![
        Opcode::Call(Val::Num(3)),
        Opcode::Halt,
        Opcode::Call(Val::Num(6)),
        Opcode::Ret,
        Opcode::Assign(Val::Reg(0), Val::Num(20)),
        Opcode::Ret,
    ];
    let prog = Opcode::assemble_vec(&prog);

    let mut vm = Vm::new();
    vm.load_program_from_mem(&prog);

    let x = vm.disassemble(0, 6).unwrap();
    println!("Disassembly:");
    for (offset, op) in &x {
        println!("{}: {}", offset, opcode_text(op));
    }
    println!();

    let executed = vm.run_until(StopRet::new()).unwrap();
    println!("Executed:");
    for (offset, op) in &executed {
        println!("xx {}: {}", offset, opcode_text(op));
    }

    // The nested call returns first; the driver stops at the return
    // that balances the outer call, without executing it.
    assert_eq!(executed.len(), 4);
    assert_eq!(
        executed.iter().map(|(o, _)| *o).collect::<Vec<_>>(),
        vec![0, 3, 6, 9]
    );
    assert_eq!(vm.get_ip(), 5);
    assert_eq!(vm.get_state(), VmState::Running);
    assert_eq!(vm.get_registers()[0], 20);
}
