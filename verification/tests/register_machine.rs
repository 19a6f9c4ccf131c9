use puzzles::register_vm::{Computer, Instruction};

fn machine(a: i64, b: i64, c: i64, instructions: Vec<Instruction>) -> Computer {
    Computer { a, b, c, ip: 0, out: Vec::new(), program: instructions }
}

#[test]
fn step1() {
    let instructions = vec![Instruction::new(2, 6)];
    let mut computer = machine(0, 0, 9, instructions);
    computer.run();
    assert_eq!(computer.b, 1);
}

#[test]
fn step2() {
    let instructions = vec![
        Instruction::new(5, 0),
        Instruction::new(5, 1),
        Instruction::new(5, 4),
    ];
    let mut computer = machine(10, 0, 0, instructions);
    computer.run();
    assert_eq!(computer.out, vec!(0, 1, 2));
}

#[test]
fn step3() {
    let instructions = vec![
        Instruction::new(0, 1),
        Instruction::new(5, 4),
        Instruction::new(3, 0),
    ];
    let mut computer = machine(2024, 0, 0, instructions);
    computer.run();
    assert_eq!(computer.out, vec!(4, 2, 5, 6, 7, 7, 7, 7, 3, 1, 0));
}

#[test]
fn step4() {
    let instructions = vec![Instruction::new(1, 7)];
    let mut computer = machine(0, 29, 0, instructions);
    computer.run();
    assert_eq!(computer.b, 26);
}

#[test]
fn step5() {
    let instructions = vec![Instruction::new(4, 0)];
    let mut computer = machine(0, 2024, 43690, instructions);
    computer.run();
    assert_eq!(computer.b, 44354);
}

#[test]
fn adv() {
    let instructions = vec![Instruction::new(0, 2)];
    let mut computer = machine(8, 0, 0, instructions);
    computer.run();
    assert_eq!(computer.a, 2);
    assert_eq!(computer.b, 0);
    assert_eq!(computer.c, 0);
    assert_eq!(computer.ip, 1);
    assert!(computer.out.is_empty());
}

#[test]
fn bxl() {
    let instructions = vec![Instruction::new(1, 2)];
    let mut computer = machine(0, 8, 0, instructions);
    computer.run();
    assert_eq!(computer.a, 0);
    assert_eq!(computer.b, 10);
    assert_eq!(computer.c, 0);
    assert_eq!(computer.ip, 1);
    assert!(computer.out.is_empty());
}

#[test]
fn bst() {
    let instructions = vec![Instruction::new(2, 5)];
    let mut computer = machine(0, 9, 0, instructions);
    computer.run();
    assert_eq!(computer.a, 0);
    assert_eq!(computer.b, 1);
    assert_eq!(computer.c, 0);
    assert_eq!(computer.ip, 1);
    assert!(computer.out.is_empty());
}

#[test]
fn jnz() {
    let instructions = vec![Instruction::new(3, 4)];
    let mut computer = machine(0, 0, 0, instructions);
    computer.run();
    assert_eq!(computer.a, 0);
    assert_eq!(computer.b, 0);
    assert_eq!(computer.c, 0);
    assert_eq!(computer.ip, 1);
    assert!(computer.out.is_empty());
    computer.a = 1;
    computer.ip = 0;
    computer.run();
    assert_eq!(computer.a, 1);
    assert_eq!(computer.b, 0);
    assert_eq!(computer.c, 0);
    assert_eq!(computer.ip, 2);
    assert!(computer.out.is_empty());
}

#[test]
fn bxc() {
    let instructions = vec![Instruction::new(4, 0)];
    let mut computer = machine(0, 8, 2, instructions);
    computer.run();
    assert_eq!(computer.a, 0);
    assert_eq!(computer.b, 10);
    assert_eq!(computer.c, 2);
    assert_eq!(computer.ip, 1);
    assert!(computer.out.is_empty());
}

#[test]
fn out() {
    let instructions = vec![Instruction::new(5, 4)];
    let mut computer = machine(17, 0, 0, instructions);
    computer.run();
    assert_eq!(computer.a, 17);
    assert_eq!(computer.b, 0);
    assert_eq!(computer.c, 0);
    assert_eq!(computer.ip, 1);
    assert_eq!(computer.out, vec!(1));
}

#[test]
fn bdv() {
    let instructions = vec![Instruction::new(6, 2)];
    let mut computer = machine(8, 0, 0, instructions);
    computer.run();
    assert_eq!(computer.a, 8);
    assert_eq!(computer.b, 2);
    assert_eq!(computer.c, 0);
    assert_eq!(computer.ip, 1);
    assert!(computer.out.is_empty());
}

#[test]
fn cdv() {
    let instructions = vec![Instruction::new(7, 2)];
    let mut computer = machine(8, 0, 0, instructions);
    computer.run();
    assert_eq!(computer.a, 8);
    assert_eq!(computer.b, 0);
    assert_eq!(computer.c, 2);
    assert_eq!(computer.ip, 1);
    assert!(computer.out.is_empty());
}

#[test]
fn part1_test() {
    let program: Vec<i64> = vec![0, 1, 5, 4, 3, 0];
    let instructions: Vec<Instruction> = program
        .chunks(2)
        .map(|p| Instruction::new(p[0], p[1]))
        .collect();
    let mut computer = Computer::new(729, 0, 0, instructions);
    computer.run();
    assert_eq!(computer.out, vec!(4, 6, 3, 5, 6, 3, 5, 2, 1, 0));
    assert_eq!(computer.program_to_vec(), program);
}
