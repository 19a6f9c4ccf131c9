//! A tiny three-register virtual machine.
//!
//! A program is a list of instructions, each an opcode with one operand.
//! Operands are literal or "combo": combo values 4 to 6 name the registers.
//! The machine supports divisions by powers of two, XOR mixing, a modulo-8
//! output and a conditional jump. Its semantics is given by a step function
//! over a mathematical machine state; `run` is proved to follow it exactly.

use vstd::arithmetic::power2::{
    lemma2_to64, lemma2_to64_rest, lemma_pow2_strictly_increases, lemma_pow2_unfold, pow2,
};
use vstd::prelude::*;

verus! {

/// How an instruction interprets its operand.
#[derive(Debug, Copy, Clone, PartialEq, Eq, Structural)]
pub enum OperandType {
    Literal,
    Combo,
    Ignore,
}

/// The eight opcodes, and a marker for anything else.
#[derive(Debug, Copy, Clone, PartialEq, Eq, Structural)]
pub enum InstructionType {
    Adv,
    Bxl,
    Bst,
    Jnz,
    Bxc,
    Out,
    Bdv,
    Cdv,
    Illegal,
}

/// One decoded instruction.
#[derive(Debug, Copy, Clone, PartialEq, Eq, Structural)]
pub struct Instruction {
    pub instruction_type: InstructionType,
    pub operand_type: OperandType,
    pub operand: i64,
}

/// The instruction an opcode and operand decode to.
pub open spec fn spec_instruction(instruction: i64, operand: i64) -> Instruction {
    let (instruction_type, operand_type) = match instruction {
        0 => (InstructionType::Adv, OperandType::Combo),
        1 => (InstructionType::Bxl, OperandType::Literal),
        2 => (InstructionType::Bst, OperandType::Combo),
        3 => (InstructionType::Jnz, OperandType::Literal),
        4 => (InstructionType::Bxc, OperandType::Ignore),
        5 => (InstructionType::Out, OperandType::Combo),
        6 => (InstructionType::Bdv, OperandType::Combo),
        7 => (InstructionType::Cdv, OperandType::Combo),
        _ => (InstructionType::Illegal, OperandType::Ignore),
    };
    Instruction { instruction_type, operand_type, operand }
}

/// The opcode an instruction encodes back to.
pub open spec fn spec_opcode(it: InstructionType) -> i64 {
    match it {
        InstructionType::Adv => 0,
        InstructionType::Bxl => 1,
        InstructionType::Bst => 2,
        InstructionType::Jnz => 3,
        InstructionType::Bxc => 4,
        InstructionType::Out => 5,
        InstructionType::Bdv => 6,
        InstructionType::Cdv => 7,
        InstructionType::Illegal => 8,
    }
}

/// The machine: three registers, an instruction pointer, the output
/// collected so far, and the program.
#[derive(Clone, Debug)]
pub struct Computer {
    pub a: i64,
    pub b: i64,
    pub c: i64,
    pub ip: usize,
    pub out: Vec<i64>,
    pub program: Vec<Instruction>,
}

/// The mathematical state of the machine, without the program.
pub struct MachineState {
    pub a: i64,
    pub b: i64,
    pub c: i64,
    pub ip: int,
    pub out: Seq<i64>,
}

impl Computer {
    /// The mathematical state this machine is in.
    pub open spec fn st(self) -> MachineState {
        MachineState { a: self.a, b: self.b, c: self.c, ip: self.ip as int, out: self.out@ }
    }
}

/// The value an instruction's operand denotes in a state: combo values 4 to
/// 6 read a register, everything else is the literal.
pub open spec fn spec_operand_val(inst: Instruction, s: MachineState) -> int {
    if inst.operand_type == OperandType::Combo {
        match inst.operand {
            4 => s.a as int,
            5 => s.b as int,
            6 => s.c as int,
            _ => inst.operand as int,
        }
    } else {
        inst.operand as int
    }
}

impl Instruction {
    /// Decodes an opcode and operand.
    pub fn new(instruction: i64, operand: i64) -> (r: Self)
        ensures
            r == spec_instruction(instruction, operand),
    {
        let (instruction_type, operand_type) = match instruction {
            0 => (InstructionType::Adv, OperandType::Combo),
            1 => (InstructionType::Bxl, OperandType::Literal),
            2 => (InstructionType::Bst, OperandType::Combo),
            3 => (InstructionType::Jnz, OperandType::Literal),
            4 => (InstructionType::Bxc, OperandType::Ignore),
            5 => (InstructionType::Out, OperandType::Combo),
            6 => (InstructionType::Bdv, OperandType::Combo),
            7 => (InstructionType::Cdv, OperandType::Combo),
            _ => (InstructionType::Illegal, OperandType::Ignore),
        };
        Self { instruction_type, operand_type, operand }
    }

    /// The operand value in the machine's current state.
    pub fn get_operand(&self, computer: &Computer) -> (r: i64)
        ensures
            r == spec_operand_val(*self, computer.st()),
    {
        if self.operand_type == OperandType::Combo {
            match self.operand {
                4 => computer.a,
                5 => computer.b,
                6 => computer.c,
                _ => self.operand,
            }
        } else {
            self.operand
        }
    }

    /// Register `a`, divided by two to the operand value and rounded down:
    /// the shared core of the three division opcodes.
    pub fn xdv(&self, computer: &Computer) -> (r: i64)
        requires
            computer.a >= 0,
            0 <= spec_operand_val(*self, computer.st()) <= 62,
        ensures
            r == computer.a as int / pow2(spec_operand_val(*self, computer.st()) as nat) as int,
    {
        let operand = self.get_operand(computer);
        let mut denominator: i64 = 1;
        let mut k: i64 = 0;
        proof {
            lemma2_to64();
        }
        while k < operand
            invariant
                0 <= k <= operand <= 62,
                denominator == pow2(k as nat),
                1 <= denominator <= 0x4000_0000_0000_0000,
            decreases operand - k,
        {
            proof {
                lemma_pow2_unfold((k + 1) as nat);
                if k + 1 < 62 {
                    lemma_pow2_strictly_increases((k + 1) as nat, 62);
                }
                lemma2_to64();
                lemma2_to64_rest();
            }
            denominator = denominator * 2;
            k = k + 1;
        }
        let frac: i64 = computer.a / denominator;
        frac
    }

    /// Register `b`, XORed with the operand value.
    pub fn bxl(&self, computer: &Computer) -> (r: i64)
        ensures
            r == computer.b ^ self.operand,
    {
        computer.b ^ self.operand
    }

    /// The operand value, modulo 8.
    pub fn bst(&self, computer: &Computer) -> (r: i64)
        requires
            spec_operand_val(*self, computer.st()) >= 0,
        ensures
            r == spec_operand_val(*self, computer.st()) % 8,
    {
        let operand = self.get_operand(computer);
        operand % 8
    }

    /// The next instruction index: half the operand when register `a` is
    /// not zero (the program counts in opcode-operand pairs), otherwise the
    /// following instruction.
    pub fn jnz(&self, computer: &Computer) -> (r: i64)
        requires
            computer.a != 0 ==> spec_operand_val(*self, computer.st()) >= 0,
            computer.a == 0 ==> computer.ip + 1 <= i64::MAX && computer.ip + 1 <= usize::MAX,
        ensures
            r == if computer.a != 0 {
                spec_operand_val(*self, computer.st()) / 2
            } else {
                computer.ip + 1
            },
    {
        let operand = self.get_operand(computer);
        if computer.a != 0 {
            operand / 2
        } else {
            (computer.ip + 1) as i64
        }
    }

    /// Registers `b` and `c`, XORed.
    pub fn bxc(&self, computer: &Computer) -> (r: i64)
        ensures
            r == computer.b ^ computer.c,
    {
        computer.b ^ computer.c
    }

    /// The operand value modulo 8: one output element.
    pub fn out(&self, computer: &Computer) -> (r: i64)
        requires
            spec_operand_val(*self, computer.st()) >= 0,
        ensures
            r == spec_operand_val(*self, computer.st()) % 8,
    {
        let operand = self.get_operand(computer);
        operand % 8
    }
}

/// A state in which executing the instruction under the instruction
/// pointer would step outside the machine's domain: an unknown opcode, a
/// division by a power of two that does not fit, a negative value where a
/// key or jump target is expected, or a jump target that does not fit the
/// pointer. The machine is never run into such a state.
pub open spec fn inst_fault(inst: Instruction, s: MachineState) -> bool {
    let opv = spec_operand_val(inst, s);
    match inst.instruction_type {
        InstructionType::Adv | InstructionType::Bdv | InstructionType::Cdv => !(s.a >= 0 && 0
            <= opv <= 62),
        InstructionType::Bst | InstructionType::Out => opv < 0,
        InstructionType::Jnz => if s.a != 0 {
            opv < 0 || opv / 2 > usize::MAX
        } else {
            s.ip + 1 > i64::MAX || s.ip + 1 > usize::MAX
        },
        InstructionType::Bxl | InstructionType::Bxc => false,
        InstructionType::Illegal => true,
    }
}

/// One step of the machine in a state where the instruction pointer is in
/// range: the next state, or `None` on a fault.
pub open spec fn spec_step(prog: Seq<Instruction>, s: MachineState) -> Option<MachineState> {
    let inst = prog[s.ip];
    let opv = spec_operand_val(inst, s);
    if inst_fault(inst, s) {
        None
    } else {
        match inst.instruction_type {
            InstructionType::Adv => Some(
                MachineState {
                    a: (s.a as int / pow2(opv as nat) as int) as i64,
                    ip: s.ip + 1,
                    ..s
                },
            ),
            InstructionType::Bxl => Some(
                MachineState { b: s.b ^ inst.operand, ip: s.ip + 1, ..s },
            ),
            InstructionType::Bst => Some(MachineState { b: (opv % 8) as i64, ip: s.ip + 1, ..s }),
            InstructionType::Jnz => Some(
                MachineState {
                    ip: if s.a != 0 {
                        opv / 2
                    } else {
                        s.ip + 1
                    },
                    ..s
                },
            ),
            InstructionType::Bxc => Some(MachineState { b: s.b ^ s.c, ip: s.ip + 1, ..s }),
            InstructionType::Out => Some(
                MachineState { out: s.out.push((opv % 8) as i64), ip: s.ip + 1, ..s },
            ),
            InstructionType::Bdv => Some(
                MachineState {
                    b: (s.a as int / pow2(opv as nat) as int) as i64,
                    ip: s.ip + 1,
                    ..s
                },
            ),
            InstructionType::Cdv => Some(
                MachineState {
                    c: (s.a as int / pow2(opv as nat) as int) as i64,
                    ip: s.ip + 1,
                    ..s
                },
            ),
            InstructionType::Illegal => None,
        }
    }
}

/// A state where the instruction pointer is outside the program, so the
/// machine has stopped.
pub open spec fn spec_halted(prog: Seq<Instruction>, s: MachineState) -> bool {
    !(0 <= s.ip < prog.len())
}

/// The state after `n` steps from `s`, or `None` if a fault happens on the
/// way. A halted state stays as it is.
pub open spec fn run_n(prog: Seq<Instruction>, s: MachineState, n: nat) -> Option<MachineState>
    decreases n,
{
    if n == 0 {
        Some(s)
    } else {
        match run_n(prog, s, (n - 1) as nat) {
            None => None,
            Some(t) => if spec_halted(prog, t) {
                Some(t)
            } else {
                spec_step(prog, t)
            },
        }
    }
}

/// A state from which the machine never faults, however long it runs.
pub open spec fn spec_safe(prog: Seq<Instruction>, s: MachineState) -> bool {
    forall|n: nat| run_n(prog, s, n) is Some
}

impl Computer {
    /// A machine about to run `program` with the given register contents.
    pub fn new(a: i64, b: i64, c: i64, program: Vec<Instruction>) -> (r: Self)
        ensures
            r.a == a && r.b == b && r.c == c && r.ip == 0,
            r.out@ == Seq::<i64>::empty(),
            r.program == program,
    {
        let r = Self { a, b, c, ip: 0, out: Vec::new(), program };
        proof {
            assert(r.out@ =~= Seq::<i64>::empty());
        }
        r
    }

    /// Runs the machine until it halts: the final state is what the step
    /// semantics reaches from the initial state. The machine must never
    /// fault; it may run forever, in which case this loops (for all
    /// practical purposes) forever too.
    pub fn run(&mut self)
        requires
            spec_safe(old(self).program@, old(self).st()),
        ensures
            final(self).program@ == old(self).program@,
            exists|n: nat|
                {
                    &&& #[trigger] run_n(old(self).program@, old(self).st(), n) == Some(
                        final(self).st(),
                    )
                    &&& n <= u64::MAX
                    &&& (spec_halted(old(self).program@, final(self).st()) || n == u64::MAX)
                },
    {
        let ghost prog = self.program@;
        let ghost s0 = self.st();
        let ghost mut steps: nat = 0nat;
        let mut fuel: u64 = u64::MAX;
        while self.ip < self.program.len() && fuel > 0
            invariant
                self.program@ == prog,
                spec_safe(prog, s0),
                run_n(prog, s0, steps) == Some(self.st()),
                steps + fuel == u64::MAX,
            decreases fuel,
        {
            let ghost prev = self.st();
            proof {
                assert(run_n(prog, s0, steps + 1) is Some);
                assert(spec_step(prog, prev) is Some);
                assert(!inst_fault(prog[prev.ip], prev));
            }
            let inst = self.program[self.ip];
            match inst.instruction_type {
                InstructionType::Adv => self.a = inst.xdv(self),
                InstructionType::Bxl => self.b = inst.bxl(self),
                InstructionType::Bst => self.b = inst.bst(self),
                InstructionType::Jnz => {
                    let target = inst.jnz(self);
                    self.ip = target as usize;
                },
                InstructionType::Bxc => self.b = inst.bxc(self),
                InstructionType::Out => {
                    let v = inst.out(self);
                    self.out.push(v);
                },
                InstructionType::Bdv => self.b = inst.xdv(self),
                InstructionType::Cdv => self.c = inst.xdv(self),
                InstructionType::Illegal => {
                    proof {
                        assert(false);
                    }
                },
            };
            if inst.instruction_type != InstructionType::Jnz {
                self.ip = self.ip + 1;
            }
            proof {
                assert(Some(self.st()) == spec_step(prog, prev));
                steps = steps + 1nat;
                assert(run_n(prog, s0, steps) == Some(self.st()));
            }
            fuel = fuel - 1;
        }
        proof {
            assert(run_n(prog, s0, steps) == Some(self.st()));
            assert(spec_halted(prog, self.st()) || steps == u64::MAX);
        }
    }

    /// The program, flattened back to the opcode and operand list it was
    /// decoded from.
    pub fn program_to_vec(&self) -> (r: Vec<i64>)
        ensures
            r@.len() == 2 * self.program@.len(),
            forall|i: int|
                0 <= i < self.program@.len() ==> r@[2 * i] == spec_opcode(
                    (#[trigger] self.program@[i]).instruction_type,
                ) && r@[2 * i + 1] == self.program@[i].operand,
    {
        let mut r: Vec<i64> = Vec::new();
        let mut i: usize = 0;
        while i < self.program.len()
            invariant
                0 <= i <= self.program@.len(),
                r@.len() == 2 * i,
                forall|t: int|
                    0 <= t < i ==> r@[2 * t] == spec_opcode(
                        (#[trigger] self.program@[t]).instruction_type,
                    ) && r@[2 * t + 1] == self.program@[t].operand,
            decreases self.program@.len() - i,
        {
            let inst = self.program[i];
            let opcode: i64 = match inst.instruction_type {
                InstructionType::Adv => 0,
                InstructionType::Bxl => 1,
                InstructionType::Bst => 2,
                InstructionType::Jnz => 3,
                InstructionType::Bxc => 4,
                InstructionType::Out => 5,
                InstructionType::Bdv => 6,
                InstructionType::Cdv => 7,
                InstructionType::Illegal => 8,
            };
            r.push(opcode);
            r.push(inst.operand);
            i = i + 1;
        }
        r
    }
}

} // verus!
