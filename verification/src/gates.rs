//! A boolean gate device.
//!
//! Wires carry bits; gates combine two wires with AND, OR or XOR into a
//! third. Starting from the given wire values, gates whose inputs are
//! known are evaluated round after round until every output wire (the
//! `z` wires) carries a bit; read bottom to top, those bits form the
//! number the device displays.

use vstd::arithmetic::power2::pow2;
use vstd::prelude::*;

verus! {

/// A gate operation.
#[derive(Debug, Clone, Copy, PartialEq, Eq, Structural)]
pub enum GateOp {
    And,
    Or,
    Xor,
}

/// One wire: its three-letter name packed into a `u32`, and its bit, with
/// `255` for "not yet known".
#[derive(Debug, Clone, Copy, PartialEq, Eq, Structural)]
pub struct Signal {
    pub name: u32,
    pub val: u8,
}

/// One gate: two input wires, the operation, and the output wire.
#[derive(Debug, Clone, Copy, PartialEq, Eq, Structural)]
pub struct Gate {
    pub a: u32,
    pub op: GateOp,
    pub b: u32,
    pub out: u32,
}

/// The value of a wire, or `255` when the wire is absent or not yet
/// known.
pub open spec fn wire_val(sig: Seq<Signal>, name: u32) -> u8
    decreases sig.len(),
{
    if sig.len() == 0 {
        255
    } else if sig[0].name == name {
        sig[0].val
    } else {
        wire_val(sig.drop_first(), name)
    }
}

/// The result of a gate whose inputs are both known: the operation
/// applied to the two bits, where any nonzero byte counts as a set bit.
pub open spec fn gate_result(op: GateOp, a: u8, b: u8) -> u8 {
    let ab = a != 0;
    let bb = b != 0;
    let r = match op {
        GateOp::And => ab && bb,
        GateOp::Or => ab || bb,
        GateOp::Xor => ab != bb,
    };
    if r {
        1
    } else {
        0
    }
}

/// One evaluation round: every wire that is unknown but is the output of
/// a gate with two known inputs receives its value; everything else is
/// kept.
pub open spec fn spec_round(sig: Seq<Signal>, gates: Seq<Gate>) -> Seq<Signal> {
    sig.map_values(
        |s: Signal|
            if s.val == 255 {
                match find_gate(gates, s.name) {
                    Some(g) => if wire_val(sig, g.a) != 255 && wire_val(sig, g.b) != 255 {
                        Signal { name: s.name, val: gate_result(g.op, wire_val(sig, g.a), wire_val(sig, g.b)) }
                    } else {
                        s
                    },
                    None => s,
                }
            } else {
                s
            },
    )
}

/// Which rule drives the given wire, if any.
pub open spec fn find_gate(gates: Seq<Gate>, out: u32) -> Option<Gate>
    decreases gates.len(),
{
    if gates.len() == 0 {
        None
    } else if gates[0].out == out {
        Some(gates[0])
    } else {
        find_gate(gates.drop_first(), out)
    }
}

/// The signals after `n` evaluation rounds.
pub open spec fn rounds(sig: Seq<Signal>, gates: Seq<Gate>, n: nat) -> Seq<Signal>
    decreases n,
{
    if n == 0 {
        sig
    } else {
        spec_round(rounds(sig, gates, (n - 1) as nat), gates)
    }
}

/// The packed name of output wire number `c`: `z`, then two decimal
/// digits.
pub open spec fn z_name(c: int) -> u32 {
    (122 * 0x10000 + (48 + c / 10) * 0x100 + (48 + c % 10)) as u32
}

/// Every output wire present among the signals carries a bit.
pub open spec fn outputs_defined(sig: Seq<Signal>) -> bool {
    forall|i: int|
        0 <= i < sig.len() && (#[trigger] sig[i]).name >> 16 == 122 ==> sig[i].val != 255
}

/// The number the output wires display: the bit of wire `z00` is worth 1,
/// of `z01` 2, and so on; absent wires contribute nothing. `c` is the
/// next wire to read.
pub open spec fn spec_output(sig: Seq<Signal>, c: int) -> int
    decreases 63 - c,
{
    if c < 0 || c >= 63 {
        0
    } else {
        (if wire_val(sig, z_name(c)) != 255 && wire_val(sig, z_name(c)) != 0 {
            pow2(c as nat) as int
        } else {
            0
        }) + spec_output(sig, c + 1)
    }
}

/// Looks a wire up.
fn get_wire(signals: &Vec<Signal>, name: u32) -> (r: u8)
    ensures
        r == wire_val(signals@, name),
{
    let mut i: usize = 0;
    proof {
        assert(signals@.skip(0) =~= signals@);
    }
    while i < signals.len()
        invariant
            0 <= i <= signals@.len(),
            wire_val(signals@, name) == wire_val(signals@.skip(i as int), name),
        decreases signals@.len() - i,
    {
        proof {
            assert(signals@.skip(i as int)[0] == signals@[i as int]);
            assert(signals@.skip(i as int).drop_first() =~= signals@.skip(i + 1));
        }
        if signals[i].name == name {
            return signals[i].val;
        }
        i = i + 1;
    }
    proof {
        assert(signals@.skip(signals@.len() as int) =~= Seq::<Signal>::empty());
    }
    255
}

/// Which rule drives the given wire, if any.
fn gate_for(gates: &Vec<Gate>, out: u32) -> (r: Option<Gate>)
    ensures
        r == find_gate(gates@, out),
{
    let mut i: usize = 0;
    proof {
        assert(gates@.skip(0) =~= gates@);
    }
    while i < gates.len()
        invariant
            0 <= i <= gates@.len(),
            find_gate(gates@, out) == find_gate(gates@.skip(i as int), out),
        decreases gates@.len() - i,
    {
        proof {
            assert(gates@.skip(i as int)[0] == gates@[i as int]);
            assert(gates@.skip(i as int).drop_first() =~= gates@.skip(i + 1));
        }
        if gates[i].out == out {
            return Some(gates[i]);
        }
        i = i + 1;
    }
    proof {
        assert(gates@.skip(gates@.len() as int) =~= Seq::<Gate>::empty());
    }
    None
}

/// The computed bit for wire `key`, when both inputs of its driving
/// rule are known, and `255` otherwise — also when `key` already has a
/// value.
pub fn calc(signals: &Vec<Signal>, key: u32, gates: &Vec<Gate>) -> (r: u8)
    requires
        find_gate(gates@, key) is Some,
    ensures
        r == ({
            let g = find_gate(gates@, key).unwrap();
            if wire_val(signals@, key) == 255 && wire_val(signals@, g.a) != 255 && wire_val(
                signals@,
                g.b,
            ) != 255 {
                gate_result(g.op, wire_val(signals@, g.a), wire_val(signals@, g.b))
            } else {
                255
            }
        }),
{
    let g = gate_for(gates, key).unwrap();
    let cur = get_wire(signals, key);
    let s1 = get_wire(signals, g.a);
    let s2 = get_wire(signals, g.b);
    if cur == 255 && s1 != 255 && s2 != 255 {
        let s1b = s1 != 0;
        let s2b = s2 != 0;
        let s3b = match g.op {
            GateOp::And => s1b && s2b,
            GateOp::Or => s1b || s2b,
            GateOp::Xor => s1b != s2b,
        };
        if s3b {
            1
        } else {
            0
        }
    } else {
        255
    }
}

/// Are all the output wires known?
pub fn is_output_defined(signals: &Vec<Signal>) -> (r: bool)
    ensures
        r == outputs_defined(signals@),
{
    let mut i: usize = 0;
    while i < signals.len()
        invariant
            0 <= i <= signals@.len(),
            forall|t: int|
                0 <= t < i && (#[trigger] signals@[t]).name >> 16 == 122 ==> signals@[t].val
                    != 255,
        decreases signals@.len() - i,
    {
        if signals[i].name >> 16 == 122 && signals[i].val == 255 {
            return false;
        }
        i = i + 1;
    }
    true
}

/// Runs one evaluation round over all the wires.
pub fn step_round(signals: &mut Vec<Signal>, gates: &Vec<Gate>)
    ensures
        final(signals)@ == spec_round(old(signals)@, gates@),
{
    let ghost sig0 = signals@;
    let mut next: Vec<Signal> = Vec::new();
    let mut i: usize = 0;
    while i < signals.len()
        invariant
            sig0 == signals@,
            0 <= i <= sig0.len(),
            next@ =~= spec_round(sig0, gates@).take(i as int),
        decreases sig0.len() - i,
    {
        let s = signals[i];
        let mut ns = s;
        if s.val == 255 {
            match gate_for(gates, s.name) {
                Some(g) => {
                    let va = get_wire(signals, g.a);
                    let vb = get_wire(signals, g.b);
                    if va != 255 && vb != 255 {
                        ns = Signal { name: s.name, val: gate_result_exec(g.op, va, vb) };
                    }
                },
                None => {},
            }
        }
        next.push(ns);
        proof {
            assert(spec_round(sig0, gates@)[i as int] == ns);
        }
        i = i + 1;
    }
    proof {
        assert(next@ =~= spec_round(sig0, gates@));
    }
    *signals = next;
}

/// The operation applied to two known bytes.
fn gate_result_exec(op: GateOp, a: u8, b: u8) -> (r: u8)
    ensures
        r == gate_result(op, a, b),
{
    let ab = a != 0;
    let bb = b != 0;
    let rb = match op {
        GateOp::And => ab && bb,
        GateOp::Or => ab || bb,
        GateOp::Xor => ab != bb,
    };
    if rb {
        1
    } else {
        0
    }
}

/// The number on the output wires.
pub fn get_output(signals: &Vec<Signal>) -> (r: i64)
    ensures
        r == spec_output(signals@, 0),
{
    let mut r: i64 = 0;
    let mut c: usize = 63;
    while c > 0
        invariant
            0 <= c <= 63,
            0 <= r,
            r == spec_output(signals@, c as int),
        decreases c,
    {
        proof {
            lemma_spec_output_bound(signals@, c as int);
            lemma_spec_output_bound(signals@, c - 1);
            vstd::arithmetic::power2::lemma_pow2_unfold(c as nat);
            lemma_pow2_i64((c - 1) as nat);
            vstd::arithmetic::power2::lemma2_to64_rest();
        }
        let cc = c - 1;
        let name: u32 = 122 * 0x10000 + (48 + (cc as u32) / 10) * 0x100 + (48 + (cc as u32) % 10);
        proof {
            assert(name == z_name(cc as int));
        }
        let v = get_wire(signals, name);
        let bit: i64 = if v != 255 && v != 0 {
            proof {
                lemma_pow2_i64(cc as nat);
            }
            pow2_exec(cc)
        } else {
            0
        };
        r = r + bit;
        c = cc;
    }
    r
}

/// Two to the power `c`, for small `c`.
fn pow2_exec(c: usize) -> (r: i64)
    requires
        c < 63,
    ensures
        r == pow2(c as nat),
{
    proof {
        lemma_pow2_i64(c as nat);
    }
    let mut r: i64 = 1;
    let mut k: usize = 0;
    proof {
        vstd::arithmetic::power2::lemma2_to64();
    }
    while k < c
        invariant
            0 <= k <= c < 63,
            r == pow2(k as nat),
            1 <= r,
        decreases c - k,
    {
        proof {
            vstd::arithmetic::power2::lemma_pow2_unfold((k + 1) as nat);
            lemma_pow2_i64((k + 1) as nat);
        }
        r = r * 2;
        k = k + 1;
    }
    r
}

/// An output value read from wire `c` on is at most all the remaining
/// bits set.
proof fn lemma_spec_output_bound(sig: Seq<Signal>, c: int)
    requires
        0 <= c <= 63,
    ensures
        0 <= spec_output(sig, c) <= pow2(63) - pow2(c as nat),
    decreases 63 - c,
{
    vstd::arithmetic::power2::lemma2_to64_rest();
    if c < 63 {
        lemma_spec_output_bound(sig, c + 1);
        vstd::arithmetic::power2::lemma_pow2_unfold((c + 1) as nat);
        lemma_pow2_i64(c as nat);
    }
}

/// Powers of two below the 63rd fit in an `i64`.
proof fn lemma_pow2_i64(k: nat)
    requires
        k <= 62,
    ensures
        pow2(k) <= 0x4000_0000_0000_0000,
{
    if k < 62 {
        vstd::arithmetic::power2::lemma_pow2_strictly_increases(k, 62);
    }
    vstd::arithmetic::power2::lemma2_to64_rest();
}

/// The displayed number, evaluated from the starting wire values: rounds
/// of gate evaluation run until every output wire is known, which must
/// happen within the given number of rounds.
pub fn part1(signals: &Vec<Signal>, gates: &Vec<Gate>) -> (r: i64)
    requires
        exists|n: nat| n <= 0xFFFF && outputs_defined(#[trigger] rounds(signals@, gates@, n)),
    ensures
        exists|n: nat|
            n <= 0xFFFF && outputs_defined(#[trigger] rounds(signals@, gates@, n)) && r
                == spec_output(rounds(signals@, gates@, n), 0),
{
    let ghost n0 = choose|n: nat|
        n <= 0xFFFF && outputs_defined(#[trigger] rounds(signals@, gates@, n));
    let mut work: Vec<Signal> = Vec::new();
    let mut i: usize = 0;
    while i < signals.len()
        invariant
            0 <= i <= signals@.len(),
            work@ =~= signals@.take(i as int),
        decreases signals@.len() - i,
    {
        work.push(signals[i]);
        i = i + 1;
    }
    proof {
        assert(signals@.take(signals@.len() as int) =~= signals@);
    }
    let ghost mut steps: nat = 0nat;
    let mut fuel: usize = 0xFFFF;
    while !is_output_defined(&work)
        invariant
            work@ == rounds(signals@, gates@, steps),
            steps + fuel == 0xFFFF,
            n0 <= 0xFFFF && outputs_defined(rounds(signals@, gates@, n0)),
            steps <= n0,
        decreases fuel,
    {
        step_round(&mut work, gates);
        proof {
            steps = steps + 1nat;
        }
        fuel = fuel - 1;
    }
    get_output(&work)
}

} // verus!
