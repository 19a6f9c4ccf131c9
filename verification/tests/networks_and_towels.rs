use puzzles::gates::{Gate, GateOp, Signal};
use puzzles::lan::Entry;
use puzzles::towels::solver;

fn towel_patterns() -> Vec<Vec<u8>> {
    ["r", "wr", "b", "g", "bwu", "rb", "gb", "br"]
        .iter()
        .map(|s| s.as_bytes().to_vec())
        .collect()
}

fn towel_designs() -> Vec<Vec<u8>> {
    ["brwrr", "bggr", "gbbr", "rrbgbr", "ubwu", "bwurrg", "brgr", "bbrgwb"]
        .iter()
        .map(|s| s.as_bytes().to_vec())
        .collect()
}

#[test]
fn towels_part_1_test() {
    assert_eq!(6, solver(&towel_patterns(), &towel_designs(), false));
}

#[test]
fn towels_part_2_test() {
    assert_eq!(16, solver(&towel_patterns(), &towel_designs(), true));
}

fn lan_example() -> Vec<Entry> {
    let edges = [
        "kh-tc", "qp-kh", "de-cg", "ka-co", "yn-aq", "qp-ub", "cg-tb", "vc-aq", "tb-ka",
        "wh-tc", "yn-cg", "kh-ub", "ta-co", "de-co", "tc-td", "tb-wq", "wh-td", "ta-ka",
        "td-qp", "aq-cg", "wq-ub", "ub-vc", "de-ta", "wq-aq", "wq-vc", "wh-yn", "ka-de",
        "kh-ta", "co-tc", "wh-qp", "tb-vc", "td-yn",
    ];
    let mut net: Vec<Entry> = Vec::new();
    for e in edges.iter() {
        let b = e.as_bytes();
        let u = (b[0], b[1]);
        let v = (b[3], b[4]);
        for (from, to) in [(u, v), (v, u)] {
            match net.iter_mut().find(|entry| entry.node == from) {
                Some(entry) => entry.peers.push(to),
                None => net.push(Entry { node: from, peers: vec![to] }),
            }
        }
    }
    net
}

#[test]
fn lan_part_1_test() {
    assert_eq!(puzzles::lan::group_three(&lan_example()), 7);
}

#[test]
fn main_part_2_test() {
    assert_eq!(puzzles::lan::passwd(&lan_example()), b"co,de,ka,ta".to_vec());
}

fn wire(name: &str) -> u32 {
    let b = name.as_bytes();
    (b[0] as u32) * 0x10000 + (b[1] as u32) * 0x100 + b[2] as u32
}

fn parse_device(init: &[(&str, u8)], gate_text: &[&str]) -> (Vec<Signal>, Vec<Gate>) {
    let mut signals: Vec<Signal> = Vec::new();
    let mut gates: Vec<Gate> = Vec::new();
    for (name, val) in init.iter() {
        signals.push(Signal { name: wire(name), val: *val });
    }
    for line in gate_text.iter() {
        let parts: Vec<&str> = line.split(' ').collect();
        let op = match parts[1] {
            "AND" => GateOp::And,
            "OR" => GateOp::Or,
            _ => GateOp::Xor,
        };
        let (a, b, out) = (wire(parts[0]), wire(parts[2]), wire(parts[4]));
        gates.push(Gate { a, op, b, out });
        for w in [a, b, out] {
            if !signals.iter().any(|s| s.name == w) {
                signals.push(Signal { name: w, val: 255 });
            }
        }
    }
    (signals, gates)
}

#[test]
fn part_1_1_test() {
    let (signals, gates) = parse_device(
        &[("x00", 1), ("x01", 1), ("x02", 1), ("y00", 0), ("y01", 1), ("y02", 0)],
        &[
            "x00 AND y00 -> z00",
            "x01 XOR y01 -> z01",
            "x02 OR y02 -> z02",
        ],
    );
    assert_eq!(puzzles::gates::part1(&signals, &gates), 4);
}

#[test]
fn part_1_2_test() {
    let (signals, gates) = parse_device(
        &[
            ("x00", 1), ("x01", 0), ("x02", 1), ("x03", 1), ("x04", 0),
            ("y00", 1), ("y01", 1), ("y02", 1), ("y03", 1), ("y04", 1),
        ],
        &[
            "ntg XOR fgs -> mjb",
            "y02 OR x01 -> tnw",
            "kwq OR kpj -> z05",
            "x00 OR x03 -> fst",
            "tgd XOR rvg -> z01",
            "vdt OR tnw -> bfw",
            "bfw AND frj -> z10",
            "ffh OR nrd -> bqk",
            "y00 AND y03 -> djm",
            "y03 OR y00 -> psh",
            "bqk OR frj -> z08",
            "tnw OR fst -> frj",
            "gnj AND tgd -> z11",
            "bfw XOR mjb -> z00",
            "x03 OR x00 -> vdt",
            "gnj AND wpb -> z02",
            "x04 AND y00 -> kjc",
            "djm OR pbm -> qhw",
            "nrd AND vdt -> hwm",
            "kjc AND fst -> rvg",
            "y04 OR y02 -> fgs",
            "y01 AND x02 -> pbm",
            "ntg OR kjc -> kwq",
            "psh XOR fgs -> tgd",
            "qhw XOR tgd -> z09",
            "pbm OR djm -> kpj",
            "x03 XOR y03 -> ffh",
            "x00 XOR y04 -> ntg",
            "bfw OR bqk -> z06",
            "nrd XOR fgs -> wpb",
            "frj XOR qhw -> z04",
            "bqk AND frj -> z07",
            "y03 OR x01 -> nrd",
            "hwm AND bqk -> z03",
            "tgd XOR rvg -> z12",
            "tnw OR pbm -> gnj",
        ],
    );
    assert_eq!(puzzles::gates::part1(&signals, &gates), 2024);
}
