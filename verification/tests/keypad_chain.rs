use puzzles::keypad::{solve, solver, CostCache, Keypad};

fn codes(list: &[&str]) -> Vec<Vec<char>> {
    list.iter().map(|s| s.chars().collect()).collect()
}

#[test]
fn part_1_test() {
    let pins = codes(&["029A", "980A", "179A", "456A", "379A"]);
    assert_eq!(126384, solver(&pins, false).unwrap());
}

#[test]
fn long_chain_total() {
    let pins = codes(&["029A", "980A", "179A", "456A", "379A"]);
    assert_eq!(154115708116294u64, solver(&pins, true).unwrap());
}

#[test]
fn single_codes_short_chain() {
    assert_eq!(68, solve(&codes(&["029A"]), 2).unwrap() / 29);
    assert_eq!(1972, solve(&codes(&["029A"]), 2).unwrap());
    assert_eq!(58800, solve(&codes(&["980A"]), 2).unwrap());
    assert_eq!(12172, solve(&codes(&["179A"]), 2).unwrap());
}

#[test]
fn deterministic() {
    let pins = codes(&["029A", "379A"]);
    let a = solver(&pins, false).unwrap();
    let b = solver(&pins, false).unwrap();
    assert_eq!(a, b);
}

#[test]
fn longer_chain_never_cheaper() {
    // "029A" moves the cursor, so each added layer strictly raises the cost.
    let pins = codes(&["029A"]);
    let mut prev = solve(&pins, 0).unwrap();
    for chain in 1..6u64 {
        let total = solve(&pins, chain).unwrap();
        assert!(total > prev);
        prev = total;
    }
}

#[test]
fn rejects_bad_symbol() {
    let pins = codes(&["02*A"]);
    assert!(solver(&pins, false).is_err());
    let empty = codes(&[""]);
    assert!(solver(&empty, false).is_err());
    let misplaced = codes(&["0A9A"]);
    assert!(solver(&misplaced, false).is_err());
}

#[test]
fn path_enumeration_minimal_and_safe() {
    let pad = Keypad::numeric();
    // From A to 7: distance 5, so every path has 6 moves; the corner-most
    // route through the forbidden cell must not appear.
    let paths = pad.get_paths('A', '7').unwrap();
    assert!(!paths.is_empty());
    for p in &paths {
        assert_eq!(p.len(), 6);
        assert_eq!(*p.last().unwrap(), 'A');
        // walk and check the forbidden cell is avoided
        let (mut r, mut c) = (3i32, 2i32);
        for &m in p.iter() {
            match m {
                '<' => c -= 1,
                '>' => c += 1,
                '^' => r -= 1,
                'v' => r += 1,
                _ => {}
            }
            assert!(!(r == 3 && c == 0));
        }
        assert_eq!((r, c), (0, 0));
    }
    assert!(pad.get_paths('A', 'x').is_err());
}

#[test]
fn pair_cache_fills_once() {
    let n_pad = Keypad::numeric();
    let d_pad = Keypad::directional();
    let mut cache = CostCache::new(2);
    let first = puzzles::keypad::eval_pair(&n_pad, &d_pad, 'A', '0', 0, 2, &mut cache);
    let filled = cache.len();
    let second = puzzles::keypad::eval_pair(&n_pad, &d_pad, 'A', '0', 0, 2, &mut cache);
    assert_eq!(first, second);
    assert_eq!(filled, cache.len());
}

#[test]
fn read_data_splits_codes() {
    let lines: Vec<Vec<u8>> = vec![b"029A".to_vec(), b"980A".to_vec()];
    let parsed = puzzles::keypad::read_data(&lines);
    assert_eq!(parsed.len(), 2);
    assert_eq!(parsed[0], vec!['0', '2', '9', 'A']);
    assert_eq!(parsed[1], vec!['9', '8', '0', 'A']);
}

#[test]
fn resting_key_costs_one_press() {
    let n_pad = Keypad::numeric();
    let d_pad = Keypad::directional();
    for depth in 0..3u64 {
        let mut cache = CostCache::new(2);
        let pin = vec!['A'];
        let cost = puzzles::keypad::find_shortest_len(&n_pad, &d_pad, &pin, depth, 2, &mut cache);
        assert_eq!(cost, 1);
    }
}

#[test]
fn empty_sequence_costs_nothing() {
    let n_pad = Keypad::numeric();
    let d_pad = Keypad::directional();
    let mut cache = CostCache::new(2);
    let pin: Vec<char> = Vec::new();
    assert_eq!(puzzles::keypad::find_shortest_len(&n_pad, &d_pad, &pin, 0, 2, &mut cache), 0);
    assert_eq!(cache.len(), 0);
}
