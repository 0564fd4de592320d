use std::collections::HashSet;

use oct::{rules_from_str, to_nimpos, xor, Octal};

fn run(game: &str, terms: usize) -> Octal {
    let rules = rules_from_str(game).unwrap();
    let mut octal = Octal::new(terms + 1, 1, rules);
    for n in 1..=terms {
        octal.calc(n);
    }
    octal
}

fn prefix(game: &str, terms: usize) -> Vec<usize> {
    run(game, terms).g[1..=terms].to_vec()
}

/// Every nimber reachable from heap `n` in one move, enumerated directly.
fn children(octal: &Octal, n: usize) -> HashSet<usize> {
    let mut out = HashSet::new();
    let r = &octal.rules;
    for &d in r.all.iter() {
        if n == d {
            out.insert(0);
        }
    }
    for &d in r.some.iter() {
        if n > d {
            out.insert(octal.g[n - d]);
        }
    }
    for &d in r.divide_all.iter() {
        if n > d {
            for i in 1..(n - d) {
                out.insert(octal.g[i] ^ octal.g[n - d - i]);
            }
        }
    }
    out
}

fn mex(s: &HashSet<usize>) -> usize {
    let mut m = 0;
    while s.contains(&m) {
        m += 1;
    }
    m
}

#[test]
fn officers_prefix() {
    // 0.6: take one token, leaving one heap or two.
    assert_eq!(prefix("0.6", 16), vec![0, 1, 2, 0, 1, 2, 3, 1, 2, 3, 4, 0, 3, 4, 2, 1]);
}

#[test]
fn game_0_4_prefix() {
    // 0.4: take one token and split the rest into two heaps; this is 0.07
    // one heap size later.
    assert_eq!(prefix("0.4", 16), vec![0, 0, 1, 1, 2, 0, 3, 1, 1, 0, 3, 3, 2, 2, 4, 0]);
    let kayles = prefix("0.07", 15);
    assert_eq!(prefix("0.4", 16)[1..], kayles[..]);
}

#[test]
fn dawsons_kayles_prefix() {
    assert_eq!(prefix("0.07", 16), vec![0, 1, 1, 2, 0, 3, 1, 1, 0, 3, 3, 2, 2, 4, 0, 5]);
    // From heap 2 on, the shifted table of Dawson's Kayles.
    assert_eq!(prefix("0.07", 17)[1..], [1, 1, 2, 0, 3, 1, 1, 0, 3, 3, 2, 2, 4, 0, 5, 2]);
}

#[test]
fn dawsons_chess_prefix() {
    assert_eq!(prefix("0.137", 16), vec![1, 1, 2, 0, 3, 1, 1, 0, 3, 3, 2, 2, 4, 0, 5, 2]);
}

#[test]
fn dawsons_chess_is_dawsons_kayles_shifted() {
    let chess = prefix("0.137", 300);
    let kayles = prefix("0.07", 301);
    assert_eq!(chess[..], kayles[1..]);
}

fn check_agreement(game: &str, terms: usize) {
    let rules = rules_from_str(game).unwrap();
    let len = rules.len;
    let mut octal = Octal::new(terms + 1, 1, rules);
    for n in 1..=terms {
        let reference = octal.def(n);
        if n > len {
            let fast = octal.rc(n);
            assert_eq!(fast, reference, "game {game} heap {n}");
        }
        octal.calc(n);
        assert_eq!(octal.g[n], reference);
    }
}

#[test]
fn rc_agrees_with_def_on_standard_games() {
    check_agreement("0.6", 200);
    check_agreement("0.4", 200);
    check_agreement("0.07", 400);
    check_agreement("0.137", 400);
}

#[test]
fn cross_check_reports_both_results() {
    let rules = rules_from_str("0.137").unwrap();
    let len = rules.len;
    let mut octal = Octal::new(201, 1, rules);
    for n in 1..=200 {
        if n > len {
            let (fast, reference) = octal.cross_check(n);
            assert_eq!(fast, reference, "heap {n}");
        }
        octal.calc(n);
    }
    let mut o = run("0.07", 30);
    let (fast, reference) = o.cross_check(30);
    assert_eq!(fast, reference);
    assert_eq!(reference, o.g[30]);
    assert_eq!(reference, 4);
}

#[test]
fn every_term_is_the_mex_of_its_children() {
    for game in ["0.6", "0.07", "0.137", "0.4"] {
        let octal = run(game, 150);
        for n in 1..=150 {
            assert_eq!(octal.g[n], mex(&children(&octal, n)), "game {game} heap {n}");
        }
    }
}

#[test]
fn def_of_first_heaps() {
    let rules = rules_from_str("0.07").unwrap();
    let mut octal = Octal::new(4, 1, rules);
    // Heap 1: no move. Heap 2: take both (nimber 0 child).
    assert_eq!(octal.def(1), 0);
    octal.calc(1);
    assert_eq!(octal.g[1], 1 - 1);
    assert_eq!(octal.def(2), 1);
}

fn check_buckets(octal: &Octal) {
    for p in 0..2usize {
        let active = if p == 0 { octal.even } else { octal.odd };
        if !active {
            assert!(octal.common[p].is_empty());
            assert!(octal.rares[p].is_empty());
            continue;
        }
        for n in 1..=octal.done {
            let np = to_nimpos(octal.g[n], n);
            let common = octal.common[p].contains(&np);
            let listed = octal.rares[p].iter().filter(|e| **e == (n, octal.g[n])).count();
            assert!(common != (listed == 1), "heap {n} parity {p}");
            assert!(listed <= 1);
        }
        let ns: Vec<usize> = octal.rares[p].iter().map(|e| e.0).collect();
        let mut sorted = ns.clone();
        sorted.sort();
        assert_eq!(ns, sorted);
    }
}

fn check_sidon(octal: &Octal) {
    for p in 0..2usize {
        let c = &octal.common[p];
        assert!(!c.contains(&p));
        for &a in c.iter() {
            for &b in c.iter() {
                assert!(!c.contains(&xor(a, b, p)));
            }
        }
    }
}

fn check_both_common(octal: &Octal) {
    for np in 0..octal.both_common.len() {
        let want = (!octal.even || octal.common[0].contains(&np))
            && (!octal.odd || octal.common[1].contains(&np));
        assert_eq!(octal.both_common.get(np), want, "tag {np}");
    }
}

#[test]
fn classifier_invariants_hold_after_runs() {
    for (game, terms) in [("0.6", 100), ("0.07", 300), ("0.137", 300), ("0.4444", 200)] {
        let octal = run(game, terms);
        check_buckets(&octal);
        check_sidon(&octal);
        check_both_common(&octal);
    }
}

#[test]
fn classifier_invariants_hold_after_every_step() {
    let rules = rules_from_str("0.4444").unwrap();
    let mut octal = Octal::new(130, 1, rules);
    for n in 1..130 {
        octal.calc(n);
        check_buckets(&octal);
        check_sidon(&octal);
        check_both_common(&octal);
    }
}

#[test]
fn runs_are_deterministic() {
    let a = run("0.137", 300);
    let b = run("0.137", 300);
    assert_eq!(a.g, b.g);
    assert_eq!(a.common, b.common);
    assert_eq!(a.rares, b.rares);
    assert_eq!(a.members, b.members);
    assert_eq!(a.counts, b.counts);
    assert_eq!(a.largest, b.largest);
}

#[test]
fn largest_bounds_every_term_and_grows_the_bitsets() {
    let octal = run("0.07", 300);
    let top = *octal.g[1..=300].iter().max().unwrap();
    assert_eq!(octal.largest, top);
    assert!(octal.seen.len() >= 2 * top + 2);
    assert!(octal.both_common.len() >= 4 * top + 2);
    assert_eq!(octal.counts.len(), 4 * top + 1);
}

#[test]
fn counts_record_every_tag() {
    let octal = run("0.6", 16);
    assert_eq!(octal.counts.iter().sum::<usize>(), 16);
    let mut expected = vec![0usize; octal.counts.len()];
    for n in 1..=16 {
        expected[to_nimpos(octal.g[n], n)] += 1;
    }
    assert_eq!(octal.counts, expected);
    // Nimber 0 at heaps 1, 4 and 12; nimber 1 at heaps 2, 5, 8 and 16.
    assert_eq!(octal.counts[to_nimpos(0, 0)], 2);
    assert_eq!(octal.counts[to_nimpos(0, 1)], 1);
    assert_eq!(octal.counts[to_nimpos(1, 0)], 3);
    assert_eq!(octal.counts[to_nimpos(1, 1)], 1);
}

#[test]
fn rares_and_commons_of_officers() {
    // Only odd divide moves: parity 0 stays empty.
    let octal = run("0.6", 16);
    assert!(!octal.even);
    assert!(octal.odd);
    assert!(octal.common[0].is_empty());
    assert!(octal.rares[0].is_empty());
    // The zero tag of parity 1 (nimber 0 at an odd heap) is never common:
    // heap 1 has nimber 0 and is a rare predecessor.
    assert!(!octal.common[1].contains(&1));
    assert!(octal.rares[1].contains(&(1, 0)));
    for &(i, r) in octal.rares[1].iter() {
        assert_eq!(octal.g[i], r);
    }
}

#[test]
fn add_to_common_applies_the_sidon_check() {
    let rules = rules_from_str("0.4").unwrap();
    let mut octal = Octal::new(2, 1, rules);
    // The zero tag of parity 1 is refused.
    assert!(!octal.add_to_common(1, 1));
    assert!(octal.add_to_common(2, 1));
    // Already common.
    assert!(octal.add_to_common(2, 1));
    // 2 ^ 2 ^ 1 = 1 is not common; 4 ^ 2 ^ 1 = 7 is not common: admitted.
    assert!(octal.add_to_common(4, 1));
    // 7 combines with 2 into 4 ^ ... : 7 ^ 2 ^ 1 = 4, which is common: refused.
    assert!(!octal.add_to_common(7, 1));
    assert_eq!(octal.members[1], vec![2, 4]);
}

#[test]
fn add_to_common_or_rare_lists_the_refused() {
    let rules = rules_from_str("0.4").unwrap();
    let mut octal = Octal::new(2, 1, rules);
    assert!(!octal.add_to_common_or_rare(3, 0, 1));
    assert_eq!(octal.rares[1], vec![(3, 0)]);
    assert!(octal.add_to_common_or_rare(2, 1, 1));
    assert!(octal.common[1].contains(&2));
}

#[test]
fn redo_common_keeps_the_classifier_valid() {
    let mut octal = run("0.137", 100);
    let g = octal.g.clone();
    octal.redo_common(100);
    assert_eq!(octal.g, g);
    check_buckets(&octal);
    check_sidon(&octal);
    check_both_common(&octal);
}

#[test]
fn resize_keeps_both_common_bits() {
    let mut octal = run("0.07", 20);
    let before: Vec<usize> = (0..octal.both_common.len()).filter(|&i| octal.both_common.get(i)).collect();
    let largest = octal.largest;
    octal.resize(largest + 40);
    assert_eq!(octal.largest, largest + 40);
    for &i in before.iter() {
        assert!(octal.both_common.get(i));
    }
    check_both_common(&octal);
    assert_eq!(octal.counts.len(), 4 * (largest + 40) + 1);
}

#[test]
fn redo_common_offers_frequent_tags_first() {
    let mut octal = run("0.6", 16);
    octal.redo_common(16);
    // Each tag was offered in order of decreasing count, ties by smaller
    // tag, so the admitted ones are listed in that order.
    let members = &octal.members[1];
    assert!(members.len() >= 2);
    for w in members.windows(2) {
        let (a, b) = (w[0], w[1]);
        let (ca, cb) = (octal.counts[a], octal.counts[b]);
        assert!(ca > cb || (ca == cb && a < b), "{a} ({ca}) before {b} ({cb})");
    }
    // Nimber 1 at an even heap is the most frequent tag of the first 16.
    assert_eq!(members[0], to_nimpos(1, 0));
}

#[test]
fn rc_on_dawsons_chess_heap_five() {
    let rules = rules_from_str("0.137").unwrap();
    let mut octal = Octal::new(17, 1, rules);
    for n in 1..=4 {
        octal.calc(n);
    }
    assert_eq!(octal.rc(5), 3);
    assert_eq!(octal.def(5), 3);
}
