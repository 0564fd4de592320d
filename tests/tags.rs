use oct::{from_nimpos, to_nimpos, xor};

#[test]
fn nimpos_packs_nimber_and_parity() {
    assert_eq!(to_nimpos(5, 4), 10);
    assert_eq!(to_nimpos(5, 7), 11);
    assert_eq!(to_nimpos(0, 1), 1);
    assert_eq!(from_nimpos(11), (5, 1));
    assert_eq!(from_nimpos(10), (5, 0));
}

#[test]
fn nimpos_round_trip() {
    for g in 0..50usize {
        for n in 0..9usize {
            assert_eq!(from_nimpos(to_nimpos(g, n)), (g, n % 2));
        }
    }
}

#[test]
fn xor_combines_nimbers_and_parities() {
    // (3, 1) with (5, 0) across an odd move: nimber 6, parity 1 ^ 0 ^ 1 = 0.
    assert_eq!(xor(to_nimpos(3, 1), to_nimpos(5, 0), 3), to_nimpos(6, 0));
    assert_eq!(xor(to_nimpos(3, 1), to_nimpos(5, 0), 2), to_nimpos(6, 1));
    assert_eq!(xor(7, 7, 1), 1);
    assert_eq!(xor(7, 7, 0), 0);
}

#[test]
fn xor_commutes_and_associates() {
    for a in 0..16usize {
        for b in 0..16usize {
            for c in 0..8usize {
                for d1 in 0..3usize {
                    assert_eq!(xor(a, b, d1), xor(b, a, d1));
                    for d2 in 0..3usize {
                        assert_eq!(xor(xor(a, b, d1), c, d2), xor(a, xor(b, c, d1), d2));
                    }
                }
            }
        }
    }
}

#[test]
fn nimpos_round_trip_for_large_nimbers() {
    let g = usize::MAX / 2;
    assert_eq!(from_nimpos(to_nimpos(g, 3)), (g, 1));
    assert_eq!(to_nimpos(g, 3), usize::MAX);
    let big = 1usize << 30;
    assert_eq!(xor(to_nimpos(big, 1), to_nimpos(3, 0), 1), to_nimpos(big ^ 3, 0));
}
