use ffce_engine::ai::{disabled_extras, leads_to_repetition, shuffle, Rng, WatchAction, Watchdog};
use ffce_engine::board::{Board, Move};
use ffce_engine::constants::N_EXTRAS;

#[test]
fn same_seed_same_stream() {
    let mut a = Rng::new(42);
    let mut b = Rng::new(42);
    let mut c = Rng::new(43);
    let xs: Vec<u64> = (0..8).map(|_| a.next_u64()).collect();
    let ys: Vec<u64> = (0..8).map(|_| b.next_u64()).collect();
    let zs: Vec<u64> = (0..8).map(|_| c.next_u64()).collect();
    assert_eq!(xs, ys);
    assert_ne!(xs, zs);
}

#[test]
fn first_output_of_seed_zero() {
    // SplitMix64 seeding then one xorshift128+ step, computed by hand.
    let gamma: u64 = 0x9E37_79B9_7F4A_7C15;
    let mix = |z: u64| {
        let mut x = z;
        x = (x ^ (x >> 30)).wrapping_mul(0xBF58_476D_1CE4_E5B9);
        x = (x ^ (x >> 27)).wrapping_mul(0x94D0_49BB_1331_11EB);
        x ^ (x >> 31)
    };
    let z1 = 0u64.wrapping_add(gamma).wrapping_add(gamma);
    let z2 = z1.wrapping_add(gamma);
    let s0 = mix(z1) | 1;
    let s1 = mix(z2) | 1;
    let mut x = s0;
    x ^= x << 23;
    x ^= x >> 17;
    x ^= s1 ^ (s1 >> 26);
    let expected = x.wrapping_add(s1);
    let mut r = Rng::new(0);
    assert_eq!(r.next_u64(), expected);
}

#[test]
fn rand_usize_in_range() {
    let mut r = Rng::new(7);
    for n in 1..50usize {
        assert!(r.rand_usize(n) < n);
    }
    assert_eq!(r.rand_usize(0), 0);
}

#[test]
fn rand_usize_zero_keeps_the_stream() {
    let mut a = Rng::new(5);
    let mut b = Rng::new(5);
    assert_eq!(a.rand_usize(0), 0);
    assert_eq!(a.next_u64(), b.next_u64());
}

#[test]
fn shuffle_is_a_permutation() {
    let mut r = Rng::new(99);
    let mut v: Vec<usize> = (0..10).collect();
    shuffle(&mut v, &mut r);
    let mut sorted = v.clone();
    sorted.sort();
    assert_eq!(sorted, (0..10).collect::<Vec<usize>>());
    let mut w: Vec<usize> = (0..10).collect();
    shuffle(&mut w, &mut Rng::new(99));
    assert_eq!(v, w);
}

#[test]
fn disabled_extras_lists_the_off_switches() {
    let mut enabled = [false; N_EXTRAS];
    enabled[0] = true;
    enabled[5] = true;
    enabled[12] = true;
    assert_eq!(disabled_extras(&enabled), vec![1, 2, 3, 4, 6, 7, 8, 9, 10, 11]);
    assert_eq!(disabled_extras(&[true; N_EXTRAS]), Vec::<usize>::new());
    assert_eq!(disabled_extras(&[false; N_EXTRAS]).len(), N_EXTRAS);
}

#[test]
fn repetition_detection() {
    let b = Board::new();
    let m = Move::new(6, 0, 5, 2);
    let mut after = b.clone();
    after.apply_move(&m);
    let history = vec![after.position_hash()];
    assert!(leads_to_repetition(&b, &m, &history));
    assert!(!leads_to_repetition(&b, &Move::new(1, 0, 2, 2), &history));
    assert!(!leads_to_repetition(&b, &m, &[]));
}

#[test]
fn same_seed_same_values_over_mixed_calls() {
    let mut a = Rng::new(2024);
    let mut b = Rng::new(2024);
    for k in 0..50usize {
        if k % 3 == 0 {
            assert_eq!(a.next_u64(), b.next_u64());
        } else {
            assert_eq!(a.rand_usize(k), b.rand_usize(k));
        }
    }
    // a zero bound draws nothing, so the streams stay in step
    assert_eq!(a.rand_usize(0), 0);
    assert_eq!(a.next_u64(), b.next_u64());
}

#[test]
fn watchdog_switches_extras_on_in_shuffled_order_then_falls_back() {
    let mut enabled = [false; N_EXTRAS];
    enabled[0] = true;
    enabled[4] = true;
    enabled[7] = true;
    let mut order = disabled_extras(&enabled);
    let mut shadow = Rng::new(9);
    shuffle(&mut order, &mut shadow);
    let mut rng = Rng::new(9);
    let mut watch = Watchdog::start(&enabled, &mut rng);
    // The watchdog draws from the generator exactly as the shuffle does.
    assert_eq!(rng.next_u64(), shadow.next_u64());
    let mut expect = enabled;
    for &idx in &order {
        expect[idx] = true;
        match watch.step(false) {
            WatchAction::TryConfig(e) => assert_eq!(e, expect),
            _ => panic!("expected a new configuration"),
        }
    }
    assert_eq!(expect, [true; N_EXTRAS]);
    assert!(matches!(watch.step(false), WatchAction::FallBack));
    assert!(matches!(watch.step(false), WatchAction::FallBack));
}

#[test]
fn watchdog_accepts_a_good_candidate_and_stays_put() {
    let enabled = [false; N_EXTRAS];
    let mut rng = Rng::new(3);
    let mut watch = Watchdog::start(&enabled, &mut rng);
    let first = match watch.step(false) {
        WatchAction::TryConfig(e) => e,
        _ => panic!("expected a configuration"),
    };
    assert_eq!(first.iter().filter(|&&b| b).count(), 1);
    assert!(matches!(watch.step(true), WatchAction::Accept));
    // Accepting changes nothing: the next failure switches on a second extra.
    match watch.step(false) {
        WatchAction::TryConfig(e) => {
            assert_eq!(e.iter().filter(|&&b| b).count(), 2);
            for i in 0..N_EXTRAS {
                if first[i] {
                    assert!(e[i]);
                }
            }
        }
        _ => panic!("expected a configuration"),
    }
}

#[test]
fn watchdog_with_every_extra_on_falls_back_at_once() {
    let enabled = [true; N_EXTRAS];
    let mut rng = Rng::new(5);
    let mut watch = Watchdog::start(&enabled, &mut rng);
    assert!(matches!(watch.step(false), WatchAction::FallBack));
    assert!(matches!(watch.step(true), WatchAction::Accept));
}
