use vectify::color::Rgba8;
use vectify::quantize::Rng;

#[test]
fn hex_parses_both_forms_and_round_trips() {
    assert_eq!(Rgba8::from_hex("#ff8000"), Some(Rgba8::opaque(255, 128, 0)));
    assert_eq!(Rgba8::from_hex("FF8000"), Some(Rgba8::opaque(255, 128, 0)));
    assert_eq!(Rgba8::from_hex("#f80"), Some(Rgba8::opaque(255, 136, 0)));
    let c = Rgba8::opaque(12, 200, 99);
    assert_eq!(Rgba8::from_hex(&c.to_hex()), Some(c));
}

#[test]
fn hex_rejects_malformed_input() {
    for bad in ["", "#", "#ff", "#ffff", "#fffffff", "#gg0000", "+f0f0f", "é0000", "#12 456"] {
        assert_eq!(Rgba8::from_hex(bad), None, "{bad:?} should not parse");
    }
}

#[test]
fn hex_is_lower_case_and_drops_alpha() {
    assert_eq!(Rgba8::new(0xAB, 0x0C, 0xFF, 7).to_hex(), "#ab0cff");
    assert_eq!(Rgba8::from_hex("  ##ABC "), Some(Rgba8::opaque(0xAA, 0xBB, 0xCC)));
}

#[test]
fn every_grey_round_trips() {
    for v in 0..=255u8 {
        let c = Rgba8::opaque(v, 255 - v, v / 2);
        assert_eq!(Rgba8::from_hex(&c.to_hex()), Some(c));
    }
}

#[test]
fn transparent_is_all_zero() {
    assert_eq!(Rgba8::transparent(), Rgba8::new(0, 0, 0, 0));
}

#[test]
fn rng_is_deterministic() {
    let a: Vec<u64> = (0..5).scan(Rng::new(7), |r, _| Some(r.next_u64())).collect();
    let b: Vec<u64> = (0..5).scan(Rng::new(7), |r, _| Some(r.next_u64())).collect();
    assert_eq!(a, b);
}

#[test]
fn rng_follows_its_recurrence() {
    let mut x: u64 = 7u64.wrapping_mul(6364136223846793005).wrapping_add(1442695040888963407) | 1;
    let mut rng = Rng::new(7);
    for _ in 0..100 {
        x ^= x >> 12;
        x ^= x << 25;
        x ^= x >> 27;
        assert_eq!(rng.next_u64(), x.wrapping_mul(0x2545F4914F6CDD1D));
    }
}

#[test]
fn draws_tell_states_apart() {
    // Seeds that start alike draw alike; all others never meet at one draw.
    let mut firsts: Vec<u64> = (0..1000).map(|seed| Rng::new(2 * seed).next_u64()).collect();
    assert!(firsts.iter().all(|d| *d != 0));
    firsts.sort();
    firsts.dedup();
    assert_eq!(firsts.len(), 1000);
    let mut rng = Rng::new(11);
    assert!((0..1000).all(|_| rng.next_u64() != 0));
}

#[test]
fn rng_stays_below_its_bound() {
    let mut rng = Rng::new(3);
    assert_eq!(rng.below(0), 0);
    let mut seen = [false; 7];
    for _ in 0..500 {
        seen[rng.below(7)] = true;
    }
    assert!(seen.iter().all(|s| *s), "every value should turn up");
}
