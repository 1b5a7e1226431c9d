use lds_gen::Halton;
use lds_gen::VdCorput;

#[test]
fn test_ilds_vdcorput_pop() {
    let mut vdc = VdCorput::new(2, 10);
    vdc.reseed(0);
    assert_eq!(vdc.pop(), 512); // 0.5 * 1024
    assert_eq!(vdc.pop(), 256); // 0.25 * 1024
    assert_eq!(vdc.pop(), 768); // 0.75 * 1024
    assert_eq!(vdc.pop(), 128); // 0.125 * 1024
}

#[test]
fn test_ilds_vdcorput_reseed() {
    let mut vdc = VdCorput::new(2, 10);
    vdc.reseed(5);
    assert_eq!(vdc.pop(), 384); // 0.375 * 1024
    vdc.reseed(0);
    assert_eq!(vdc.pop(), 512); // 0.5 * 1024
}

#[test]
fn test_ilds_vdcorput_default() {
    let mut vdc = VdCorput::default();
    vdc.reseed(0);
    assert_eq!(vdc.pop(), 512);
    assert_eq!(vdc.pop(), 256);
}

#[test]
fn test_ilds_halton_pop() {
    let mut hgen = Halton::new([2, 3], [11, 7]);
    hgen.reseed(0);
    let res = hgen.pop();
    assert_eq!(res[0], 1024); // 0.5 * 2048
    assert_eq!(res[1], 729); // 1/3 * 2187

    let res = hgen.pop();
    assert_eq!(res[0], 512); // 0.25 * 2048
    assert_eq!(res[1], 1458); // 2/3 * 2187
}

// Two independently constructed generators reseeded to the same seed draw
// identical sequences.
#[test]
fn test_determinism_same_seed() {
    let mut a = VdCorput::new(3, 4);
    let mut b = VdCorput::new(3, 4);
    a.reseed(7);
    b.reseed(7);
    for _ in 0..20 {
        assert_eq!(a.pop(), b.pop());
    }
}

// Reseeding to 0 matches a freshly constructed generator from the first
// draw on.
#[test]
fn test_reseed_zero_matches_fresh() {
    let mut fresh = VdCorput::new(5, 3);
    let mut used = VdCorput::new(5, 3);
    for _ in 0..9 {
        used.pop();
    }
    used.reseed(0);
    for _ in 0..10 {
        assert_eq!(used.pop(), fresh.pop());
    }
}

// Every draw lies below base^scale.
#[test]
fn test_range_bound() {
    let mut vdc = VdCorput::new(3, 4); // factor 81
    vdc.reseed(0);
    for _ in 0..81 {
        assert!(vdc.pop() < 81);
    }
}

// Within one full period (counters 1 through base^scale) the draws are
// pairwise distinct; the first counter beyond the period collides.
#[test]
fn test_injectivity_within_period() {
    let mut vdc = VdCorput::new(2, 3); // factor 8
    vdc.reseed(0);
    let mut seen = Vec::new();
    for _ in 0..8 {
        let v = vdc.pop();
        assert!(!seen.contains(&v));
        seen.push(v);
    }
    // counter 9 drops its high digit and repeats the draw of counter 1
    let beyond = vdc.pop();
    assert_eq!(beyond, seen[0]);
}

// Both Halton dimensions restart together on reseed.
#[test]
fn test_halton_reseed_resyncs() {
    let mut hgen = Halton::new([2, 3], [11, 7]);
    hgen.reseed(0);
    let first = hgen.pop();
    hgen.pop();
    hgen.pop();
    hgen.reseed(0);
    let again = hgen.pop();
    assert_eq!(first, again);
}
