use lstrings::BigramMap;

fn similarity(a: &BigramMap, b: &BigramMap) -> f64 {
    let dot = a.dot(b) as f64;
    let ma = (a.norm_sq() as f64).sqrt();
    let mb = (b.norm_sq() as f64).sqrt();
    dot / (ma * mb)
}

#[test]
fn test_similarity() {
    let mut bg1 = BigramMap::new();
    bg1.add("foo");
    bg1.add("longer string 123");

    let mut bg2 = BigramMap::new();
    bg2.add("foo");
    bg2.add("longer string 123");

    assert!((similarity(&bg1, &bg2) - 1.0).abs() < 1e-10);
}

#[test]
fn test_dissimilarity() {
    let mut bg1 = BigramMap::new();
    bg1.add("foo");
    bg1.add("bar");

    let mut bg2 = BigramMap::new();
    bg2.add("qqq");
    bg2.add("zzzzz long");

    assert!(similarity(&bg1, &bg2) < 1e-10);
}

#[test]
fn disjoint_models_have_zero_dot() {
    let mut a = BigramMap::new();
    a.add("foo");
    a.add("bar");
    let mut b = BigramMap::new();
    b.add("qqq");
    b.add("zzzzz long");
    assert_eq!(a.dot(&b), 0);
    assert_eq!(b.dot(&a), 0);
}

#[test]
fn self_dot_equals_norm() {
    let m = BigramMap::from_str("longer string 123");
    assert_eq!(m.dot(&m), m.norm_sq());
    assert!(m.norm_sq() > 0);
}

#[test]
fn new_model_is_zero() {
    let m = BigramMap::new();
    assert_eq!(m.norm_sq(), 0);
    assert_eq!(m.counts().len(), 65536);
    assert!(m.counts().iter().all(|&c| c == 0));
}

#[test]
fn add_counts_pairs_and_padding() {
    let m = BigramMap::from_str("foo");
    assert_eq!(m.count(b'f', b'o'), 1);
    assert_eq!(m.count(b'o', b'o'), 1);
    assert_eq!(m.count(b' ', b'f'), 1);
    assert_eq!(m.count(b'o', b' '), 1);
    assert_eq!(m.counts().iter().map(|&c| c as u64).sum::<u64>(), 4);
    assert_eq!(m.norm_sq(), 4);
}

#[test]
fn add_repeated_pair_norm() {
    let m = BigramMap::from_str("ooo");
    assert_eq!(m.count(b'o', b'o'), 2);
    assert_eq!(m.count(b' ', b'o'), 1);
    assert_eq!(m.count(b'o', b' '), 1);
    assert_eq!(m.norm_sq(), 6);
}

#[test]
fn add_drops_spaces() {
    let m = BigramMap::from_str("a b");
    assert_eq!(m.count(b'a', b'b'), 1);
    assert_eq!(m.count(b'a', b' '), 0);
    assert_eq!(m.count(b' ', b'b'), 0);
    assert_eq!(m.count(b' ', b'a'), 1);
    assert_eq!(m.count(b'b', b' '), 1);
    assert_eq!(m.norm_sq(), 3);
}

#[test]
fn single_char_has_only_leading_pair() {
    let m = BigramMap::from_str("a");
    assert_eq!(m.count(b' ', b'a'), 1);
    assert_eq!(m.count(b'a', b' '), 0);
    assert_eq!(m.norm_sq(), 1);
}

#[test]
fn empty_and_space_only_text_add_nothing() {
    let mut m = BigramMap::new();
    m.add("");
    m.add("   ");
    assert_eq!(m.norm_sq(), 0);
    assert!(m.counts().iter().all(|&c| c == 0));
}

#[test]
fn add_accumulates() {
    let mut m = BigramMap::new();
    m.add("foo");
    m.add("foo");
    assert_eq!(m.count(b'f', b'o'), 2);
    assert_eq!(m.norm_sq(), 16);
}

#[test]
fn dot_exact_value() {
    let a = BigramMap::from_str("foo");
    let b = BigramMap::from_str("food");
    // shared: (f,o), (o,o), (space,f)
    assert_eq!(a.dot(&b), 3);
}

#[test]
fn try_add_adds_when_there_is_room() {
    let mut m = BigramMap::new();
    assert!(m.try_add("foo"));
    assert_eq!(m.count(b'f', b'o'), 1);
    assert_eq!(m.norm_sq(), 4);
}

#[test]
fn try_add_refuses_when_a_counter_is_full() {
    let mut lut = vec![0u32; 65536];
    lut[5] = u32::MAX - 2;
    let mut m = BigramMap::from_counts(lut);
    let before = m.norm_sq();
    assert!(!m.try_add("ab"));
    assert_eq!(m.norm_sq(), before);
    assert_eq!(m.count(b'a', b'b'), 0);
}

#[test]
fn from_counts_measures_norm() {
    let mut lut = vec![0u32; 65536];
    lut[0] = 3;
    lut[65535] = 4;
    let m = BigramMap::from_counts(lut);
    assert_eq!(m.norm_sq(), 25);
    assert_eq!(m.count(255, 255), 4);
}
