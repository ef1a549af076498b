use advent::lenses::hash;

#[test]
fn test_hash() {
    assert_eq!(hash("HASH"), 52);
}

#[test]
fn hash_of_the_sample_steps() {
    assert_eq!(hash("rn=1"), 30);
    assert_eq!(hash("cm-"), 253);
    assert_eq!(hash(""), 0);
}
