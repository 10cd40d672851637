use terseid::IdConfig;

#[test]
fn test_new_with_defaults() {
    let config = IdConfig::new("bd");
    assert_eq!(config.prefix, "bd");
    assert_eq!(config.min_hash_length, 3);
    assert_eq!(config.max_hash_length, 8);
    assert_eq!(config.max_collision_prob, 250000);
}

#[test]
fn test_builder_chain() {
    let config = IdConfig::new("tk")
        .min_hash_length(4)
        .max_collision_prob(100000);
    assert_eq!(config.prefix, "tk");
    assert_eq!(config.min_hash_length, 4);
    assert_eq!(config.max_hash_length, 8);
    assert_eq!(config.max_collision_prob, 100000);
}

#[test]
fn test_builder_all_methods() {
    let config = IdConfig::new("test")
        .min_hash_length(2)
        .max_hash_length(10)
        .max_collision_prob(500000);
    assert_eq!(config.prefix, "test");
    assert_eq!(config.min_hash_length, 2);
    assert_eq!(config.max_hash_length, 10);
    assert_eq!(config.max_collision_prob, 500000);
}
