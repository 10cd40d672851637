use std::cell::Cell;
use terseid::{IdConfig, IdGenerator};

#[test]
fn test_new_creates_generator() {
    let config = IdConfig::new("bd");
    let generator = IdGenerator::new(config);
    assert_eq!(generator.prefix(), "bd");
}

#[test]
fn test_prefix_accessor() {
    let generator = IdGenerator::new(IdConfig::new("tk"));
    assert_eq!(generator.prefix(), "tk");
}

#[test]
fn test_optimal_length_small_count() {
    let generator = IdGenerator::new(IdConfig::new("bd"));
    // For 50 items, should use 3 chars (36^3 = 46,656)
    let len = generator.optimal_length(50);
    assert_eq!(len, 3);
}

#[test]
fn test_optimal_length_medium_count() {
    let generator = IdGenerator::new(IdConfig::new("bd"));
    // For 200 items, should use 4 chars (36^4 = 1,679,616)
    let len = generator.optimal_length(200);
    assert_eq!(len, 4);
}

#[test]
fn test_optimal_length_large_count() {
    let generator = IdGenerator::new(IdConfig::new("bd"));
    // For 7000 items, should use 6 chars
    // (36^5 = 60M gives p ≈ 0.33; 36^6 = 2.1B gives p ≈ 0.01)
    let len = generator.optimal_length(7000);
    assert_eq!(len, 6);
}

#[test]
fn test_optimal_length_respects_min() {
    let generator = IdGenerator::new(IdConfig::new("bd").min_hash_length(4));
    // Even for 0 items, should use at least min_hash_length
    let len = generator.optimal_length(0);
    assert_eq!(len, 4);
}

#[test]
fn test_optimal_length_respects_max() {
    let generator = IdGenerator::new(IdConfig::new("bd").max_hash_length(5));
    // For very large item count, should not exceed max_hash_length
    let len = generator.optimal_length(1_000_000_000);
    assert_eq!(len, 5);
}

#[test]
fn test_optimal_length_custom_collision_prob() {
    let generator_strict = IdGenerator::new(
        IdConfig::new("bd").max_collision_prob(10000), // stricter threshold
    );
    let len_strict = generator_strict.optimal_length(100);

    let generator_loose = IdGenerator::new(
        IdConfig::new("bd").max_collision_prob(500000), // looser threshold
    );
    let len_loose = generator_loose.optimal_length(100);

    // Stricter should be >= looser
    assert!(len_strict >= len_loose);
}

#[test]
fn test_candidate_format() {
    let generator = IdGenerator::new(IdConfig::new("bd"));
    let seed = b"test seed";
    let candidate = generator.candidate(seed, 6);

    // Should be in format "prefix-hash"
    assert!(candidate.starts_with("bd-"));
    let parts: Vec<&str> = candidate.split('-').collect();
    assert_eq!(parts.len(), 2);
    assert_eq!(parts[0], "bd");
    assert_eq!(parts[1].len(), 6);
}

#[test]
fn test_candidate_deterministic() {
    let generator = IdGenerator::new(IdConfig::new("bd"));
    let seed = b"consistent seed";

    let c1 = generator.candidate(seed, 8);
    let c2 = generator.candidate(seed, 8);
    assert_eq!(c1, c2);
}

#[test]
fn test_candidate_different_seeds_different_hashes() {
    let generator = IdGenerator::new(IdConfig::new("bd"));

    let c1 = generator.candidate(b"seed1", 8);
    let c2 = generator.candidate(b"seed2", 8);
    assert_ne!(c1, c2);
}

#[test]
fn test_candidate_different_lengths() {
    let generator = IdGenerator::new(IdConfig::new("bd"));
    let seed = b"test";

    let c3 = generator.candidate(seed, 3);
    let c8 = generator.candidate(seed, 8);

    assert_eq!(c3.len(), "bd-".len() + 3);
    assert_eq!(c8.len(), "bd-".len() + 8);
}

#[test]
fn test_generate_no_collisions_simple() {
    let generator = IdGenerator::new(IdConfig::new("bd"));
    let mut generated = vec![];

    for i in 0..10 {
        let id = generator.generate(
            |nonce| format!("seed{}-{}", i, nonce).into_bytes(),
            0,
            |candidate| generated.contains(&candidate.to_string()),
        );

        generated.push(id);
    }

    // Check uniqueness
    let unique_count = {
        let mut set = std::collections::HashSet::new();
        for id in &generated {
            set.insert(id.clone());
        }
        set.len()
    };
    assert_eq!(unique_count, 10);
}

#[test]
fn test_generate_handles_collisions() {
    let generator = IdGenerator::new(IdConfig::new("bd"));
    let taken: std::collections::HashSet<String> = std::collections::HashSet::new();

    let id = generator.generate(
        |_nonce| b"forced-collision".to_vec(),
        0,
        |candidate| taken.contains(candidate),
    );

    // Should still generate something valid
    assert!(id.starts_with("bd-"));
    assert!(id.len() > 0);
}

#[test]
fn test_generate_with_high_item_count() {
    let generator = IdGenerator::new(IdConfig::new("bd"));

    let id = generator.generate(
        |nonce| format!("content-{}", nonce).into_bytes(),
        250_000, // High item count should use longer hashes
        |_candidate| false, // No collisions
    );

    // Should generate a valid ID
    assert!(id.starts_with("bd-"));

    // Optimal length for 250k items should be 6 or more
    let optimal = generator.optimal_length(250_000);
    assert!(optimal >= 5);
}

#[test]
fn test_generate_format() {
    let generator = IdGenerator::new(IdConfig::new("test"));

    let id = generator.generate(
        |nonce| format!("data-{}", nonce).into_bytes(),
        10,
        |_| false,
    );

    // Check format: prefix-hash
    assert!(id.starts_with("test-"));
    let parts: Vec<&str> = id.split('-').collect();
    assert_eq!(parts[0], "test");
}

#[test]
fn test_optimal_length_boundary_100() {
    let generator = IdGenerator::new(IdConfig::new("bd"));
    // Just under 100
    assert_eq!(generator.optimal_length(99), 3);
    // At 100
    let len_100 = generator.optimal_length(100);
    assert!(len_100 >= 3);
}

#[test]
fn test_optimal_length_boundary_200() {
    let generator = IdGenerator::new(IdConfig::new("bd"));
    // Around 200 should transition to 4
    let len_200 = generator.optimal_length(200);
    assert!(len_200 >= 3);
}

#[test]
fn test_multiple_generators_independent() {
    let gen1 = IdGenerator::new(IdConfig::new("bd"));
    let gen2 = IdGenerator::new(IdConfig::new("tk"));

    assert_eq!(gen1.prefix(), "bd");
    assert_eq!(gen2.prefix(), "tk");

    let opt1 = gen1.optimal_length(100);
    let opt2 = gen2.optimal_length(100);

    // Should have same optimal length (same config)
    assert_eq!(opt1, opt2);
}

#[test]
fn test_generate_with_string_seed() {
    let generator = IdGenerator::new(IdConfig::new("bd"));

    let id = generator.generate(
        |nonce| format!("user-description-{}", nonce).into_bytes(),
        50,
        |_| false,
    );

    assert!(id.starts_with("bd-"));
}

#[test]
fn test_candidate_all_valid_base36() {
    let generator = IdGenerator::new(IdConfig::new("bd"));

    for seed_val in 0..100 {
        let candidate = generator.candidate(
            format!("seed-{}", seed_val).as_bytes(),
            6,
        );

        // Extract hash part
        let parts: Vec<&str> = candidate.split('-').collect();
        assert_eq!(parts.len(), 2);

        let hash = parts[1];
        for ch in hash.chars() {
            assert!(
                ch.is_ascii_digit() || (ch >= 'a' && ch <= 'z'),
                "Invalid base36 char in {}: {}",
                candidate,
                ch
            );
        }
    }
}

#[test]
fn test_generate_always_returns_valid_format() {
    let generator = IdGenerator::new(IdConfig::new("prefix"));

    for item_count in [0, 1, 10, 100, 1000, 10000].iter() {
        let id = generator.generate(
            |nonce| format!("seed-{}", nonce).into_bytes(),
            *item_count,
            |_| false,
        );

        // Basic format validation
        assert!(id.starts_with("prefix-"));
        let hash_part = &id[7..]; // Skip "prefix-"
        assert!(!hash_part.is_empty());

        // All chars should be valid base36 or our fallback format
        for ch in hash_part.chars() {
            assert!(
                ch.is_ascii_digit() || (ch >= 'a' && ch <= 'z'),
                "Invalid char in {}: {}",
                id,
                ch
            );
        }
    }
}

// With defaults and an empty store, the optimal length is 3 and the
// maximum is 8, so tiers 1 and 2 try 10 * (1 + (8 - 3)) = 60 candidates.
// An oracle that reports all of those and the first 37 long candidates as
// taken must make `generate` return the tier-3 candidate for nonce 37,
// not fall any further.
#[test]
fn test_generate_reaches_exact_tier3_candidate() {
    let generator = IdGenerator::new(IdConfig::new("bd"));
    let seed_fn = |nonce: u32| format!("tier3-scenario-{}", nonce).into_bytes();
    let calls = Cell::new(0u32);

    let id = generator.generate(seed_fn, 0, |_candidate| {
        let n = calls.get() + 1;
        calls.set(n);
        // 60 tier-1/2 queries, then tier-3 nonces 0..=36 are taken too;
        // the 98th query (tier-3 nonce 37) is free.
        n < 98
    });

    assert_eq!(id, generator.candidate(&seed_fn(37), 12));
    assert_eq!(calls.get(), 98);
}

#[test]
fn test_generate_deterministic_with_scripted_oracle() {
    let generator = IdGenerator::new(IdConfig::new("bd"));
    let seed_fn = |nonce: u32| format!("replay-{}", nonce).into_bytes();

    let run = || {
        let calls = Cell::new(0u32);
        generator.generate(seed_fn, 0, |_candidate| {
            let n = calls.get() + 1;
            calls.set(n);
            n < 5
        })
    };

    assert_eq!(run(), run());
}

#[test]
fn test_generate_desperate_fallback_appends_nonce() {
    let generator = IdGenerator::new(IdConfig::new("bd"));
    let seed_fn = |_nonce: u32| b"always-the-same".to_vec();
    // Every hash-based candidate is "taken" (tiers 1-3 all collide), but a
    // candidate with a decimal suffix appended is accepted at once.
    let base = generator.candidate(&seed_fn(0), 12);
    let id = generator.generate(seed_fn, 0, |candidate| candidate.len() < base.len() + 1);
    assert_eq!(id, format!("{}0", base));
}
