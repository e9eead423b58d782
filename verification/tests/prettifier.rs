use pretty_snowflake::pretty::damm;
use pretty_snowflake::{
    Alphabet, AlphabetCodec, ConversionError, Generator, IdPrettifier, LazyGenerator,
    MachineNode, RealTimeGenerator, SnowflakeIdGenerator,
};
use rand::RngExt;

const EXAMPLE_ID: i64 = 824227036833910784;
const EXAMPLE_REP: &'static str = "824227036833910784";

#[test]
fn test_divide() {
    let prettifier = IdPrettifier::<AlphabetCodec>::default();

    let damm_encoded = damm::encode("100");
    assert_eq!(&damm_encoded, "1007");
    let actual = prettifier.divide(damm_encoded);
    assert_eq!(actual, vec!["1007".to_string()]);

    let damm_encoded = damm::encode(EXAMPLE_REP);
    assert_eq!(damm_encoded, format!("{}9", EXAMPLE_REP));
    let actual = prettifier.divide(damm_encoded);
    assert_eq!(
        actual,
        vec![
            "8242".to_string(),
            "27036".to_string(),
            "83391".to_string(),
            "07849".to_string(),
        ]
    );
}

#[test]
fn test_add_leading_zeros_parts() {
    let prettifier = IdPrettifier::<AlphabetCodec>::default();

    let actual = prettifier.add_leading_zeros_parts(vec!["1007".to_string()]);
    assert_eq!(
        actual,
        vec!["0".to_string(), "0".to_string(), "0".to_string(), "1007".to_string(),]
    );

    let actual = prettifier.add_leading_zeros_parts(vec![
        "8242".to_string(),
        "27036".to_string(),
        "83391".to_string(),
        "07849".to_string(),
    ]);
    assert_eq!(
        actual,
        vec![
            "8242".to_string(),
            "27036".to_string(),
            "83391".to_string(),
            "07849".to_string(),
        ]
    );
}

#[test]
fn test_convert_parts() {
    let prettifier = IdPrettifier::<AlphabetCodec>::default();

    let parts = vec!["0", "0", "0", "1007"].into_iter().map(|s| s.to_string()).collect();
    let actual = prettifier.convert_parts(parts);
    assert_eq!(actual, "AAAA-00000-AAAA-01007".to_string());

    let parts = vec![
        "8242".to_string(),
        "27036".to_string(),
        "83391".to_string(),
        "07849".to_string(),
    ]
    .into_iter()
    .map(|s| s.to_string())
    .collect();
    let actual = prettifier.convert_parts(parts);
    assert_eq!(actual, "ARPJ-27036-GVQS-07849".to_string());
}

#[test]
fn prettifier_test_generate_pretty_ids_with_leading_zeros() {
    let default = IdPrettifier::<AlphabetCodec>::default();

    let max_pretty_id = default.prettify(i64::MAX);
    assert_eq!(&max_pretty_id, "HPJD-72036-HAPK-58077");

    let example_pretty_id = default.prettify(EXAMPLE_ID);
    assert_eq!(&example_pretty_id, "ARPJ-27036-GVQS-07849");
    assert_eq!(&default.prettify(1), "AAAA-00000-AAAA-00013");

    let prettifier_by_8 = IdPrettifier {
        parts_size: 8,
        leading_zeros: true,
        ..default
    };
    assert_eq!(&prettifier_by_8.prettify(1), "00000000-AAAA-00000013");
    assert_eq!(&prettifier_by_8.prettify(i64::MAX), "00009223-FTYTHN-47758077");
}

#[test]
fn prettifier_test_generate_pretty_ids_without_leading_zeros() {
    let prettifier = IdPrettifier {
        leading_zeros: false,
        ..IdPrettifier::<AlphabetCodec>::default()
    };
    let max_pretty_id = prettifier.prettify(i64::MAX);
    assert_eq!(&max_pretty_id, "HPJD-72036-HAPK-58077");

    let example_pretty_id = prettifier.prettify(EXAMPLE_ID);
    assert_eq!(&example_pretty_id, "RPJ-27036-GVQS-07849");

    assert_eq!(&prettifier.prettify(1), "13");

    let prettifier_by_8 = IdPrettifier { parts_size: 8, ..prettifier };
    assert_eq!(&prettifier_by_8.prettify(1), "13");
    assert_eq!(&prettifier_by_8.prettify(i64::MAX), "9223-FTYTHN-47758077");
}

#[test]
fn prettifier_test_find_seed_of_pretty_id_with_leading_zeros() {
    let prettified_with_leading = IdPrettifier::<AlphabetCodec>::default();

    assert_eq!(
        prettified_with_leading.to_id_seed("HPJD-72036-HAPK-58077").unwrap(),
        i64::MAX
    );
    assert_eq!(
        prettified_with_leading.to_id_seed("ARPJ-27036-GVQS-07849").unwrap(),
        EXAMPLE_ID
    );
    assert_eq!(
        prettified_with_leading.to_id_seed("AAAA-00000-AAAA-00013").unwrap(),
        1
    );
}

#[test]
fn prettifier_test_find_seed_of_pretty_id_without_leading_zeros() {
    let prettified_without_leading_zeros = IdPrettifier {
        leading_zeros: false,
        ..IdPrettifier::<AlphabetCodec>::default()
    };
    assert_eq!(prettified_without_leading_zeros.to_id_seed("13").unwrap(), 1);
}

#[test]
fn prettifier_test_validate_pretty_ids() {
    let prettifier = IdPrettifier::<AlphabetCodec>::default();
    assert!(prettifier.is_valid("HPJD-72036-HAPK-58077"));
    assert!(prettifier.is_valid("HPJD-72036-HAPK-58077"));
    assert!(prettifier.is_valid("ARPJ-27036-GVQS-07849"));
    assert!(!prettifier.is_valid("ARPJ-27036-GVQS-07840"));
    assert!(!prettifier.is_valid("ARPJ-27036-GVQS-07489"));
    assert!(!prettifier.is_valid("ARPJ-27036-GVQZ-07489"));
}

#[test]
fn prettifier_test_preserve_id_monotonicity() {
    let mut real_time = SnowflakeIdGenerator::<RealTimeGenerator>::default();
    let mut generator = SnowflakeIdGenerator::<Generator>::default();
    let mut lazy = SnowflakeIdGenerator::<LazyGenerator>::default();
    let prettifier = IdPrettifier::<AlphabetCodec>::default();

    let mut real_time_actual: Vec<String> = (1..=100)
        .into_iter()
        .map(|_| prettifier.prettify(real_time.next_id().num()))
        .collect();
    let mut real_time_expected: Vec<String> = real_time_actual.clone();
    real_time_expected.sort();
    assert_eq!(real_time_actual, real_time_expected);
    real_time_actual.reverse();
    real_time_expected.reverse();
    assert_eq!(real_time_actual, real_time_expected);

    let mut generator_actual: Vec<String> = (1..=100)
        .into_iter()
        .map(|_| prettifier.prettify(generator.next_id().num()))
        .collect();
    let mut generator_expected: Vec<String> = generator_actual.clone();
    generator_expected.sort();
    assert_eq!(generator_actual, generator_expected);
    generator_actual.reverse();
    generator_expected.reverse();
    assert_eq!(generator_actual, generator_expected);

    let mut lazy_actual: Vec<String> = (1..=100)
        .into_iter()
        .map(|_| prettifier.prettify(lazy.next_id().num()))
        .collect();
    let mut lazy_expected: Vec<String> = lazy_actual.clone();
    lazy_expected.sort();
    assert_eq!(lazy_actual, lazy_expected);
    lazy_actual.reverse();
    lazy_expected.reverse();
    assert_eq!(lazy_actual, lazy_expected);
}

#[test]
fn prettifier_test_keep_same_id_length() {
    let prettifier = IdPrettifier::<AlphabetCodec>::default();
    let min_id = prettifier.prettify(0);
    let max_id = prettifier.prettify(i64::MAX);
    assert_eq!(min_id.len(), max_id.len());
}

#[test]
fn prettifier_test_calculate_seed_properly_with_default_settings() {
    let mut id_generator = SnowflakeIdGenerator::<RealTimeGenerator>::default();
    let prettifier = IdPrettifier::<AlphabetCodec>::default();
    (1..=10_000).into_iter().for_each(|_| {
        let seed = id_generator.next_id().num();
        let id = prettifier.prettify(seed);
        assert_eq!(prettifier.to_id_seed(&id).unwrap(), seed);
    });
}

#[test]
fn prettifier_test_calculate_seed_properly_without_leading_zeros() {
    let mut id_generator = SnowflakeIdGenerator::<RealTimeGenerator>::default();
    let prettifier = IdPrettifier {
        leading_zeros: false,
        ..IdPrettifier::<AlphabetCodec>::default()
    };

    (0..10_000).into_iter().for_each(|_| {
        let seed = id_generator.next_id().num();
        let id = prettifier.prettify(seed);
        assert_eq!(prettifier.to_id_seed(&id).unwrap(), seed);
    });

    let mut rng = rand::rng();
    (0..10_000).into_iter().for_each(|_| {
        let seed: i64 = rng.random_range(0..=i64::MAX);
        let id = prettifier.prettify(seed);
        let decoded_seed = prettifier.to_id_seed(&id).unwrap();
        assert_eq!(decoded_seed, seed);
    })
}

#[test]
fn prettifier_test_calculate_seed_properly_smaller_parts_and_short_alphabet() {
    let mut id_generator = SnowflakeIdGenerator::<RealTimeGenerator>::default();
    let prettifier = IdPrettifier {
        encoder: AlphabetCodec::new(Alphabet::new("ABC")),
        parts_size: 2,
        ..IdPrettifier::<AlphabetCodec>::default()
    };

    (0..10_000).into_iter().for_each(|_| {
        let seed = id_generator.next_id().num();
        let id = prettifier.prettify(seed);
        let decoded_seed = prettifier.to_id_seed(&id).unwrap();
        assert_eq!(decoded_seed, seed);
    });

    let mut rng = rand::rng();
    (0..10_000).into_iter().for_each(|_| {
        let seed: i64 = rng.random_range(0..=i64::MAX);
        let id = prettifier.prettify(seed);
        let decoded_seed = prettifier.to_id_seed(&id).unwrap();
        assert_eq!(decoded_seed, seed);
    })
}

#[test]
fn tests_test_generate_pretty_ids_with_leading_zeros() {
    let default = IdPrettifier::<AlphabetCodec>::default();

    let max_pretty_id = default.prettify(i64::MAX);
    assert_eq!(&max_pretty_id, "HPJD-72036-HAPK-58077");

    let example_pretty_id = default.prettify(EXAMPLE_ID);
    assert_eq!(&example_pretty_id, "ARPJ-27036-GVQS-07849");
    assert_eq!(&default.prettify(1), "AAAA-00000-AAAA-00013");

    let prettifier_by_8 = IdPrettifier {
        parts_size: 8,
        leading_zeros: true,
        ..default
    };
    assert_eq!(&prettifier_by_8.prettify(1), "00000000-AAAA-00000013");
    assert_eq!(&prettifier_by_8.prettify(i64::MAX), "00009223-FTYTHN-47758077");
}

#[test]
fn tests_test_generate_pretty_ids_without_leading_zeros() {
    let prettifier = IdPrettifier {
        leading_zeros: false,
        ..IdPrettifier::<AlphabetCodec>::default()
    };
    let max_pretty_id = prettifier.prettify(i64::MAX);
    assert_eq!(&max_pretty_id, "HPJD-72036-HAPK-58077");

    let example_pretty_id = prettifier.prettify(EXAMPLE_ID);
    assert_eq!(&example_pretty_id, "RPJ-27036-GVQS-07849");

    assert_eq!(&prettifier.prettify(1), "13");

    let prettifier_by_8 = IdPrettifier { parts_size: 8, ..prettifier };
    assert_eq!(&prettifier_by_8.prettify(1), "13");
    assert_eq!(&prettifier_by_8.prettify(i64::MAX), "9223-FTYTHN-47758077");
}

#[test]
fn tests_test_find_seed_of_pretty_id_with_leading_zeros() {
    let prettified_with_leading = IdPrettifier::<AlphabetCodec>::default();

    assert_eq!(
        prettified_with_leading.to_id_seed("HPJD-72036-HAPK-58077").unwrap(),
        i64::MAX
    );
    assert_eq!(
        prettified_with_leading.to_id_seed("ARPJ-27036-GVQS-07849").unwrap(),
        EXAMPLE_ID
    );
    assert_eq!(
        prettified_with_leading.to_id_seed("AAAA-00000-AAAA-00013").unwrap(),
        1
    );
}

#[test]
fn tests_test_find_seed_of_pretty_id_without_leading_zeros() {
    let prettified_without_leading_zeros = IdPrettifier {
        leading_zeros: false,
        ..IdPrettifier::<AlphabetCodec>::default()
    };
    assert_eq!(prettified_without_leading_zeros.to_id_seed("13").unwrap(), 1);
}

#[test]
fn tests_test_validate_pretty_ids() {
    let prettifier = IdPrettifier::<AlphabetCodec>::default();
    assert!(prettifier.is_valid("HPJD-72036-HAPK-58077"));
    assert!(prettifier.is_valid("HPJD-72036-HAPK-58077"));
    assert!(prettifier.is_valid("ARPJ-27036-GVQS-07849"));
    assert!(!prettifier.is_valid("ARPJ-27036-GVQS-07840"));
    assert!(!prettifier.is_valid("ARPJ-27036-GVQS-07489"));
    assert!(!prettifier.is_valid("ARPJ-27036-GVQZ-07489"));
}

#[test]
fn tests_test_preserve_id_monotonicity() {
    let mut real_time = SnowflakeIdGenerator::<RealTimeGenerator>::default();
    let prettifier = IdPrettifier::<AlphabetCodec>::default();

    let mut actual: Vec<String> = (1..=100)
        .into_iter()
        .map(|_| prettifier.prettify(real_time.next_id().num()))
        .collect();
    let mut expected: Vec<String> = actual.clone();
    expected.sort();
    assert_eq!(actual, expected);
    actual.reverse();
    expected.reverse();
    assert_eq!(actual, expected);
}

#[test]
fn tests_test_keep_same_id_length() {
    let prettifier = IdPrettifier::<AlphabetCodec>::default();
    let min_id = prettifier.prettify(0);
    let max_id = prettifier.prettify(i64::MAX);
    assert_eq!(min_id.len(), max_id.len());
}

#[test]
fn tests_test_calculate_seed_properly_with_default_settings() {
    let mut id_generator = SnowflakeIdGenerator::<RealTimeGenerator>::default();
    let prettifier = IdPrettifier::<AlphabetCodec>::default();
    (1..=10_000).into_iter().for_each(|_| {
        let seed = id_generator.next_id().num();
        let id = prettifier.prettify(seed);
        assert_eq!(prettifier.to_id_seed(&id).unwrap(), seed);
    });
}

#[test]
fn tests_test_calculate_seed_properly_without_leading_zeros() {
    let mut id_generator = SnowflakeIdGenerator::<RealTimeGenerator>::default();
    let prettifier = IdPrettifier {
        leading_zeros: false,
        ..IdPrettifier::<AlphabetCodec>::default()
    };

    (0..10_000).into_iter().for_each(|_| {
        let seed = id_generator.next_id().num();
        let id = prettifier.prettify(seed);
        assert_eq!(prettifier.to_id_seed(&id).unwrap(), seed);
    });
}

#[test]
fn tests_test_calculate_seed_properly_smaller_parts_and_short_alphabet() {
    let mut id_generator = SnowflakeIdGenerator::<RealTimeGenerator>::default();
    let prettifier = IdPrettifier {
        encoder: AlphabetCodec::new(Alphabet::new("ABC")),
        parts_size: 2,
        ..IdPrettifier::<AlphabetCodec>::default()
    };

    (0..10_000).into_iter().for_each(|_| {
        let seed = id_generator.next_id().num();
        let id = prettifier.prettify(seed);
        let decoded_seed = prettifier.to_id_seed(&id).unwrap();
        assert_eq!(decoded_seed, seed);
    });
}

#[test]
fn test_round_trip_scenarios() {
    // the concrete fixtures of the default configuration
    let prettifier = IdPrettifier::<AlphabetCodec>::default();
    assert_eq!(prettifier.prettify(100), "AAAA-00000-AAAA-01007".to_string());
    assert_eq!(prettifier.prettify(i64::MAX), "HPJD-72036-HAPK-58077".to_string());
    assert_eq!(prettifier.to_id_seed("AAAA-00000-AAAA-01007").unwrap(), 100);
}

#[test]
fn test_error_variants() {
    let prettifier = IdPrettifier::<AlphabetCodec>::default();
    // a character outside the alphabet in an encoded chunk
    match prettifier.to_id_seed("AAA!-00000-AAAA-01007") {
        Err(ConversionError::InvalidCharacter) => {},
        other => panic!("expected an invalid character, got {:?}", other),
    }
    // a failed checksum
    match prettifier.to_id_seed("AAAA-00000-AAAA-01008") {
        Err(ConversionError::InvalidId(rep)) => {
            assert_eq!(rep, "AAAA-00000-AAAA-01008".to_string());
        },
        other => panic!("expected an invalid id, got {:?}", other),
    }
    // a checksum-valid input whose numeral is not decimal: a single direct
    // chunk of non-digits folds to state zero, and then fails to parse
    match prettifier.to_id_seed("!!") {
        Err(ConversionError::ParseIntError) => {},
        other => panic!("expected a numeric-parse failure, got {:?}", other),
    }
    // the empty input reconstructs to an empty numeral
    match prettifier.to_id_seed("") {
        Err(ConversionError::InvalidId(rep)) => {
            assert_eq!(rep, String::new());
        },
        other => panic!("expected an invalid id, got {:?}", other),
    }
}

#[test]
fn test_monotonic_rendering_of_sorted_seeds() {
    let prettifier = IdPrettifier::<AlphabetCodec>::default();
    let seeds: Vec<i64> = vec![0, 1, 9, 10, 99, 100, 12345, 99999, 100000, 824227036833910784,
        i64::MAX - 1, i64::MAX];
    let rendered: Vec<String> = seeds.iter().map(|s| prettifier.prettify(*s)).collect();
    let mut sorted = rendered.clone();
    sorted.sort();
    assert_eq!(rendered, sorted);
    let mut reversed = rendered.clone();
    reversed.reverse();
    let mut sorted_desc = rendered.clone();
    sorted_desc.sort();
    sorted_desc.reverse();
    assert_eq!(reversed, sorted_desc);
}

#[test]
fn test_machine_node_bounds() {
    assert!(MachineNode::new(0, 0).is_ok());
    assert!(MachineNode::new(31, 31).is_ok());
    let node = MachineNode::new(3, 7).unwrap();
    assert_eq!(node.machine_id, 3);
    assert_eq!(node.node_id, 7);
    assert!(MachineNode::new(-1, 0).is_err());
    assert!(MachineNode::new(0, 32).is_err());
    let err = MachineNode::new(42, 5).unwrap_err();
    assert_eq!(err.machine_id, 42);
    assert_eq!(err.node_id, 5);
}

#[test]
fn test_default_prettifier_accessor() {
    let p = pretty_snowflake::generator::prettifier();
    assert_eq!(p.parts_size, 5);
    assert_eq!(p.delimiter, "-".to_string());
    assert!(p.leading_zeros);
    assert_eq!(p.prettify(100), "AAAA-00000-AAAA-01007".to_string());
}
