use nametag::config;
use nametag::filename::{selection_to_filename, generate, GenerateFilenameError};
use nametag::salt::gen_salt;
use nametag::schema::{FilenameParseError, Requirement, Schema};
use nametag::state::to_empty_state;
use rand::SeedableRng;
use rand_chacha::ChaCha8Rng;

fn cfg_with_tag(tag: &str) -> config::Schema {
    let categories = vec![config::Category {
        name: "Animals".to_string(),
        rtype: config::Requirement::AtLeast,
        rvalue: 0,
        values: vec![tag.to_string()],
    }];
    config::Schema {
        delim: "-".to_string(),
        categories,
    }
}

#[test]
fn basic_parse_two_categories() {
    let mut schema = cfg_with_tag("cat");
    schema.categories.push(config::Category {
        name: "People".to_string(),
        rtype: config::Requirement::AtLeast,
        rvalue: 0,
        values: vec!["chris".to_string(), "nathan".to_string()],
    });
    let schema = Schema::from_config(schema).unwrap();
    let mut state = to_empty_state(&schema, &mut ChaCha8Rng::seed_from_u64(0));
    state.categories[0].values[0] = ("cat".into(), true);
    state.categories[1].values[0] = ("chris".into(), true);

    let filename = selection_to_filename(&schema, &state).unwrap();
    assert_eq!(filename, "ZQYC5T-cat-chris");
    let parsed_state = schema.parse(&filename).unwrap();
    assert_eq!(state, parsed_state)
}

#[test]
fn parse_generated_schemas() {
    // A few deterministic schemas and selection patterns round-trip.
    let schemas = vec![
        config::Schema {
            delim: "-".to_string(),
            categories: vec![
                config::Category {
                    name: "Medium".to_string(),
                    rtype: config::Requirement::Exactly,
                    rvalue: 1,
                    values: vec!["art".to_string(), "photo".to_string(), "other".to_string()],
                },
                config::Category {
                    name: "Subject".to_string(),
                    rtype: config::Requirement::AtLeast,
                    rvalue: 0,
                    values: vec![
                        "plants".to_string(),
                        "animals".to_string(),
                        "people".to_string(),
                    ],
                },
            ],
        },
        config::Schema {
            delim: "_".to_string(),
            categories: vec![config::Category {
                name: "Mood".to_string(),
                rtype: config::Requirement::AtMost,
                rvalue: 3,
                values: vec!["calm".to_string(), "wild".to_string()],
            }],
        },
    ];

    for (si, cfg) in schemas.into_iter().enumerate() {
        let schema = Schema::from_config(cfg).unwrap();
        for selection in 0u32..32 {
            let mut rng = ChaCha8Rng::seed_from_u64(si as u64 + selection as u64);
            let mut state = to_empty_state(&schema, &mut rng);
            let mut bit = 0;
            for cat in state.categories.iter_mut() {
                for v in cat.values.iter_mut() {
                    v.1 = (selection >> bit) & 1 == 1;
                    bit += 1;
                }
                // every category keeps at least one selected tag, so that
                // the empty placeholder never appears in the filename
                if cat.values.iter().all(|p| !p.1) {
                    cat.values[0].1 = true;
                }
            }
            match selection_to_filename(&schema, &state) {
                // the selection does not meet the category requirements
                Err(_) => continue,
                Ok(filename) => {
                    let parsed = schema.parse(&filename).unwrap();
                    assert_eq!(state, parsed);
                }
            }
        }
    }
}

#[test]
fn cardinality_violation_is_reported() {
    let cfg = config::Schema {
        delim: "-".to_string(),
        categories: vec![config::Category {
            name: "Media".to_string(),
            rtype: config::Requirement::Exactly,
            rvalue: 1,
            values: vec!["art".to_string(), "photo".to_string()],
        }],
    };
    let schema = Schema::from_config(cfg).unwrap();
    let mut state = to_empty_state(&schema, &mut ChaCha8Rng::seed_from_u64(1));
    state.categories[0].values[0].1 = true;
    state.categories[0].values[1].1 = true;
    let err = selection_to_filename(&schema, &state).unwrap_err();
    assert_eq!(
        err,
        GenerateFilenameError::RequirementMismatch {
            category_name: "Media".to_string(),
            expected: Requirement::Exactly(1),
            selected: 2,
        }
    );
}

#[test]
fn unknown_tag_is_reported_on_parse() {
    let mut cfg = cfg_with_tag("cat");
    cfg.categories.push(config::Category {
        name: "People".to_string(),
        rtype: config::Requirement::AtLeast,
        rvalue: 0,
        values: vec!["chris".to_string(), "nathan".to_string()],
    });
    let schema = Schema::from_config(cfg).unwrap();
    let err = schema.parse("SALT42-cat-chris-dog").unwrap_err();
    assert_eq!(err, FilenameParseError::UnexpectedTag("dog".to_string()));
}

#[test]
fn empty_category_then_selection_fails_to_parse_back() {
    // A category with nothing selected contributes an empty placeholder that
    // the greedy parse cannot consume: such filenames do not round-trip.
    let mut cfg = cfg_with_tag("cat");
    cfg.categories.push(config::Category {
        name: "People".to_string(),
        rtype: config::Requirement::AtLeast,
        rvalue: 0,
        values: vec!["chris".to_string()],
    });
    let schema = Schema::from_config(cfg).unwrap();
    let mut state = to_empty_state(&schema, &mut ChaCha8Rng::seed_from_u64(0));
    state.categories[1].values[0].1 = true;
    let filename = selection_to_filename(&schema, &state).unwrap();
    assert_eq!(filename, "ZQYC5T--chris");
    assert_eq!(
        schema.parse(&filename).unwrap_err(),
        FilenameParseError::UnexpectedTag("".to_string())
    );
}

#[test]
fn generate_builds_the_body_without_the_salt() {
    let mut cfg = cfg_with_tag("cat");
    cfg.categories.push(config::Category {
        name: "People".to_string(),
        rtype: config::Requirement::AtLeast,
        rvalue: 0,
        values: vec!["chris".to_string(), "nathan".to_string()],
    });
    let schema = Schema::from_config(cfg).unwrap();
    let mut state = to_empty_state(&schema, &mut ChaCha8Rng::seed_from_u64(0));
    state.categories[0].values[0].1 = true;
    state.categories[1].values[1].1 = true;
    assert_eq!(generate(&schema, &state).unwrap(), "cat-nathan");
}

#[test]
fn schema_without_categories_round_trips() {
    let schema = Schema::from_config(config::Schema {
        delim: "-".to_string(),
        categories: vec![],
    })
    .unwrap();
    let state = to_empty_state(&schema, &mut ChaCha8Rng::seed_from_u64(0));
    let filename = selection_to_filename(&schema, &state).unwrap();
    assert_eq!(filename, "ZQYC5T");
    assert_eq!(schema.parse(&filename).unwrap(), state);
}

#[test]
fn multi_character_delimiters_leave_a_stray_character() {
    // serialization removes one trailing character, which undoes the final
    // delimiter only when the delimiter is a single character; with a longer
    // one a stray character remains and the filename does not parse back
    let mut cfg = cfg_with_tag("cat");
    cfg.delim = "--".to_string();
    let schema = Schema::from_config(cfg).unwrap();
    let mut state = to_empty_state(&schema, &mut ChaCha8Rng::seed_from_u64(0));
    state.categories[0].values[0].1 = true;
    let filename = selection_to_filename(&schema, &state).unwrap();
    assert_eq!(filename, "ZQYC5T--cat-");
    assert_eq!(
        schema.parse(&filename).unwrap_err(),
        FilenameParseError::UnexpectedTag("cat-".to_string())
    );
}

#[test]
fn salt_is_six_characters_from_the_alphabet() {
    let alphabet = "ABCDEFGHIJKLMNPQRSTUVWXYZ123456789";
    for seed in 0..50u64 {
        let mut rng = ChaCha8Rng::seed_from_u64(seed);
        let salt = gen_salt(&mut rng);
        assert_eq!(salt.chars().count(), 6);
        for c in salt.chars() {
            assert!(alphabet.contains(c));
        }
    }
}

#[test]
fn salt_is_deterministic_per_seed() {
    let mut rng = ChaCha8Rng::seed_from_u64(0);
    assert_eq!(gen_salt(&mut rng), "ZQYC5T");
    let mut rng2 = ChaCha8Rng::seed_from_u64(0);
    assert_eq!(gen_salt(&mut rng2), "ZQYC5T");
}
