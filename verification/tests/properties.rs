use eliza::pattern::{is_synonym, match_pattern};
use eliza::{ConfigError, Decomposition, Eliza, Keyword, Replacement, Rules};

fn xnone() -> Keyword {
    Keyword {
        word: "xnone".to_string(),
        weight: 0,
        decomposition: vec![Decomposition {
            pattern: "*".to_string(),
            reasmb: vec!["random".to_string()],
        }],
    }
}

fn bare_rules(keywords: Vec<Keyword>) -> Rules {
    Rules {
        initial: vec![],
        final_: vec![],
        quit: vec![],
        pre: vec![],
        post: vec![],
        synonyms: vec![],
        keywords,
    }
}

#[test]
fn test_match_star_empty_input() {
    // the bare wildcard matches everything, the empty input included, and
    // captures the entire input as the single group
    let expected = Some(vec!["".to_string()]);
    assert_eq!(expected, match_pattern("*", "", &vec![]).unwrap());
}

#[test]
fn test_match_pattern_longer_than_input() {
    // a pattern that needs more words than the input offers does not match
    assert!(match_pattern("testing 123", "testing", &vec![]).unwrap().is_none());
    assert!(match_pattern("test *", "testing", &vec![]).unwrap().is_none());
}

#[test]
fn test_match_star_keeps_inner_spacing() {
    // a multi-word capture is the exact original substring
    let expected = Some(vec!["really  like".to_string()]);
    assert_eq!(expected, match_pattern("* you", "really  like you", &vec![]).unwrap());
}

#[test]
fn test_match_unknown_synonym_is_error() {
    assert_eq!(
        Err(ConfigError::UnknownSynonym),
        match_pattern("@happy *", "sad days", &vec![])
    );
}

#[test]
fn test_is_synonym_unknown_label_is_error() {
    assert_eq!(Err(ConfigError::UnknownSynonym), is_synonym("happy", "@happy", &vec![]));
}

#[test]
fn test_greeting_empty_initial_is_error() {
    let eliza = Eliza::new(bare_rules(vec![xnone()]));
    assert_eq!(Err(ConfigError::EmptyInitial), eliza.greeting());
}

#[test]
fn test_greeting_single_choice() {
    let mut rules = bare_rules(vec![xnone()]);
    rules.initial = vec!["welcome".to_string()];
    let eliza = Eliza::new(rules);
    assert_eq!("welcome", eliza.greeting().unwrap());
}

#[test]
fn test_interact_missing_fallback_is_error() {
    // no keyword matches and no xnone exists: an explicit configuration
    // error, not a crash
    let eliza = Eliza::new(bare_rules(vec![]));
    assert_eq!(Err(ConfigError::MissingFallback), eliza.interact("anything"));
}

#[test]
fn test_interact_empty_final_is_error() {
    let mut rules = bare_rules(vec![xnone()]);
    rules.quit = vec!["quit".to_string()];
    let eliza = Eliza::new(rules);
    assert_eq!(Err(ConfigError::EmptyFinal), eliza.interact("quit"));
}

#[test]
fn test_interact_empty_reassembly_is_error() {
    let keywords = vec![
        xnone(),
        Keyword {
            word: "hello".to_string(),
            weight: 1,
            decomposition: vec![Decomposition {
                pattern: "*".to_string(),
                reasmb: vec![],
            }],
        },
    ];
    let eliza = Eliza::new(bare_rules(keywords));
    assert_eq!(Err(ConfigError::EmptyReassembly), eliza.interact("hello"));
}

#[test]
fn test_interact_empty_fallback_decomposition_is_error() {
    let keywords = vec![Keyword {
        word: "xnone".to_string(),
        weight: 0,
        decomposition: vec![],
    }];
    let eliza = Eliza::new(bare_rules(keywords));
    assert_eq!(Err(ConfigError::EmptyDecomposition), eliza.interact("anything"));
}

#[test]
fn test_format_template_out_of_range_is_error() {
    let eliza = Eliza::new(bare_rules(vec![]));
    assert_eq!(
        Err(ConfigError::GroupOutOfRange),
        eliza.format_template("(3)", &vec!["a".to_string()])
    );
    assert_eq!(
        Err(ConfigError::GroupOutOfRange),
        eliza.format_template("(0)", &vec!["a".to_string()])
    );
}

#[test]
fn test_format_template_non_reference_tokens_pass_through() {
    let eliza = Eliza::new(bare_rules(vec![]));
    assert_eq!("( (x) done", eliza.format_template("( (x) done", &vec![]).unwrap());
}

#[test]
fn test_interact_trims_and_lowercases() {
    // quit phrases are compared against the trimmed, lowercased input
    let mut rules = bare_rules(vec![xnone()]);
    rules.quit = vec!["quit".to_string()];
    rules.final_ = vec!["bye".to_string()];
    let eliza = Eliza::new(rules);
    assert!(eliza.interact("  QUIT  ").unwrap().is_farewell);
    assert!(!eliza.interact("quitter").unwrap().is_farewell);
}

#[test]
fn test_interact_applies_pre_table() {
    let mut rules = bare_rules(vec![
        xnone(),
        Keyword {
            word: "hello".to_string(),
            weight: 1,
            decomposition: vec![Decomposition {
                pattern: "*".to_string(),
                reasmb: vec!["greetings".to_string()],
            }],
        },
    ]);
    rules.pre = vec![Replacement {
        from: "hi".to_string(),
        to: "hello".to_string(),
    }];
    let eliza = Eliza::new(rules);
    assert_eq!("greetings", eliza.interact("hi").unwrap().message);
}

#[test]
fn test_interact_wildcard_synonym_empty_capture() {
    // a wildcard immediately followed by a matching synonym captures the
    // empty string
    let mut rules = bare_rules(vec![
        xnone(),
        Keyword {
            word: "was".to_string(),
            weight: 1,
            decomposition: vec![Decomposition {
                pattern: "* @be * like *".to_string(),
                reasmb: vec!["(1)/(2)/(3)/(4)".to_string()],
            }],
        },
    ]);
    rules.synonyms = vec![eliza::Synonym {
        label: "@be".to_string(),
        list: vec!["be".to_string(), "was".to_string()],
    }];
    let eliza = Eliza::new(rules);
    let groups = eliza
        .apply_best_matching_pattern("it really was like hell")
        .unwrap()
        .unwrap()
        .0;
    assert_eq!(vec!["it really", "was", "", "hell"], groups);
}

#[test]
fn test_stable_sort_keeps_declaration_order_on_ties() {
    let mut rules = bare_rules(vec![
        Keyword {
            word: "first".to_string(),
            weight: 1,
            decomposition: vec![],
        },
        Keyword {
            word: "second".to_string(),
            weight: 1,
            decomposition: vec![],
        },
        Keyword {
            word: "heavy".to_string(),
            weight: 3,
            decomposition: vec![],
        },
    ]);
    rules.sort_keywords_by_reverse_weight();
    let words: Vec<&str> = rules.keywords.iter().map(|k| k.word.as_str()).collect();
    assert_eq!(vec!["heavy", "first", "second"], words);
}
