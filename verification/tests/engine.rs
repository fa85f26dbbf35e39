use eliza::{Decomposition, Eliza, Keyword, Replacement, Response, Rules};

/// Simple 'xnone' keyword (which are used for random messages), which
/// only has one message: 'random'.
fn xnone() -> Keyword {
    Keyword {
        word: "xnone".to_string(),
        weight: 0,
        decomposition: vec![Decomposition {
            pattern: "*".to_string(),
            reasmb: vec!["random".to_string()],
        }],
    }
}

#[test]
fn test_interact_quit() {
    let rules = Rules {
        initial: vec![],
        final_: vec!["goodbye".to_string()],
        quit: vec!["quit".to_string()],
        pre: vec![],
        post: vec![],
        synonyms: vec![],
        keywords: vec![xnone()],
    };

    let eliza = Eliza::new(rules);

    assert!(!eliza.interact("hello quit").unwrap().is_farewell);
    assert_eq!(
        Response::farewell("goodbye".to_string()),
        eliza.interact("quit").unwrap()
    );
}

#[test]
fn test_random_response() {
    let rules = Rules {
        initial: vec![],
        final_: vec![],
        quit: vec![],
        pre: vec![],
        post: vec![],
        synonyms: vec![],
        keywords: vec![xnone()],
    };

    let eliza = Eliza::new(rules);
    assert_eq!("random", eliza.random_response().unwrap());
}

#[test]
fn test_apply_best_matching_pattern() {
    let rules = Rules {
        initial: vec![],
        final_: vec![],
        quit: vec![],
        pre: vec![],
        post: vec![],
        synonyms: vec![],
        keywords: vec![
            Keyword {
                word: "test".to_string(),
                weight: 1,
                decomposition: vec![Decomposition {
                    pattern: "test *".to_string(),
                    reasmb: vec!["test".to_string()],
                }],
            },
            xnone(),
            Keyword {
                word: "hello".to_string(),
                weight: 2,
                decomposition: vec![Decomposition {
                    pattern: "* hello".to_string(),
                    reasmb: vec!["hello".to_string()],
                }],
            },
        ],
    };

    let eliza = Eliza::new(rules);

    let (groups, decomposition) = eliza
        .apply_best_matching_pattern("test hello")
        .unwrap()
        .unwrap();
    assert_eq!(vec!["test"], groups);
    assert_eq!("hello".to_string(), decomposition.reasmb[0]);

    let (groups, decomposition) = eliza
        .apply_best_matching_pattern("test 123")
        .unwrap()
        .unwrap();
    assert_eq!(vec!["123"], groups);
    assert_eq!("test".to_string(), decomposition.reasmb[0]);

    assert!(eliza.apply_best_matching_pattern("testing").unwrap().is_none());
}

#[test]
fn test_format_template() {
    let rules = Rules {
        initial: vec![],
        final_: vec![],
        quit: vec![],
        pre: vec![],
        post: vec![Replacement {
            from: "i".to_string(),
            to: "you".to_string(),
        }],
        synonyms: vec![],
        keywords: vec![],
    };

    let eliza = Eliza::new(rules);

    let output = eliza
        .format_template("test (1)", &vec!["123".to_string()])
        .unwrap();
    assert_eq!("test 123", &output);

    let output = eliza
        .format_template(
            "(1) test (3)",
            &vec!["123".to_string(), "".to_string(), "i".to_string()],
        )
        .unwrap();
    assert_eq!("123 test you", &output);
}

#[test]
fn test_rewrite() {
    let replacements = vec![Replacement {
        from: "123".to_string(),
        to: "321".to_string(),
    }];

    let output = Eliza::rewrite("testing 123 hello world", &replacements);
    assert_eq!("testing 321 hello world", output);
}

#[test]
fn test_interact_random_answer() {
    let rules = Rules {
        initial: vec![],
        final_: vec![],
        quit: vec![],
        pre: vec![],
        post: vec![],
        synonyms: vec![],
        keywords: vec![
            Keyword {
                word: "test".to_string(),
                weight: 1,
                decomposition: vec![Decomposition {
                    pattern: "test *".to_string(),
                    reasmb: vec!["test".to_string()],
                }],
            },
            xnone(),
            Keyword {
                word: "hello".to_string(),
                weight: 2,
                decomposition: vec![Decomposition {
                    pattern: "* hello".to_string(),
                    reasmb: vec!["hello".to_string()],
                }],
            },
        ],
    };

    let eliza = Eliza::new(rules);

    let expected = Response::normal("random".to_string());
    assert_eq!(expected, eliza.interact("world").unwrap());
}

#[test]
fn test_interact_chooses_pattern_with_highest_weight() {
    let rules = Rules {
        initial: vec![],
        final_: vec![],
        quit: vec![],
        pre: vec![],
        post: vec![],
        synonyms: vec![],
        keywords: vec![
            Keyword {
                word: "hello".to_string(),
                weight: 1,
                decomposition: vec![Decomposition {
                    pattern: "*".to_string(),
                    reasmb: vec!["hello".to_string()],
                }],
            },
            xnone(),
            Keyword {
                word: "world".to_string(),
                weight: 2,
                decomposition: vec![Decomposition {
                    pattern: "*".to_string(),
                    reasmb: vec!["world".to_string()],
                }],
            },
        ],
    };

    let eliza = Eliza::new(rules);

    let expected = Response::normal("world".to_string());
    assert_eq!(expected, eliza.interact("hello world").unwrap());
}

#[test]
fn test_interact_rewrites_groups() {
    let rules = Rules {
        initial: vec![],
        final_: vec![],
        quit: vec![],
        pre: vec![],
        post: vec![],
        synonyms: vec![],
        keywords: vec![
            xnone(),
            Keyword {
                word: "world".to_string(),
                weight: 1,
                decomposition: vec![Decomposition {
                    pattern: "* world".to_string(),
                    reasmb: vec!["(1) world".to_string()],
                }],
            },
        ],
    };

    let eliza = Eliza::new(rules);

    let expected = Response::normal("hello world".to_string());
    assert_eq!(expected, eliza.interact("hello world").unwrap());
}

#[test]
fn test_new_sorts_keywords_in_reverse_weight_order() {
    let rules = Rules {
        initial: vec![],
        final_: vec![],
        quit: vec![],
        pre: vec![],
        post: vec![],
        synonyms: vec![],
        keywords: vec![
            Keyword {
                word: "hello".to_string(),
                weight: 1,
                decomposition: vec![Decomposition {
                    pattern: "*".to_string(),
                    reasmb: vec!["hello".to_string()],
                }],
            },
            xnone(),
            Keyword {
                word: "world".to_string(),
                weight: 2,
                decomposition: vec![Decomposition {
                    pattern: "*".to_string(),
                    reasmb: vec!["world".to_string()],
                }],
            },
        ],
    };

    let eliza = Eliza::new(rules);

    let weights: Vec<u8> = eliza.rules.keywords.iter().map(|k| k.weight).collect();
    let expected: Vec<u8> = vec![2, 1, 0];

    assert_eq!(expected, weights);
}

#[test]
fn test_greetings() {
    let rules = Rules {
        initial: vec!["hello".to_string(), "world".to_string()],
        final_: vec![],
        quit: vec![],
        pre: vec![],
        post: vec![],
        synonyms: vec![],
        keywords: vec![xnone()],
    };

    let eliza = Eliza::new(rules);
    assert!(vec!["hello", "world"].contains(&eliza.greeting().unwrap().as_str()));
}
