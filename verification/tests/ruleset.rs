use eliza::{Keyword, Rules};

#[test]
pub fn test_keywords_by_reverse_weight() {
    let keywords = vec![
        Keyword {
            word: "".to_string(),
            weight: 0,
            decomposition: vec![],
        },
        Keyword {
            word: "".to_string(),
            weight: 2,
            decomposition: vec![],
        },
        Keyword {
            word: "".to_string(),
            weight: 1,
            decomposition: vec![],
        },
    ];

    let mut rules = Rules {
        initial: vec![],
        final_: vec![],
        quit: vec![],
        pre: vec![],
        post: vec![],
        synonyms: vec![],
        keywords,
    };

    rules.sort_keywords_by_reverse_weight();

    let result: Vec<u8> = rules.keywords.iter().map(|k| k.weight).collect();
    let expected = vec![2, 1, 0];

    assert_eq!(expected, result);
}
