use eliza::pattern::{is_compatible, is_synonym, match_pattern};
use eliza::Synonym;

fn happy_synonyms() -> Vec<Synonym> {
    vec![Synonym {
        label: "@happy".to_string(),
        list: vec![
            "happy".to_string(),
            "elated".to_string(),
            "glad".to_string(),
            "better".to_string(),
        ],
    }]
}

fn owned(groups: Vec<&str>) -> Option<Vec<String>> {
    Some(groups.into_iter().map(|g| g.to_string()).collect())
}

#[test]
fn test_match_pattern_all() {
    let input = "hello there";
    let pattern = "*";
    let expected = owned(vec!["hello there"]);
    assert_eq!(expected, match_pattern(pattern, input, &vec![]).unwrap());
}

#[test]
fn test_match_pattern_one_star() {
    // center
    let input = "hey i really like you";
    let pattern = "hey i * you";
    let expected = owned(vec!["really like"]);
    assert_eq!(expected, match_pattern(pattern, input, &vec![]).unwrap());

    // left
    let input = "really like you";
    let pattern = "* you";
    let expected = owned(vec!["really like"]);
    assert_eq!(expected, match_pattern(pattern, input, &vec![]).unwrap());

    // right
    let input = "i really like";
    let pattern = "i *";
    let expected = owned(vec!["really like"]);
    assert_eq!(expected, match_pattern(pattern, input, &vec![]).unwrap());
}

#[test]
fn test_match_pattern_multiple_stars() {
    let input = "somehow i am really happy";
    let pattern = "* i am *";
    let expected = owned(vec!["somehow", "really happy"]);
    assert_eq!(expected, match_pattern(pattern, input, &vec![]).unwrap());

    let input = "how are you doing today";
    let pattern = "how * you * today";
    let expected = owned(vec!["are", "doing"]);
    assert_eq!(expected, match_pattern(pattern, input, &vec![]).unwrap());
}

#[test]
fn test_match_pattern_synonym() {
    let synonyms = happy_synonyms();
    let input = "better";
    let pattern = "@happy";
    let expected = owned(vec!["better"]);
    assert_eq!(expected, match_pattern(pattern, input, &synonyms).unwrap());
}

#[test]
fn test_match_pattern_synonym_and_stars() {
    let synonyms = vec![Synonym {
        label: "@be".to_string(),
        list: vec![
            "be".to_string(),
            "am".to_string(),
            "is".to_string(),
            "are".to_string(),
            "was".to_string(),
        ],
    }];
    let input = "it really was like hell";
    let pattern = "* @be * like *";
    let expected = owned(vec!["it really", "was", "", "hell"]);
    assert_eq!(expected, match_pattern(pattern, input, &synonyms).unwrap());
}

#[test]
fn test_is_synonym() {
    let synonyms = happy_synonyms();

    assert!(!is_synonym("sad", "@happy", &synonyms).unwrap());
    assert!(is_synonym("elated", "@happy", &synonyms).unwrap());
}

#[test]
fn test_is_compatible_equals() {
    assert!(is_compatible("happy", "happy", &vec![]).unwrap());
    assert!(!is_compatible("sad", "happy", &vec![]).unwrap());
}

#[test]
fn test_is_compatible_synonyms() {
    let synonyms = happy_synonyms();

    assert!(is_compatible("elated", "@happy", &synonyms).unwrap());
    assert!(!is_compatible("sad", "@happy", &synonyms).unwrap());
}
