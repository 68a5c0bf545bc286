use rs_shamir::error::RsError;
use rs_shamir::shamir::{gen_random_bytes, shamir, shamir_phrases, unshamir};
use rs_shamir::words::{from_words, to_words, vocabulary as vocabulary_spans};

fn vocabulary() -> Vec<String> {
    (0..256).map(|i| format!("w{}", i)).collect()
}

#[test]
fn words_round_trip() {
    let list = vocabulary();
    let bytes = vec![0u8, 1, 200, 255];
    let words = to_words(&bytes, &list).unwrap();
    assert_eq!(words, vec!["w0", "w1", "w200", "w255"]);
    assert_eq!(from_words(&words, &list).unwrap(), bytes);
}

#[test]
fn words_report_bad_vocabulary() {
    let list = vocabulary();
    let short: Vec<String> = list[..10].to_vec();
    assert_eq!(to_words(&[1], &short), Err(RsError::BadVocabulary));
    assert_eq!(from_words(&["w1".to_string()], &short), Err(RsError::BadVocabulary));
    assert_eq!(from_words(&["nope".to_string()], &list), Err(RsError::BadVocabulary));
}

#[test]
fn random_bytes_have_the_requested_length() {
    assert_eq!(gen_random_bytes(0).len(), 0);
    assert_eq!(gen_random_bytes(17).len(), 17);
}

#[test]
fn phrases_start_with_the_secret() {
    let list = vocabulary();
    let random = vec![vec![1u8, 2, 3], vec![4u8, 5, 6]];
    let phrases = shamir_phrases(&random, 5, 3, &list).unwrap();
    assert_eq!(phrases.len(), 6);
    assert_eq!(phrases[0], vec!["w1", "w4"]);
    assert_eq!(phrases[1], vec!["w2", "w5"]);
    assert_eq!(phrases[2], vec!["w3", "w6"]);
}

#[test]
fn shamir_round_trip_any_three_of_five() {
    let list = vocabulary();
    let phrases = shamir(5, 3, 10, &list).unwrap();
    assert_eq!(phrases.len(), 6);
    for p in phrases.iter() {
        assert_eq!(p.len(), 10);
    }
    for a in 1..=5 {
        for b in (a + 1)..=5 {
            for c in (b + 1)..=5 {
                let given: Vec<Option<Vec<String>>> = (0..=5)
                    .map(|j| {
                        if j == a || j == b || j == c {
                            Some(phrases[j].clone())
                        } else {
                            None
                        }
                    })
                    .collect();
                assert_eq!(unshamir(&given, 3, &list).unwrap(), phrases[0]);
            }
        }
    }
}

#[test]
fn unshamir_needs_enough_shards() {
    let list = vocabulary();
    let phrases = shamir(4, 3, 5, &list).unwrap();
    let given: Vec<Option<Vec<String>>> = vec![None, Some(phrases[1].clone()), None, Some(phrases[3].clone()), None];
    assert_eq!(unshamir(&given, 3, &list), Err(RsError::TooManyErasures));
    let ragged: Vec<Option<Vec<String>>> = vec![
        None,
        Some(phrases[1].clone()),
        Some(phrases[2][..3].to_vec()),
        Some(phrases[3].clone()),
        None,
    ];
    assert_eq!(unshamir(&ragged, 3, &list), Err(RsError::DimensionMismatch));
}

#[test]
fn vocabulary_trims_and_skips_blank_lines() {
    let text = "  alpha \n\n beta\r\ngamma";
    assert_eq!(vocabulary_spans(text), vec![(2, 7), (11, 15), (17, 22)]);
    let words: Vec<&str> = vocabulary_spans(text).iter().map(|(a, b)| &text[*a..*b]).collect();
    assert_eq!(words, vec!["alpha", "beta", "gamma"]);
    let long: String = (0..300).map(|i| format!("w{}\n", i)).collect();
    let spans = vocabulary_spans(&long);
    assert_eq!(spans.len(), 256);
    assert_eq!(&long[spans[255].0..spans[255].1], "w255");
    assert_eq!(vocabulary_spans(""), Vec::<(usize, usize)>::new());
}

#[test]
fn unshamir_reports_each_error() {
    let list = vocabulary_words();
    let phrases = shamir(4, 3, 5, &list).unwrap();
    let mut unknown: Vec<Option<Vec<String>>> = vec![None; 5];
    unknown[1] = Some(vec!["nope".to_string(); 5]);
    assert_eq!(unshamir(&unknown, 3, &list), Err(RsError::BadVocabulary));
    let mut few: Vec<Option<Vec<String>>> = vec![None; 5];
    few[2] = Some(phrases[2].clone());
    assert_eq!(unshamir(&few, 3, &list), Err(RsError::TooManyErasures));
    let with_secret: Vec<Option<Vec<String>>> = vec![Some(phrases[0].clone()), Some(phrases[1].clone()), None, Some(phrases[3].clone()), None];
    assert_eq!(unshamir(&with_secret, 3, &list).unwrap(), phrases[0]);
}

fn vocabulary_words() -> Vec<String> {
    (0..256).map(|i| format!("w{}", i)).collect()
}
