use sensitive_filter::ac::{label_matches, mask_matches, AcMachine, BuildOutcome};
use sensitive_filter::error::FilterError;

fn words(list: &[&str]) -> Vec<String> {
    list.iter().map(|word| word.to_string()).collect()
}

#[test]
fn leftmost_first_example() {
    let machine = AcMachine::from_words(words(&["abc", "bc"]));
    assert!(machine.is_built());
    assert_eq!(machine.find_matches("xabcx"), vec![(1, 4, "abc")]);
}

#[test]
fn earliest_start_wins_over_earlier_end() {
    let machine = AcMachine::from_words(words(&["abcd", "bc"]));
    assert_eq!(machine.find_matches("abcd"), vec![(0, 4, "abcd")]);
    let machine = AcMachine::from_words(words(&["b", "abcd"]));
    assert_eq!(machine.find_matches("abcdef"), vec![(0, 4, "abcd")]);
    let machine = AcMachine::from_words(words(&["bcd", "abcx"]));
    assert_eq!(machine.find_matches("abcd"), vec![(1, 4, "bcd")]);
    let machine = AcMachine::from_words(words(&["bcd", "ab"]));
    assert_eq!(machine.find_matches("abcd"), vec![(0, 2, "ab")]);
}

#[test]
fn first_word_of_the_list_wins_at_one_offset() {
    let machine = AcMachine::from_words(words(&["ab", "abc"]));
    assert_eq!(machine.find_matches("abc"), vec![(0, 2, "ab")]);
    let machine = AcMachine::from_words(words(&["abc", "ab"]));
    assert_eq!(machine.find_matches("abc"), vec![(0, 3, "abc")]);
    assert_eq!(machine.find_matches("abd"), vec![(0, 2, "ab")]);
}

#[test]
fn scan_resumes_behind_each_match() {
    let machine = AcMachine::from_words(words(&["aa"]));
    assert_eq!(machine.find_matches("aaaaa"), vec![(0, 2, "aa"), (2, 4, "aa")]);
    let machine = AcMachine::from_words(words(&["append", "appendage", "app"]));
    assert_eq!(
        machine.find_matches("append the app to the appendage"),
        vec![(0, 6, "append"), (11, 14, "app"), (22, 28, "append")]
    );
}

#[test]
fn matches_are_ordered_and_disjoint() {
    let machine = AcMachine::from_words(words(&["he", "she", "his", "hers", "s"]));
    let text = "ushers and his sheep; she hissed hershe";
    let found = machine.find_matches(text);
    assert!(!found.is_empty());
    for (start, end, word) in &found {
        assert!(start < end && *end <= text.len());
        assert_eq!(&text[*start..*end], *word);
        assert_eq!(end - start, word.len());
    }
    for pair in found.windows(2) {
        assert!(pair[0].1 <= pair[1].0);
    }
}

#[test]
fn offsets_count_bytes() {
    let machine = AcMachine::from_words(words(&["b", "词"]));
    assert_eq!(machine.find_matches("éb敏感词"), vec![(2, 3, "b"), (9, 12, "词")]);
}

#[test]
fn duplicate_words_are_tolerated() {
    let machine = AcMachine::from_words(words(&["a", "b", "a"]));
    assert_eq!(machine.word_list().len(), 3);
    assert_eq!(machine.find_matches("ab"), vec![(0, 1, "a"), (1, 2, "b")]);
}

#[test]
fn matching_is_case_sensitive() {
    let machine = AcMachine::from_words(words(&["bad"]));
    assert_eq!(machine.find_matches("Bad BAD bad"), vec![(8, 11, "bad")]);
}

#[test]
fn an_index_without_matcher_finds_nothing() {
    let machine = AcMachine::new();
    assert!(!machine.is_built());
    assert!(machine.word_list().is_empty());
    assert!(machine.find_matches("anything at all").is_empty());
    assert_eq!(machine.filter_text("anything at all"), "anything at all");
}

#[test]
fn build_reports_what_came_of_it() {
    let mut machine = AcMachine::new();
    assert_eq!(machine.build(), BuildOutcome::NoWords);
    assert!(!machine.is_built());
    let empty = AcMachine::from_words(Vec::new());
    assert!(!empty.is_built());
    let mut machine = AcMachine::from_words(words(&["x"]));
    assert!(machine.is_built());
    assert_eq!(machine.build(), BuildOutcome::Built);
    assert!(machine.is_built());
    assert_eq!(machine.word_list(), &words(&["x"]));
}

#[test]
fn building_twice_gives_the_same_matches() {
    let list = words(&["foo", "bar", "foobar", "oba"]);
    let first = AcMachine::from_words(list.clone());
    let mut second = AcMachine::from_words(list);
    second.build();
    for text in ["foobar", "xfooxbarx", "obafoo", "", "barbarfoobarfoo"] {
        assert_eq!(first.find_matches(text), second.find_matches(text));
        assert_eq!(first.filter_text(text), second.filter_text(text));
    }
}

#[test]
fn filter_masks_every_byte_of_every_match() {
    let machine = AcMachine::from_words(words(&["bad", "evil"]));
    assert_eq!(machine.filter_text("a bad evil thing"), "a *** **** thing");
    assert_eq!(machine.filter_text("badbad"), "******");
    assert_eq!(machine.filter_text("bad"), "***");
}

#[test]
fn filter_keeps_the_length_in_bytes() {
    let machine = AcMachine::from_words(words(&["敏感", "é", "ab"]));
    let text = "这是敏感词, café ab 敏感";
    let filtered = machine.filter_text(text);
    assert_eq!(filtered, "这是******词, caf** ** ******");
    assert_eq!(filtered.len(), text.len());
    for text in ["", "é", "敏", "敏感敏感", "xabx", "ééé"] {
        assert_eq!(machine.filter_text(text).len(), text.len());
    }
}

#[test]
fn filter_leaves_a_text_without_match_as_it_is() {
    let machine = AcMachine::from_words(words(&["bad"]));
    for text in ["", "good", "ba d", "这是词", "b*d"] {
        assert!(machine.find_matches(text).is_empty());
        assert_eq!(machine.filter_text(text), text);
    }
}

#[test]
fn filter_agrees_with_find_matches() {
    let machine = AcMachine::from_words(words(&["he", "she", "his", "hers"]));
    let text = "ushers and his sheep";
    let mut expected = text.as_bytes().to_vec();
    for (start, end, _) in machine.find_matches(text) {
        for byte in &mut expected[start..end] {
            *byte = b'*';
        }
    }
    assert_eq!(machine.filter_text(text).into_bytes(), expected);
}

#[test]
fn an_index_of_words_has_no_matcher_until_it_is_built() {
    let mut machine = AcMachine::with_words(words(&["abc", "bc"]));
    assert!(!machine.is_built());
    assert_eq!(machine.word_list(), &words(&["abc", "bc"]));
    assert!(machine.find_matches("xabcx").is_empty());
    assert_eq!(machine.filter_text("xabcx"), "xabcx");
    assert_eq!(machine.build(), BuildOutcome::Built);
    assert!(machine.is_built());
    assert_eq!(machine.find_matches("xabcx"), vec![(1, 4, "abc")]);
    assert_eq!(machine.filter_text("xabcx"), "x***x");
}

#[test]
fn an_index_serves_with_its_matcher_or_without_words() {
    assert!(matches!(AcMachine::new().usable(), Ok(machine) if !machine.is_built()));
    assert!(matches!(AcMachine::from_words(words(&["a"])).usable(), Ok(machine) if machine.is_built()));
    assert!(matches!(AcMachine::with_words(words(&["a"])).usable(), Err(FilterError::NotBuilt)));
}

#[test]
fn raw_matches_are_labelled_with_their_words() {
    let list = words(&["abc", "bc", "敏感"]);
    let raw = vec![(1, 4, 0), (4, 6, 1), (6, 12, 2), (12, 14, 1)];
    assert_eq!(
        label_matches(&list, &raw),
        vec![(1, 4, "abc"), (4, 6, "bc"), (6, 12, "敏感"), (12, 14, "bc")]
    );
    assert!(label_matches(&list, &Vec::new()).is_empty());
}

#[test]
fn given_matches_are_masked() {
    assert_eq!(mask_matches("xabcx", &vec![(1, 4, "abc")]), "x***x");
    assert_eq!(mask_matches("xabcx", &Vec::new()), "xabcx");
    assert_eq!(mask_matches("abcbc", &vec![(0, 3, "abc"), (3, 5, "bc")]), "*****");
    assert_eq!(
        mask_matches("这是敏感词 é", &vec![(6, 12, "敏感"), (16, 18, "é")]),
        "这是******词 **"
    );
}
