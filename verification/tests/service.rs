use sensitive_filter::ac::AcMachine;
use sensitive_filter::error::{FileRead, FilterError};
use sensitive_filter::filter::{SensitiveFilter, Startup};

fn ready(dictionary: &str) -> SensitiveFilter {
    let mut service = SensitiveFilter::new();
    let rebuilt = match SensitiveFilter::rebuild_index(FileRead::Contents(dictionary.to_string())) {
        Ok(rebuilt) => rebuilt,
        Err(error) => panic!("{}", error.message()),
    };
    assert_eq!(service.install(rebuilt, true), Ok(()));
    service
}

#[test]
fn a_new_service_passes_text_through() {
    let service = SensitiveFilter::new();
    assert_eq!(service.filter("some bad text"), "some bad text");
    assert!(service.find_sensitive_words("some bad text").is_empty());
}

#[test]
fn init_restores_a_persisted_index() {
    let bytes = AcMachine::from_words(vec!["bad".to_string(), "evil".to_string()]).save_to_file();
    let mut service = SensitiveFilter::new();
    assert_eq!(service.init(FileRead::Contents(bytes)), Startup::Ready);
    assert_eq!(service.filter("a bad and evil plan"), "a *** and **** plan");
    assert_eq!(
        service.find_sensitive_words("a bad and evil plan"),
        vec!["bad".to_string(), "evil".to_string()]
    );
}

#[test]
fn init_without_index_file_asks_for_a_rebuild() {
    let mut service = SensitiveFilter::new();
    assert_eq!(service.init(FileRead::Missing), Startup::Rebuild);
    assert_eq!(service.init(FileRead::Failed), Startup::Rebuild);
    assert_eq!(service.filter("bad"), "bad");
}

#[test]
fn corrupt_index_is_recovered_by_a_rebuild() {
    let mut service = SensitiveFilter::new();
    let corrupt = b"\x41\x43\x49\x58\x01\x02\x03ab".to_vec();
    assert_eq!(service.init(FileRead::Contents(corrupt)), Startup::Rebuild);
    let rebuilt = SensitiveFilter::rebuild_index(FileRead::Contents("bad\nevil\n".to_string()));
    let rebuilt = match rebuilt {
        Ok(rebuilt) => rebuilt,
        Err(error) => panic!("{}", error.message()),
    };
    assert_eq!(service.install(rebuilt, true), Ok(()));
    assert_eq!(service.filter("bad evil good"), "*** **** good");
}

#[test]
fn corrupt_index_leaves_the_live_index() {
    let mut service = ready("bad\n");
    assert_eq!(service.init(FileRead::Contents(vec![1, 2, 3])), Startup::Rebuild);
    assert_eq!(service.filter("bad evil"), "*** evil");
}

#[test]
fn rebuild_without_dictionary_is_not_found() {
    let service = ready("bad\n");
    assert!(matches!(
        SensitiveFilter::rebuild_index(FileRead::Missing),
        Err(FilterError::NotFound)
    ));
    assert_eq!(service.filter("bad evil"), "*** evil");
    assert_eq!(service.find_sensitive_words("bad evil"), vec!["bad".to_string()]);
}

#[test]
fn rebuild_from_blank_lines_is_empty_dictionary() {
    let service = ready("bad\n");
    for text in ["", "\n\n\n", "  \n\t\n \r\n"] {
        assert!(matches!(
            SensitiveFilter::rebuild_index(FileRead::Contents(text.to_string())),
            Err(FilterError::EmptyDictionary)
        ));
    }
    assert_eq!(service.filter("bad evil"), "*** evil");
}

#[test]
fn rebuild_from_unreadable_dictionary_is_io() {
    assert!(matches!(SensitiveFilter::rebuild_index(FileRead::Failed), Err(FilterError::Io)));
}

#[test]
fn rebuild_replaces_the_live_index_as_a_whole() {
    let mut service = ready("bad\n");
    let rebuilt = SensitiveFilter::rebuild_index(FileRead::Contents(" evil \n\nworse\n".to_string()));
    let rebuilt = match rebuilt {
        Ok(rebuilt) => rebuilt,
        Err(error) => panic!("{}", error.message()),
    };
    assert_eq!(service.filter("bad evil worse"), "*** evil worse");
    assert_eq!(service.install(rebuilt, true), Ok(()));
    assert_eq!(service.filter("bad evil worse"), "bad **** *****");
    assert_eq!(
        service.find_sensitive_words("bad evil worse"),
        vec!["evil".to_string(), "worse".to_string()]
    );
}

#[test]
fn rebuild_that_could_not_be_persisted_leaves_the_live_index() {
    let mut service = ready("bad\n");
    let rebuilt = SensitiveFilter::rebuild_index(FileRead::Contents("evil\n".to_string()));
    let rebuilt = match rebuilt {
        Ok(rebuilt) => rebuilt,
        Err(error) => panic!("{}", error.message()),
    };
    assert_eq!(service.install(rebuilt, false), Err(FilterError::Io));
    assert_eq!(service.filter("bad evil"), "*** evil");
}

#[test]
fn record_of_a_rebuild_restores_the_rebuilt_index() {
    let rebuilt = SensitiveFilter::rebuild_index(FileRead::Contents("abc\nbc\n敏感\n".to_string()));
    let rebuilt = match rebuilt {
        Ok(rebuilt) => rebuilt,
        Err(error) => panic!("{}", error.message()),
    };
    let bytes = rebuilt.record().clone();
    assert_eq!(
        bytes,
        AcMachine::from_words(vec!["abc".to_string(), "bc".to_string(), "敏感".to_string()])
            .save_to_file()
    );
    let mut first = SensitiveFilter::new();
    assert_eq!(first.install(rebuilt, true), Ok(()));
    let mut second = SensitiveFilter::new();
    assert_eq!(second.init(FileRead::Contents(bytes)), Startup::Ready);
    for text in ["xabcx", "bc 敏感 abc", "", "nothing"] {
        assert_eq!(first.filter(text), second.filter(text));
        assert_eq!(first.find_sensitive_words(text), second.find_sensitive_words(text));
    }
}

#[test]
fn found_words_come_in_scan_order_with_repeats() {
    let service = ready("bad\nevil\n");
    assert_eq!(
        service.find_sensitive_words("evil bad bad evil"),
        vec!["evil".to_string(), "bad".to_string(), "bad".to_string(), "evil".to_string()]
    );
    assert!(service.find_sensitive_words("all good").is_empty());
}

#[test]
fn errors_have_messages() {
    assert_eq!(FilterError::NotFound.message(), "Dictionary or index file not found");
    assert_eq!(FilterError::EmptyDictionary.message(), "No words found in dictionary file");
    assert_ne!(FilterError::Decode.message(), FilterError::Io.message());
    assert_ne!(FilterError::NotBuilt.message(), FilterError::Io.message());
}
