use sensitive_filter::ac::AcMachine;
use sensitive_filter::error::{FileRead, FilterError};
use sensitive_filter::record::{decode_record, encode_record};

fn list(words: &[&str]) -> Vec<String> {
    words.iter().map(|word| word.to_string()).collect()
}

fn record(payload: &[u8]) -> Vec<u8> {
    let mut bytes = vec![0x41, 0x43, 0x49, 0x58, 0x01];
    bytes.extend_from_slice(payload);
    bytes
}

#[test]
fn record_bytes_are_header_count_and_framed_words() {
    let bytes = encode_record(&list(&["ab", "é"]));
    assert_eq!(bytes, vec![0x41, 0x43, 0x49, 0x58, 0x01, 2, 2, b'a', b'b', 2, 0xc3, 0xa9]);
    assert_eq!(encode_record(&Vec::new()), vec![0x41, 0x43, 0x49, 0x58, 0x01, 0]);
}

#[test]
fn record_lengths_take_the_shortest_form() {
    let word = "x".repeat(250);
    let bytes = encode_record(&vec![word.clone()]);
    assert_eq!(&bytes[5..7], &[1, 250]);
    assert_eq!(bytes.len(), 7 + 250);
    let word = "x".repeat(251);
    let bytes = encode_record(&vec![word]);
    assert_eq!(&bytes[5..9], &[1, 251, 251, 0]);
    let word = "x".repeat(300);
    let bytes = encode_record(&vec![word]);
    assert_eq!(&bytes[5..9], &[1, 251, 0x2c, 0x01]);
    assert_eq!(bytes.len(), 9 + 300);
    let word = "x".repeat(70_000);
    let bytes = encode_record(&vec![word.clone()]);
    assert_eq!(&bytes[5..11], &[1, 252, 0x70, 0x11, 0x01, 0x00]);
    assert_eq!(decode_record(&bytes), Some(vec![word]));
}

#[test]
fn record_counts_take_the_shortest_form() {
    let words: Vec<String> = (0..300).map(|i| format!("w{}", i)).collect();
    let bytes = encode_record(&words);
    assert_eq!(&bytes[5..8], &[251, 0x2c, 0x01]);
    assert_eq!(decode_record(&bytes), Some(words));
}

#[test]
fn record_round_trip() {
    let words = list(&["foo", "敏感词", "a b", "foo", "é"]);
    let bytes = encode_record(&words);
    assert_eq!(decode_record(&bytes), Some(words));
}

#[test]
fn saved_index_loads_to_the_same_index() {
    let machine = AcMachine::from_words(list(&["abc", "bc", "敏感"]));
    let bytes = machine.save_to_file();
    let loaded = match AcMachine::load_from_file(FileRead::Contents(bytes)) {
        Ok(loaded) => loaded,
        Err(error) => panic!("{}", error.message()),
    };
    assert!(loaded.is_built());
    assert_eq!(loaded.word_list(), machine.word_list());
    for text in ["xabcx", "bcbc", "这是敏感词abc", ""] {
        assert_eq!(loaded.find_matches(text), machine.find_matches(text));
        assert_eq!(loaded.filter_text(text), machine.filter_text(text));
    }
}

#[test]
fn saving_does_not_depend_on_the_matcher() {
    let built = AcMachine::from_words(list(&["abc"]));
    assert_eq!(built.save_to_file(), encode_record(&list(&["abc"])));
    assert_eq!(AcMachine::new().save_to_file(), encode_record(&Vec::new()));
}

#[test]
fn record_of_no_words_loads_without_matcher() {
    let bytes = AcMachine::new().save_to_file();
    let loaded = AcMachine::load_from_file(FileRead::Contents(bytes));
    assert!(matches!(&loaded, Ok(machine) if !machine.is_built() && machine.word_list().is_empty()));
}

#[test]
fn load_reports_missing_and_unreadable_files() {
    assert!(matches!(AcMachine::load_from_file(FileRead::Missing), Err(FilterError::NotFound)));
    assert!(matches!(AcMachine::load_from_file(FileRead::Failed), Err(FilterError::Io)));
}

#[test]
fn load_rejects_what_is_no_record() {
    for bytes in [
        vec![],
        vec![0x41, 0x43, 0x49, 0x58],
        vec![0x41, 0x43, 0x49, 0x58, 0x01],
        b"not an index at all".to_vec(),
        vec![1, 3, b'a', b'b', b'c'],
    ] {
        assert_eq!(decode_record(&bytes), None);
        assert!(matches!(
            AcMachine::load_from_file(FileRead::Contents(bytes)),
            Err(FilterError::Decode)
        ));
    }
}

#[test]
fn decode_rejects_another_version() {
    let mut bytes = encode_record(&list(&["abc"]));
    assert_eq!(decode_record(&bytes), Some(list(&["abc"])));
    bytes[4] = 0x02;
    assert_eq!(decode_record(&bytes), None);
    bytes[4] = 0x01;
    bytes[0] = 0x42;
    assert_eq!(decode_record(&bytes), None);
}

#[test]
fn decode_rejects_truncated_and_trailing_bytes() {
    let bytes = encode_record(&list(&["abc", "de"]));
    for cut in 0..bytes.len() {
        assert_eq!(decode_record(&bytes[..cut]), None);
    }
    let mut longer = bytes.clone();
    longer.push(0);
    assert_eq!(decode_record(&longer), None);
}

#[test]
fn decode_rejects_lengths_not_in_shortest_form() {
    assert_eq!(decode_record(&record(&[1, 3, b'a', b'b', b'c'])), Some(list(&["abc"])));
    assert_eq!(decode_record(&record(&[1, 251, 3, 0, b'a', b'b', b'c'])), None);
    assert_eq!(decode_record(&record(&[1, 252, 3, 0, 0, 0, b'a', b'b', b'c'])), None);
    assert_eq!(decode_record(&record(&[1, 253, 3, 0, 0, 0, 0, 0, 0, 0, b'a', b'b', b'c'])), None);
    assert_eq!(decode_record(&record(&[251, 1, 0, 3, b'a', b'b', b'c'])), None);
    assert_eq!(decode_record(&record(&[1, 254, 3, b'a', b'b', b'c'])), None);
    assert_eq!(decode_record(&record(&[1, 255, 3, b'a', b'b', b'c'])), None);
}

#[test]
fn decode_rejects_lengths_beyond_the_bytes() {
    assert_eq!(decode_record(&record(&[1, 4, b'a', b'b', b'c'])), None);
    assert_eq!(decode_record(&record(&[2, 3, b'a', b'b', b'c'])), None);
    assert_eq!(
        decode_record(&record(&[1, 253, 0xff, 0xff, 0xff, 0xff, 0xff, 0xff, 0xff, 0x7f, b'a'])),
        None
    );
    assert_eq!(
        decode_record(&record(&[253, 0xff, 0xff, 0xff, 0xff, 0xff, 0xff, 0xff, 0xff, 1, b'a'])),
        None
    );
    assert_eq!(decode_record(&record(&[1, 252, 0xff, 0xff, 0xff, 0xff])), None);
}

#[test]
fn decode_rejects_words_that_are_no_utf8() {
    assert_eq!(decode_record(&record(&[1, 2, 0xc3, 0xa9])), Some(list(&["é"])));
    assert_eq!(decode_record(&record(&[1, 2, 0xc3, 0x28])), None);
    assert_eq!(decode_record(&record(&[1, 1, 0xff])), None);
    assert_eq!(decode_record(&record(&[1, 3, 0xed, 0xa0, 0x80])), None);
    assert_eq!(decode_record(&record(&[1, 2, 0xc0, 0x80])), None);
}

#[test]
fn decode_rejects_an_empty_word() {
    assert_eq!(decode_record(&record(&[2, 1, b'a', 0])), None);
    assert_eq!(decode_record(&record(&[1, 0])), None);
    assert_eq!(decode_record(&record(&[0])), Some(Vec::new()));
}
