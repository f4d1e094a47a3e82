use stellar_codec::error::Error;
use stellar_codec::memo::{AsHash, LimitedString, Memo, HASH_LENGTH, MAX_STRING_LENGTH};

#[test]
fn limited_string_accepts_up_to_the_bound() {
    let text = vec![b'x'; MAX_STRING_LENGTH];
    let s = LimitedString::new(text.clone()).unwrap();
    assert_eq!(s.as_bytes(), &text);
}

#[test]
fn limited_string_rejects_over_the_bound() {
    let text = vec![b'x'; MAX_STRING_LENGTH + 1];
    assert!(matches!(
        LimitedString::new(text),
        Err(Error::ExceedsMaximumLength { requested_length: 29, allowed_length: 28 })
    ));
}

#[test]
fn text_memo_wraps_the_text() {
    let memo = Memo::from_text_memo(b"hello".to_vec()).unwrap();
    match memo {
        Memo::MemoText(s) => assert_eq!(s.as_bytes(), &b"hello".to_vec()),
        _ => panic!("expected a text memo"),
    }
}

#[test]
fn text_memo_rejects_long_text() {
    let text = vec![b'y'; 40];
    assert!(matches!(
        Memo::from_text_memo(text),
        Err(Error::ExceedsMaximumLength { requested_length: 40, allowed_length: 28 })
    ));
}

#[test]
fn id_memo_wraps_the_id() {
    match Memo::from_id_memo(77) {
        Memo::MemoId(id) => assert_eq!(id, 77),
        _ => panic!("expected an id memo"),
    }
}

#[test]
fn hash_memo_from_vec() {
    let bytes: Vec<u8> = (0..HASH_LENGTH as u8).collect();
    let memo = Memo::from_hash_memo(bytes.clone()).unwrap();
    match memo {
        Memo::MemoHash(h) => assert_eq!(h.as_bytes(), &bytes),
        _ => panic!("expected a hash memo"),
    }
}

#[test]
fn hash_memo_rejects_wrong_length() {
    let bytes = vec![0u8; 31];
    assert!(matches!(
        Memo::from_hash_memo(bytes),
        Err(Error::InvalidHashLength { found: 31 })
    ));
}

#[test]
fn return_hash_memo_from_hash() {
    let bytes = vec![7u8; HASH_LENGTH];
    let hash = stellar_codec::memo::Hash::new(bytes.clone()).unwrap();
    let memo = Memo::from_return_hash_memo(hash).unwrap();
    match memo {
        Memo::MemoReturn(h) => assert_eq!(h.as_bytes(), &bytes),
        _ => panic!("expected a return-hash memo"),
    }
}

#[test]
fn hash_new_rejects_wrong_length() {
    assert!(matches!(
        stellar_codec::memo::Hash::new(vec![1u8; 33]),
        Err(Error::InvalidHashLength { found: 33 })
    ));
}

#[test]
fn as_hash_on_hash_copies_the_bytes() {
    let bytes = vec![9u8; HASH_LENGTH];
    let hash = stellar_codec::memo::Hash::new(bytes.clone()).unwrap();
    let again = hash.as_hash().unwrap();
    assert_eq!(again.as_bytes(), &bytes);
}

#[test]
fn decoded_bytes_feed_a_hash_memo() {
    // decoded output of the codec can be coerced into a hash when 32 bytes long
    let input: Vec<u8> = (100..100 + HASH_LENGTH as u8).collect();
    let text = stellar_codec::base32::encode(&input);
    let decoded = stellar_codec::base32::decode(&text).unwrap();
    let memo = Memo::from_hash_memo(decoded).unwrap();
    match memo {
        Memo::MemoHash(h) => assert_eq!(h.as_bytes(), &input),
        _ => panic!("expected a hash memo"),
    }
}
