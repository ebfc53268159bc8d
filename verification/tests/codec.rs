use musicnode::codec::{decode_batch, encode_batch, encode_single_transaction, Batch};
use musicnode::tx::{Transaction, YoutubeLink};

fn link(id: &str) -> YoutubeLink {
    YoutubeLink::new(id.to_string()).unwrap()
}

fn tx(id: &str) -> Transaction {
    Transaction::AddToQueue { url: link(id) }
}

fn links_of(b: &Batch) -> Vec<String> {
    b.0.iter()
        .map(|t| {
            let Transaction::AddToQueue { url } = t;
            url.as_str().to_string()
        })
        .collect()
}

#[test]
fn round_trip_two_transactions() {
    let b = Batch(vec![tx("dQw4w9WgXcQ"), tx("abcdefghijk")]);
    let bytes = encode_batch(&b);
    let b2 = decode_batch(&bytes).unwrap();
    assert_eq!(links_of(&b), links_of(&b2));
}

#[test]
fn round_trip_empty_batch() {
    let b = Batch(vec![]);
    let bytes = encode_batch(&b);
    assert_eq!(bytes, b"[]".to_vec());
    let b2 = decode_batch(&bytes).unwrap();
    assert_eq!(b2.0.len(), 0);
}

#[test]
fn encode_exact_bytes() {
    let b = Batch(vec![tx("dQw4w9WgXcQ")]);
    let bytes = encode_batch(&b);
    let expected = b"[{\"AddToQueue\":{\"url\":\"https://www.youtube.com/watch?v=dQw4w9WgXcQ\"}}]";
    assert_eq!(bytes, expected.to_vec());
}

#[test]
fn legacy_single_transaction_round_trip() {
    let t = tx("dQw4w9WgXcQ");
    let bytes = encode_single_transaction(&t);
    let expected = b"{\"AddToQueue\":{\"url\":\"https://www.youtube.com/watch?v=dQw4w9WgXcQ\"}}";
    assert_eq!(bytes, expected.to_vec());
    let b = decode_batch(&bytes).unwrap();
    let ls = links_of(&b);
    assert_eq!(ls, vec!["https://www.youtube.com/watch?v=dQw4w9WgXcQ".to_string()]);
}

#[test]
fn decode_tolerates_whitespace() {
    let bytes = b" [ { \"AddToQueue\" : { \"url\" : \"abc\" } } ] ".to_vec();
    let b = decode_batch(&bytes).unwrap();
    assert_eq!(links_of(&b), vec!["abc".to_string()]);
}

#[test]
fn decode_unescapes_strings() {
    let bytes = b"{\"AddToQueue\":{\"url\":\"a\\\"b\\\\c\\/d\"}}".to_vec();
    let b = decode_batch(&bytes).unwrap();
    assert_eq!(links_of(&b), vec!["a\"b\\c/d".to_string()]);
}

#[test]
fn decode_rejects_malformed_payloads() {
    assert!(decode_batch(&b"".to_vec()).is_err());
    assert!(decode_batch(&b"{".to_vec()).is_err());
    assert!(decode_batch(&b"[]x".to_vec()).is_err());
    assert!(decode_batch(&b"[{\"Other\":{\"url\":\"abc\"}}]".to_vec()).is_err());
    assert!(decode_batch(&b"[{\"AddToQueue\":{\"link\":\"abc\"}}]".to_vec()).is_err());
    assert!(decode_batch(&b"[{\"AddToQueue\":{\"url\":\"abc\"}},]".to_vec()).is_err());
    assert!(decode_batch(&vec![0xffu8, 0xfe]).is_err());
}

#[test]
fn decode_rejects_extra_fields() {
    let bytes = b"[{\"AddToQueue\":{\"url\":\"abc\",\"extra\":1}}]".to_vec();
    assert!(decode_batch(&bytes).is_err());
}

#[test]
fn decode_rejects_non_ascii_strings() {
    let mut bytes = b"{\"AddToQueue\":{\"url\":\"".to_vec();
    bytes.extend_from_slice("é".as_bytes());
    bytes.extend_from_slice(b"\"}}");
    assert!(decode_batch(&bytes).is_err());
}

#[test]
fn escaped_link_survives_re_encoding() {
    // A foreign payload may carry quotes and backslashes in its link;
    // re-encoding the decoded batch and decoding again keeps it intact.
    let bytes = b"[{\"AddToQueue\":{\"url\":\"a\\\"b\\\\c\"}}]".to_vec();
    let b = decode_batch(&bytes).unwrap();
    assert_eq!(links_of(&b), vec!["a\"b\\c".to_string()]);
    let bytes2 = encode_batch(&b);
    let b2 = decode_batch(&bytes2).unwrap();
    assert_eq!(links_of(&b2), links_of(&b));
}
