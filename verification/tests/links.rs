use musicnode::tx::{is_valid_video_id, Transaction, YoutubeLink};

const CANONICAL: &str = "https://www.youtube.com/watch?v=dQw4w9WgXcQ";

#[test]
fn watch_url_canonicalizes() {
    let l = YoutubeLink::new("https://www.youtube.com/watch?v=dQw4w9WgXcQ".to_string()).unwrap();
    assert_eq!(l.as_str(), CANONICAL);
}

#[test]
fn short_url_canonicalizes() {
    let l = YoutubeLink::new("https://youtu.be/dQw4w9WgXcQ".to_string()).unwrap();
    assert_eq!(l.as_str(), CANONICAL);
}

#[test]
fn embed_url_canonicalizes() {
    let l = YoutubeLink::new("https://www.youtube.com/embed/dQw4w9WgXcQ?rel=0".to_string()).unwrap();
    assert_eq!(l.as_str(), CANONICAL);
}

#[test]
fn bare_id_canonicalizes() {
    let l = YoutubeLink::new("dQw4w9WgXcQ".to_string()).unwrap();
    assert_eq!(l.as_str(), CANONICAL);
}

#[test]
fn www_without_scheme_accepted() {
    let l = YoutubeLink::new("www.youtube.com/watch?v=dQw4w9WgXcQ".to_string()).unwrap();
    assert_eq!(l.as_str(), CANONICAL);
}

#[test]
fn surrounding_whitespace_trimmed() {
    let l = YoutubeLink::new("  https://youtu.be/dQw4w9WgXcQ\n".to_string()).unwrap();
    assert_eq!(l.as_str(), CANONICAL);
}

#[test]
fn backslashes_stripped() {
    let l = YoutubeLink::new("https:\\/\\/youtu.be\\/dQw4w9WgXcQ".to_string()).unwrap();
    assert_eq!(l.as_str(), CANONICAL);
}

#[test]
fn short_url_with_query_accepted() {
    let l = YoutubeLink::new("https://youtu.be/dQw4w9WgXcQ?si=xyz".to_string()).unwrap();
    assert_eq!(l.as_str(), CANONICAL);
}

#[test]
fn watch_url_with_more_params_accepted() {
    let l = YoutubeLink::new("https://www.youtube.com/watch?v=dQw4w9WgXcQ&t=10".to_string()).unwrap();
    assert_eq!(l.as_str(), CANONICAL);
}

#[test]
fn invalid_inputs_rejected() {
    assert!(YoutubeLink::new("not a url".to_string()).is_err());
    assert!(YoutubeLink::new("".to_string()).is_err());
    assert!(YoutubeLink::new("dQw4w9WgXc".to_string()).is_err());
    assert!(YoutubeLink::new("dQw4w9WgXcQx".to_string()).is_err());
    assert!(YoutubeLink::new("https://example.com/watch?v=dQw4w9WgXcQ".to_string()).is_err());
    assert!(YoutubeLink::new("https://www.youtube.com/watch?v=dQw4w9WgXcQx".to_string()).is_err());
    assert!(YoutubeLink::new("https://www.youtube.com/watch?v=short".to_string()).is_err());
}

#[test]
fn video_id_validation() {
    assert!(is_valid_video_id("dQw4w9WgXcQ"));
    assert!(is_valid_video_id("AAAAAAAAAA_"));
    assert!(is_valid_video_id("0123456789-"));
    assert!(!is_valid_video_id("dQw4w9WgXc"));
    assert!(!is_valid_video_id("dQw4w9WgXcQQ"));
    assert!(!is_valid_video_id("dQw4w9WgXc!"));
    assert!(!is_valid_video_id(""));
}

#[test]
fn transaction_clone_keeps_link() {
    let l = YoutubeLink::new(CANONICAL.to_string()).unwrap();
    let tx = Transaction::AddToQueue { url: l };
    let tx2 = tx.clone();
    let Transaction::AddToQueue { url } = tx2;
    assert_eq!(url.as_str(), CANONICAL);
}
