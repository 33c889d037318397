use lore::access::AccessCounter;
use lore::types::{ByteRange, Error, HeadingPath, NodeId, SourceId};

#[test]
fn heading_path_display_joins_with_arrow() {
    let p = HeadingPath::new(&["A", "B", "C"]);
    assert_eq!(p.to_string(), "A > B > C");
    assert_eq!(p.depth(), 3);
    assert_eq!(p.leaf(), Some("C"));
}

#[test]
fn byte_range_slice_and_len() {
    let r = ByteRange::new(2, 5);
    assert_eq!(r.len(), 3);
    assert_eq!(r.slice(b"hello world"), b"llo");
    assert!(!r.is_empty());
    assert!(ByteRange::empty(4).is_empty());
}

#[test]
fn node_id_pads_for_display() {
    assert_eq!(NodeId(42).to_string(), "0042");
}

#[test]
fn node_id_wider_than_padding_is_not_cut() {
    assert_eq!(NodeId(123456).to_string(), "123456");
    assert_eq!(NodeId(0).to_string(), "0000");
}

#[test]
fn heading_path_push_segments_and_empty_leaf() {
    let mut p = HeadingPath::new(&[]);
    assert_eq!(p.depth(), 0);
    assert_eq!(p.leaf(), None);
    assert_eq!(p.to_string(), "");
    p.push("Top");
    p.push("Sub");
    assert_eq!(p.segments(), &["Top".to_string(), "Sub".to_string()]);
    assert_eq!(p.to_string(), "Top > Sub");
}

#[test]
fn byte_range_contains_is_half_open_and_len_saturates() {
    let r = ByteRange::new(3, 6);
    assert!(!r.contains(2));
    assert!(r.contains(3));
    assert!(r.contains(5));
    assert!(!r.contains(6));
    let backwards = ByteRange::new(9, 4);
    assert_eq!(backwards.len(), 0);
    assert!(!backwards.is_empty());
}

#[test]
fn source_id_round_trips_its_text() {
    let s = SourceId::new("kb");
    assert_eq!(s.as_str(), "kb");
    assert_eq!(s.clone().as_str(), "kb");
}

#[test]
fn error_messages_name_their_kind() {
    assert_eq!(Error::Parse("bad".to_string()).message(), "parse error: bad");
    assert_eq!(Error::Io("gone".to_string()).message(), "io error: gone");
    assert_eq!(Error::NotFound("x".to_string()).message(), "not found: x");
    assert_eq!(
        Error::Serialize("y".to_string()).message(),
        "serialization error: y"
    );
}

#[test]
fn bump_and_read() {
    let mut c = AccessCounter::new();
    assert_eq!(c.get(), 0);
    c.bump();
    c.bump();
    assert_eq!(c.get(), 2);
}

#[test]
fn clone_copies_current_value() {
    let mut c = AccessCounter::new();
    c.bump();
    let c2 = c.clone();
    assert_eq!(c2.get(), 1);
    c.bump();
    assert_eq!(c.get(), 2);
    assert_eq!(c2.get(), 1);
}

#[test]
fn equality_ignores_count() {
    let a = AccessCounter::new();
    let mut b = AccessCounter::new();
    b.bump();
    assert_eq!(a, b);
}

#[test]
fn bump_returns_previous_count() {
    let mut c = AccessCounter::default();
    assert_eq!(c.bump(), 0);
    assert_eq!(c.bump(), 1);
    assert_eq!(c.get(), 2);
}
