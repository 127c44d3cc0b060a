use nml::span::{Location, SourceMap, Span};

#[test]
fn test_source_map() {
    let source = "hello\nworld\nfoo";
    let map = SourceMap::new(source);
    assert_eq!(map.location(0), Location::new(1, 1));
    assert_eq!(map.location(5), Location::new(1, 6));
    assert_eq!(map.location(6), Location::new(2, 1));
    assert_eq!(map.location(12), Location::new(3, 1));
}

#[test]
fn test_span_merge() {
    let a = Span::new(5, 10);
    let b = Span::new(8, 15);
    let merged = a.merge(b);
    assert_eq!(merged, Span::new(5, 15));
}

#[test]
fn test_span_merge_out_of_order() {
    let a = Span::new(8, 15);
    let b = Span::new(5, 10);
    assert_eq!(a.merge(b), Span::new(5, 15));
}

#[test]
fn test_span_empty() {
    let s = Span::empty(7);
    assert_eq!(s, Span::new(7, 7));
}
