use everything_index::query::{DateFilter, SearchFilter, SearchQuery, SizeFilter};

#[test]
fn test_size_filter_from_str() {
    assert_eq!(SizeFilter::from_str(b"12345"), Ok(SizeFilter::Exact(12345)));
    assert_eq!(SizeFilter::from_str(b">100"), Ok(SizeFilter::Greater(100)));
    assert_eq!(SizeFilter::from_str(b"<7"), Ok(SizeFilter::Less(7)));
    assert_eq!(SizeFilter::from_str(b"10..20"), Ok(SizeFilter::Range(10, 20)));
    assert!(SizeFilter::from_str(b"abc").is_err());
    assert!(SizeFilter::from_str(b"").is_err());
    assert!(SizeFilter::from_str(b">x").is_err());
    assert!(SizeFilter::from_str(b"1..").is_err());
    assert!(SizeFilter::from_str(b"99999999999999999999999").is_err());
}

#[test]
fn test_date_filter_from_str() {
    assert_eq!(DateFilter::from_str(b">100"), Ok(DateFilter::After(100)));
    assert_eq!(DateFilter::from_str(b"<-5"), Ok(DateFilter::Before(-5)));
    assert_eq!(DateFilter::from_str(b"100..200"), Ok(DateFilter::Between(100, 200)));
    // A bare number is not a date filter.
    assert!(DateFilter::from_str(b"100").is_err());
    assert!(DateFilter::from_str(b"").is_err());
    assert!(DateFilter::from_str(b">abc").is_err());
}

#[test]
fn test_parse_splits_filters_and_text() {
    let q = SearchQuery::parse(b"report size:>100 date:100..200 path:src zzz");
    assert_eq!(q.text, b"report zzz".to_vec());
    assert_eq!(q.filters.len(), 3);
    assert!(matches!(q.filters[0], SearchFilter::Size(SizeFilter::Greater(100))));
    assert!(matches!(q.filters[1], SearchFilter::Date(DateFilter::Between(100, 200))));
    match &q.filters[2] {
        SearchFilter::Path(p) => assert_eq!(p, &b"src".to_vec()),
        other => panic!("expected a path filter, got {:?}", other),
    }
    assert!(q.regex.is_none());
}

#[test]
fn test_parse_drops_unparseable_filter_bodies() {
    // A recognized prefix with a bad body is dropped silently:
    // no filter, and not part of the free text either.
    let q = SearchQuery::parse(b"size:nonsense hello date:42");
    assert_eq!(q.text, b"hello".to_vec());
    assert_eq!(q.filters.len(), 0);
}

#[test]
fn test_parse_regex_token() {
    let q = SearchQuery::parse(b"regex:ab+c name");
    assert!(q.regex.is_some());
    assert_eq!(q.text, b"name".to_vec());

    // An invalid pattern leaves no compiled regex behind.
    let bad = SearchQuery::parse(b"regex:( name");
    assert!(bad.regex.is_none());
    assert_eq!(bad.text, b"name".to_vec());

    // The compiled pattern really is the given one.
    let q2 = SearchQuery::parse(b"regex:^rep.*pdf$");
    let re = q2.regex.expect("pattern compiles");
    assert!(re.is_match("report.pdf"));
    assert!(!re.is_match("report.txt"));
}

#[test]
fn test_parse_whitespace_handling() {
    let q = SearchQuery::parse(b"  one \t two\n");
    assert_eq!(q.text, b"one two".to_vec());
    let empty = SearchQuery::parse(b"   ");
    assert_eq!(empty.text, b"".to_vec());
    assert_eq!(empty.filters.len(), 0);
}
