use articles::keys::parse_article_key;

#[test]
fn canonical_keys_parse() {
    assert_eq!(parse_article_key("article:1"), Some(1));
    assert_eq!(parse_article_key("article:42"), Some(42));
    assert_eq!(parse_article_key("article:0"), Some(0));
    assert_eq!(
        parse_article_key("article:18446744073709551615"),
        Some(u64::MAX)
    );
}

#[test]
fn non_canonical_keys_do_not_parse() {
    assert_eq!(parse_article_key(""), None);
    assert_eq!(parse_article_key("article:"), None);
    assert_eq!(parse_article_key("article"), None);
    assert_eq!(parse_article_key("Article:1"), None);
    assert_eq!(parse_article_key("article:01"), None);
    assert_eq!(parse_article_key("article:+1"), None);
    assert_eq!(parse_article_key("article:1x"), None);
    assert_eq!(parse_article_key("article:18446744073709551616"), None);
    assert_eq!(parse_article_key("voted:1"), None);
}
