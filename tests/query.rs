use json_api::error::Error;
use json_api::fields::{Key, Path};
use json_api::page::{Direction, Page, Sort};
use json_api::query::{self, Query};

fn key(s: &str) -> Key {
    Key::try_from(s).unwrap()
}

fn path(s: &str) -> Path {
    Path::try_from(s).unwrap()
}

fn with_fields(mut q: Query, kind: &str, names: &[&str]) -> Query {
    q.fields.merge(key(kind), names.iter().map(|n| key(n)).collect());
    q
}

fn with_filter(mut q: Query, p: &str, v: &str) -> Query {
    q.filter.insert(path(p), v.to_string());
    q
}

fn with_path(mut q: Query, p: &str) -> Query {
    q.includes.insert(path(p));
    q
}

fn with_sort(mut q: Query, p: &str, d: Direction) -> Query {
    q.sort.insert(Sort::new(path(p), d));
    q
}

fn with_page(mut q: Query, number: u64, size: Option<u64>) -> Query {
    q.page = Some(Page::new(number, size));
    q
}

fn mapping() -> Vec<(&'static str, Query)> {
    let q = Query::default;
    vec![
        ("", q()),
        ("fields[articles]=title", with_fields(q(), "articles", &["title"])),
        (
            "fields[articles]=body%2Ctitle%2Cpublished-at&fields[comments]=body&fields[users]=name",
            with_fields(
                with_fields(
                    with_fields(q(), "articles", &["body", "title", "published-at"]),
                    "comments",
                    &["body"],
                ),
                "users",
                &["name"],
            ),
        ),
        (
            "filter[users.name]=Alfred+Pennyworth",
            with_filter(q(), "users.name", "Alfred Pennyworth"),
        ),
        ("include=author", with_path(q(), "author")),
        (
            "include=author%2Ccomments%2Ccomments.author",
            with_path(with_path(with_path(q(), "author"), "comments"), "comments.author"),
        ),
        ("page[number]=0", with_page(q(), 1, None)),
        ("page[number]=1", with_page(q(), 1, None)),
        ("page[size]=10", with_page(q(), 1, Some(10))),
        ("page[number]=2&page[size]=15", with_page(q(), 2, Some(15))),
        ("sort=-published-at", with_sort(q(), "published-at", Direction::Desc)),
        (
            "sort=published-at%2C-title",
            with_sort(
                with_sort(q(), "published-at", Direction::Asc),
                "title",
                Direction::Desc,
            ),
        ),
        (
            "sort=published-at%2C-title%2C-author.name",
            with_sort(
                with_sort(
                    with_sort(q(), "published-at", Direction::Asc),
                    "title",
                    Direction::Desc,
                ),
                "author.name",
                Direction::Desc,
            ),
        ),
        (
            "fields[articles]=body%2Ctitle%2Cpublished-at&fields[comments]=body&fields[users]=name&filter[users.name]=Alfred+Pennyworth&include=author%2Ccomments%2Ccomments.author&page[number]=2&page[size]=15&sort=published-at%2C-title%2C-author.name",
            with_sort(
                with_sort(
                    with_sort(
                        with_page(
                            with_path(
                                with_path(
                                    with_path(
                                        with_filter(
                                            with_fields(
                                                with_fields(
                                                    with_fields(
                                                        q(),
                                                        "articles",
                                                        &["body", "title", "published-at"],
                                                    ),
                                                    "comments",
                                                    &["body"],
                                                ),
                                                "users",
                                                &["name"],
                                            ),
                                            "users.name",
                                            "Alfred Pennyworth",
                                        ),
                                        "author",
                                    ),
                                    "comments",
                                ),
                                "comments.author",
                            ),
                            2,
                            Some(15),
                        ),
                        "published-at",
                        Direction::Asc,
                    ),
                    "title",
                    Direction::Desc,
                ),
                "author.name",
                Direction::Desc,
            ),
        ),
    ]
}

fn to_mapping() -> Vec<(&'static str, Query)> {
    mapping()
        .into_iter()
        .map(|(text, value)| match text {
            "page[number]=0" | "page[number]=1" => ("", value),
            _ => (text, value),
        })
        .collect()
}

#[test]
fn query_from_slice() {
    for (source, expected) in mapping() {
        let actual = query::from_slice(source.as_bytes()).unwrap();
        assert_eq!(actual, expected);
    }
}

#[test]
fn query_from_str() {
    for (source, expected) in mapping() {
        let actual = query::from_str(source).unwrap();
        assert_eq!(actual, expected);
    }
}

#[test]
fn query_to_string() {
    for (expected, source) in to_mapping() {
        let actual = query::to_string(&source);
        assert_eq!(actual, expected);
    }
}

#[test]
fn query_to_vec() {
    for (expected, source) in to_mapping() {
        let actual = query::to_vec(&source);
        assert_eq!(actual, expected.to_owned().into_bytes());
    }
}

#[test]
fn empty_query_round_trip() {
    assert_eq!(query::from_str("").unwrap(), Query::default());
    assert_eq!(query::to_string(&Query::default()), "");
}

#[test]
fn single_fieldset() {
    let q = query::from_str("fields[articles]=title").unwrap();
    assert_eq!(q.fields.len(), 1);
    assert_eq!(q.fields.key(0).as_str(), "articles");
    let set = q.fields.value(0);
    assert_eq!(set.len(), 1);
    assert_eq!(set.get(0).as_str(), "title");
    assert!(q.filter.is_empty());
    assert!(q.includes.is_empty());
    assert!(q.sort.is_empty());
    assert_eq!(q.page, None);
}

#[test]
fn page_number_zero_and_one_are_default() {
    for text in ["page[number]=0", "page[number]=1"] {
        let q = query::from_str(text).unwrap();
        assert_eq!(q.page, Some(Page { number: 1, size: None }));
        assert_eq!(query::to_string(&q), "");
    }
}

#[test]
fn sort_directions() {
    let q = query::from_str("sort=-published-at").unwrap();
    assert_eq!(q.sort.len(), 1);
    assert_eq!(q.sort.get(0).direction, Direction::Desc);
    assert_eq!(q.sort.get(0).field.to_text(), "published-at");

    let q = query::from_str("sort=published-at,-title").unwrap();
    assert_eq!(q.sort.len(), 2);
    assert_eq!(q.sort.get(0).field.to_text(), "published-at");
    assert_eq!(q.sort.get(0).direction, Direction::Asc);
    assert_eq!(q.sort.get(1).field.to_text(), "title");
    assert_eq!(q.sort.get(1).direction, Direction::Desc);
}

#[test]
fn included_paths_keep_order_without_duplicates() {
    let q = query::from_str("include=author,comments,comments.author").unwrap();
    assert_eq!(q.includes.len(), 3);
    assert_eq!(q.includes.get(0).to_text(), "author");
    assert_eq!(q.includes.get(1).to_text(), "comments");
    assert_eq!(q.includes.get(2).to_text(), "comments.author");
    assert_eq!(q.includes.get(2).len(), 2);

    let q = query::from_str("include=author,comments,author&include=comments.author,author")
        .unwrap();
    assert_eq!(q.includes.len(), 3);
    assert_eq!(q.includes.get(2).to_text(), "comments.author");
}

#[test]
fn malformed_queries_fail() {
    assert!(matches!(query::from_str("page[number]=x"), Err(Error::Query(_))));
    assert!(matches!(query::from_str("page[size]=99999999999999999999"), Err(Error::Query(_))));
    assert!(matches!(query::from_str("unknown=1"), Err(Error::Query(_))));
    assert!(matches!(query::from_str("include"), Err(Error::Query(_))));
    assert!(matches!(query::from_str("include=%2"), Err(Error::Query(_))));
    assert!(matches!(query::from_str("include=a..b"), Err(Error::InvalidMemberName(_))));
    assert!(matches!(query::from_str("fields[a,b]=c"), Err(Error::InvalidMemberName(_))));
    assert!(matches!(query::from_slice(&[0xff, 0xfe]), Err(Error::Utf8(_))));
}

#[test]
fn fieldsets_merge_and_filters_overwrite() {
    let q = query::from_str("fields[a]=x,y&fields[b]=z&fields[a]=y,w&filter[p.q]=1&filter[p.q]=2")
        .unwrap();
    assert_eq!(q.fields.len(), 2);
    let a = q.fields.value(0);
    assert_eq!(a.len(), 3);
    assert_eq!(a.get(2).as_str(), "w");
    assert_eq!(q.filter.len(), 1);
    assert_eq!(q.filter.value(0), "2");
    assert_eq!(
        query::to_string(&q),
        "fields[a]=x%2Cy%2Cw&fields[b]=z&filter[p.q]=2"
    );
}

#[test]
fn reserved_characters_are_escaped() {
    let q = query::from_str("filter[name]=a%26b%3Dc%25d%2Be+f").unwrap();
    assert_eq!(q.filter.value(0), "a&b=c%d+e f");
    let text = query::to_string(&q);
    assert_eq!(text, "filter[name]=a%26b%3Dc%25d%2Be+f");
    assert_eq!(query::from_str(&text).unwrap(), q);
}

#[test]
fn serialize_parse_is_stable() {
    for (source, _) in mapping() {
        let q = query::from_str(source).unwrap();
        let again = query::from_str(&query::to_string(&q)).unwrap();
        if q.page == Some(Page::default()) {
            // a default page is written as nothing and read back as no page
            assert_eq!(again.page, None);
            assert_eq!(query::to_string(&again), query::to_string(&q));
        } else {
            assert_eq!(again, q);
        }
    }
}

#[test]
fn filter_path_with_reserved_character_is_rejected() {
    assert!(matches!(
        query::from_str("filter[a,b]=x"),
        Err(Error::InvalidMemberName(ref n)) if n == "a,b"
    ));
    assert!(matches!(query::from_str("page[size]=ten"), Err(Error::Query(_))));
    assert!(matches!(query::from_str("fields[articles=title"), Err(Error::Query(_))));
    assert!(matches!(
        query::from_str("include=comments..author"),
        Err(Error::InvalidMemberName(_))
    ));
}

#[test]
fn collections_remove_and_lookup() {
    let mut q = query::from_str("filter[a]=1&filter[b]=2&filter[c]=3&include=x,y,z").unwrap();
    assert_eq!(q.filter.get(&path("b")).map(|s| s.as_str()), Some("2"));
    assert_eq!(q.filter.remove(&path("b")), Some("2".to_string()));
    assert_eq!(q.filter.get(&path("b")), None);
    assert_eq!(q.filter.key(1).to_text(), "c");
    assert!(q.includes.remove(&path("y")));
    assert!(!q.includes.remove(&path("y")));
    assert_eq!(q.includes.get(1).to_text(), "z");
    assert_eq!(query::to_string(&q), "filter[a]=1&filter[c]=3&include=x%2Cz");
}

#[test]
fn escaped_utf8_is_decoded_and_written_back() {
    let q = query::from_str("filter[name]=Jos%C3%A9").unwrap();
    assert_eq!(q.filter.value(0), "José");
    assert_eq!(query::to_string(&q), "filter[name]=Jos%C3%A9");
    let raw = query::from_str("filter[name]=José").unwrap();
    assert_eq!(raw, q);
    let q = query::from_str("fields[%C3%BCber]=%E2%82%AC").unwrap();
    assert_eq!(q.fields.key(0).as_str(), "über");
    assert_eq!(q.fields.value(0).get(0).as_str(), "€");
    assert_eq!(query::to_string(&q), "fields[%C3%BCber]=%E2%82%AC");
    assert!(matches!(query::from_str("filter[name]=%C3"), Err(Error::Query(_))));
    assert!(matches!(query::from_str("filter[name]=%FF"), Err(Error::Query(_))));
}
