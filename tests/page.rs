use json_api::page::Page;

#[test]
fn page_new() {
    let mut page = Page::new(0, None);

    // Page number should always be a positive unsigned integer.
    // If 0 is passed to the constructor, it should be treated as 1.
    assert_eq!(page.number, 1);
    assert_eq!(page.size, None);

    for number in 1..5 {
        page = Page::new(number, None);

        assert_eq!(page.number, number);
        assert_eq!(page.size, None);
    }

    for size in (0..10).map(Some) {
        page = Page::new(1, size);

        assert_eq!(page.number, 1);
        assert_eq!(page.size, size);
    }
}

#[test]
fn page_default_is_first_page() {
    let page = Page::default();
    assert_eq!(page, Page::new(1, None));
    assert!(page.is_default());
    assert!(!Page::new(2, None).is_default());
}
