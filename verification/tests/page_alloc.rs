use uring::Page;

#[test]
fn page_has_fixed_size() {
    let page = Page::new(1024);
    assert_eq!(page.len(), 1024);
}

#[test]
fn page_may_be_empty() {
    let page = Page::new(0);
    assert_eq!(page.len(), 0);
}

#[test]
fn page_of_one_os_page() {
    let page = Page::new(4096);
    assert_eq!(page.len(), 4096);
}
