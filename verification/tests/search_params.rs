use std::cell::RefCell;
use url_search_params::{SearchParamsError, SearchParamsInit, UrlSearchParams};

fn s(x: &str) -> String {
    x.to_string()
}

fn from_text(x: &str) -> UrlSearchParams {
    UrlSearchParams::new(SearchParamsInit::Text(s(x))).unwrap()
}

/// The `search` of a URL, as the URL class reports it.
fn search_of(url: &url::Url) -> String {
    url::quirks::search(url).to_string()
}

/// What a URL-linked list does after each change: write its query back.
fn sync(url: &mut url::Url, p: &UrlSearchParams) {
    let q = p.sync_to_url();
    url.set_query(q.as_deref());
}

#[test]
fn url_search_params_standalone() {
    // Construct from string
    let p = from_text("foo=1&bar=2&foo=3");
    assert_eq!(p.size(), 3, "size");
    assert_eq!(p.get(s("foo")), Some(s("1")), "get first");
    assert_eq!(p.get(s("bar")), Some(s("2")), "get bar");
    assert_eq!(p.get(s("missing")), None, "get missing");
    assert!(p.has(s("foo"), None), "has foo");
    assert!(!p.has(s("nope"), None), "has nope");
    assert_eq!(p.get_all(s("foo")), vec![s("1"), s("3")], "getAll");

    // Leading ? is stripped
    let p = from_text("?a=x&b=y");
    assert_eq!(p.get(s("a")), Some(s("x")), "leading ? stripped");
    assert_eq!(p.get(s("b")), Some(s("y")), "leading ? b");

    // Construct from array of pairs
    let p = UrlSearchParams::new(SearchParamsInit::Sequence(vec![
        vec![s("k1"), s("v1")],
        vec![s("k2"), s("v2")],
    ]))
    .unwrap();
    assert_eq!(p.get(s("k1")), Some(s("v1")), "array k1");
    assert_eq!(p.get(s("k2")), Some(s("v2")), "array k2");

    // Construct from record
    let p = UrlSearchParams::new(SearchParamsInit::Record(vec![(s("x"), s("10")), (s("y"), s("20"))]))
        .unwrap();
    assert_eq!(p.get(s("x")), Some(s("10")), "record x");
    assert_eq!(p.get(s("y")), Some(s("20")), "record y");

    // append / delete / set
    let mut p = from_text("a=1&b=2&a=3");
    p.append(s("c"), s("4"));
    assert_eq!(p.size(), 4, "after append");
    p.delete(s("a"), None);
    assert_eq!(p.size(), 2, "after delete all a");
    p.set(s("b"), s("99"));
    assert_eq!(p.get(s("b")), Some(s("99")), "after set");
    p.set(s("d"), s("5"));
    assert_eq!(p.get(s("d")), Some(s("5")), "set new key");

    // sort
    let mut p = from_text("b=2&a=1&c=3");
    p.sort();
    assert_eq!(p.keys(), vec![s("a"), s("b"), s("c")], "sorted keys");

    // toString
    let p = from_text("foo=bar&baz=qux");
    assert_eq!(p.to_string(), "foo=bar&baz=qux", "toString");

    // keys / values / entries
    let p = from_text("x=1&y=2");
    assert_eq!(p.keys(), vec![s("x"), s("y")], "keys");
    assert_eq!(p.values(), vec![s("1"), s("2")], "values");
    let e = p.entries();
    assert_eq!(e[0].0, "x", "entry 0 key");
    assert_eq!(e[0].1, "1", "entry 0 val");

    // has with value
    let mut p = from_text("a=1&a=2");
    assert!(p.has(s("a"), None), "has a");
    assert!(p.has(s("a"), Some(s("1"))), "has a=1");
    assert!(!p.has(s("a"), Some(s("3"))), "no a=3");
    // delete with value
    p.delete(s("a"), Some(s("1")));
    assert_eq!(p.size(), 1, "after delete a=1");
    assert_eq!(p.get(s("a")), Some(s("2")), "remaining a=2");

    // Copy from another URLSearchParams
    let p1 = from_text("x=1");
    let mut p2 = UrlSearchParams::new(SearchParamsInit::Params(&p1)).unwrap();
    p2.set(s("x"), s("2"));
    assert_eq!(p1.get(s("x")), Some(s("1")), "original unchanged");
    assert_eq!(p2.get(s("x")), Some(s("2")), "copy updated");

    // forEach
    let p = from_text("a=1&b=2");
    let collected: RefCell<Vec<String>> = RefCell::new(Vec::new());
    let r: Result<(), ()> = p.for_each(|val, key| {
        collected.borrow_mut().push(format!("{}={}", key, val));
        Ok(())
    });
    assert_eq!(r, Ok(()));
    assert_eq!(collected.into_inner(), vec![s("a=1"), s("b=2")], "forEach");
}

#[test]
fn url_search_params_live_link() {
    // searchParams from URL
    let url = url::Url::parse("https://example.com/path?foo=bar&baz=qux").unwrap();
    let p = UrlSearchParams::from_url(url.query());
    assert_eq!(p.get(s("foo")), Some(s("bar")), "get foo");
    assert_eq!(p.get(s("baz")), Some(s("qux")), "get baz");

    // Mutating searchParams updates URL.search
    let mut url = url::Url::parse("https://example.com/?a=1").unwrap();
    let mut p = UrlSearchParams::from_url(url.query());
    p.set(s("a"), s("2"));
    sync(&mut url, &p);
    assert_eq!(search_of(&url), "?a=2", "search updated after set");
    p.append(s("b"), s("3"));
    sync(&mut url, &p);
    assert!(search_of(&url).contains("b=3"), "search includes b=3");

    // Deleting all params clears URL.search
    let mut url = url::Url::parse("https://example.com/?x=1").unwrap();
    let mut p = UrlSearchParams::from_url(url.query());
    p.delete(s("x"), None);
    sync(&mut url, &p);
    assert_eq!(search_of(&url), "", "search empty after delete");

    // URL with no query
    let mut url = url::Url::parse("https://example.com/").unwrap();
    let mut p = UrlSearchParams::from_url(url.query());
    assert_eq!(p.size(), 0, "empty searchParams");
    p.append(s("k"), s("v"));
    sync(&mut url, &p);
    assert_eq!(search_of(&url), "?k=v", "search set after append");
}

#[test]
fn empty_and_null_init_give_empty_list() {
    let p = UrlSearchParams::new(SearchParamsInit::Empty).unwrap();
    assert_eq!(p.size(), 0);
    assert_eq!(p.to_string(), "");
    assert_eq!(p.sync_to_url(), None);
}

#[test]
fn sequence_member_of_wrong_length_is_refused() {
    let r = UrlSearchParams::new(SearchParamsInit::Sequence(vec![vec![s("a"), s("1")], vec![s("b")]]));
    assert_eq!(r.err(), Some(SearchParamsError::PairLength));
    let r = UrlSearchParams::new(SearchParamsInit::Sequence(vec![vec![s("a"), s("1"), s("2")]]));
    assert_eq!(r.err(), Some(SearchParamsError::PairLength));
    assert_eq!(
        SearchParamsError::PairLength.message(),
        "Each init sequence must have exactly 2 elements"
    );
}

#[test]
fn unconvertible_init_is_refused() {
    let r = UrlSearchParams::new(SearchParamsInit::Unconvertible);
    assert_eq!(r.err(), Some(SearchParamsError::InvalidInit));
    assert_eq!(
        SearchParamsError::InvalidInit.message(),
        "URLSearchParams init must be a string, sequence of pairs, record, or URLSearchParams"
    );
}

#[test]
fn empty_sequence_gives_empty_list() {
    let p = UrlSearchParams::new(SearchParamsInit::Sequence(Vec::new())).unwrap();
    assert_eq!(p.size(), 0);
}

#[test]
fn record_is_ordered_by_name_and_last_value_wins() {
    let p = UrlSearchParams::new(SearchParamsInit::Record(vec![
        (s("y"), s("1")),
        (s("x"), s("2")),
        (s("y"), s("3")),
        (s("a"), s("4")),
    ]))
    .unwrap();
    assert_eq!(p.entries(), vec![(s("a"), s("4")), (s("x"), s("2")), (s("y"), s("3"))]);
}

#[test]
fn text_init_decodes_and_strips_one_leading_question_mark() {
    let p = from_text("??a=b+c&%23d=%25e&&flag&=v");
    assert_eq!(
        p.entries(),
        vec![(s("?a"), s("b c")), (s("#d"), s("%e")), (s("flag"), s("")), (s(""), s("v"))]
    );
    let p = from_text("??a=1");
    assert_eq!(p.entries(), vec![(s("?a"), s("1"))]);
    let p = from_text("?");
    assert_eq!(p.size(), 0);
    let p = from_text("a=?b");
    assert_eq!(p.get(s("a")), Some(s("?b")));
}

#[test]
fn text_init_of_serialization_gives_pairs_back() {
    let mut p = UrlSearchParams::new(SearchParamsInit::Empty).unwrap();
    p.append(s("?x"), s("a b"));
    p.append(s(""), s(""));
    p.append(s("k&="), s("+%?"));
    p.append(s("\u{1F600}"), s("é"));
    let q = UrlSearchParams::new(SearchParamsInit::Text(p.to_string())).unwrap();
    assert_eq!(q.entries(), p.entries());
}

#[test]
fn sort_uses_utf16_code_units() {
    let mut p = UrlSearchParams::new(SearchParamsInit::Sequence(vec![
        vec![s("\u{FFFD}"), s("1")],
        vec![s("\u{1F600}"), s("2")],
    ]))
    .unwrap();
    p.sort();
    assert_eq!(p.entries(), vec![(s("\u{1F600}"), s("2")), (s("\u{FFFD}"), s("1"))]);
}

#[test]
fn record_is_ordered_by_bytes() {
    let p = UrlSearchParams::new(SearchParamsInit::Record(vec![
        (s("\u{1F600}"), s("2")),
        (s("\u{FFFD}"), s("1")),
    ]))
    .unwrap();
    assert_eq!(p.keys(), vec![s("\u{FFFD}"), s("\u{1F600}")]);
}

#[test]
fn to_string_encodes_pairs() {
    let mut p = UrlSearchParams::new(SearchParamsInit::Empty).unwrap();
    p.append(s("a b"), s("c&d"));
    p.append(s("é"), s("1+1=2"));
    assert_eq!(p.to_string(), "a+b=c%26d&%C3%A9=1%2B1%3D2");
    assert_eq!(p.sync_to_url(), Some(s("a+b=c%26d&%C3%A9=1%2B1%3D2")));
}

#[test]
fn from_url_without_query_is_empty() {
    let p = UrlSearchParams::from_url(None);
    assert_eq!(p.size(), 0);
    let p = UrlSearchParams::from_url(Some("a=1&a=2"));
    assert_eq!(p.get_all(s("a")), vec![s("1"), s("2")]);
}

#[test]
fn sort_is_stable_and_ordered() {
    let mut p = from_text("b=1&a=2&b=3&a=4&%C3%A9=5&z=6&=7");
    p.sort();
    assert_eq!(
        p.entries(),
        vec![
            (s(""), s("7")),
            (s("a"), s("2")),
            (s("a"), s("4")),
            (s("b"), s("1")),
            (s("b"), s("3")),
            (s("z"), s("6")),
            (s("é"), s("5")),
        ]
    );
    // sorting again changes nothing
    let before = p.entries();
    p.sort();
    assert_eq!(p.entries(), before);
    // a proper prefix comes first
    let mut p = from_text("ab=1&a=2");
    p.sort();
    assert_eq!(p.keys(), vec![s("a"), s("ab")]);
}

#[test]
fn sort_keeps_lookups() {
    let mut p = from_text("c=1&a=2&c=3");
    let before = p.get_all(s("c"));
    p.sort();
    assert_eq!(p.get_all(s("c")), before);
    assert_eq!(p.get(s("c")), Some(s("1")));
}

#[test]
fn set_replaces_first_and_removes_later_duplicates() {
    let mut p = from_text("a=1&b=2&a=3&c=4&a=5");
    p.set(s("a"), s("9"));
    assert_eq!(p.entries(), vec![(s("a"), s("9")), (s("b"), s("2")), (s("c"), s("4"))]);
    assert_eq!(p.get_all(s("a")), vec![s("9")]);
    // setting again changes nothing
    p.set(s("a"), s("9"));
    assert_eq!(p.entries(), vec![(s("a"), s("9")), (s("b"), s("2")), (s("c"), s("4"))]);
}

#[test]
fn set_on_missing_name_appends() {
    let mut p = from_text("a=1");
    p.set(s("b"), s("2"));
    assert_eq!(p.entries(), vec![(s("a"), s("1")), (s("b"), s("2"))]);
}

#[test]
fn append_then_get_all_ends_with_value() {
    let mut p = from_text("a=1&b=2");
    p.append(s("a"), s("3"));
    assert_eq!(p.get_all(s("a")), vec![s("1"), s("3")]);
    assert_eq!(p.get_all(s("b")), vec![s("2")]);
    assert!(p.has(s("a"), Some(s("3"))));
}

#[test]
fn delete_keeps_other_pairs_in_order() {
    let mut p = from_text("a=1&b=2&a=3&c=4");
    p.delete(s("a"), None);
    assert_eq!(p.entries(), vec![(s("b"), s("2")), (s("c"), s("4"))]);
    assert!(!p.has(s("a"), None));
    let mut p = from_text("a=1&b=2&a=1&a=3");
    p.delete(s("a"), Some(s("1")));
    assert_eq!(p.entries(), vec![(s("b"), s("2")), (s("a"), s("3"))]);
    assert!(!p.has(s("a"), Some(s("1"))));
    p.delete(s("missing"), None);
    assert_eq!(p.size(), 2);
}

#[test]
fn get_is_first_of_get_all() {
    let p = from_text("k=x&j=y&k=z");
    assert_eq!(p.get(s("k")), p.get_all(s("k")).first().cloned());
    assert_eq!(p.get(s("none")), None);
    assert!(p.get_all(s("none")).is_empty());
}

#[test]
fn for_each_stops_at_first_error() {
    let p = from_text("a=1&b=2&c=3");
    let seen: RefCell<Vec<String>> = RefCell::new(Vec::new());
    let r = p.for_each(|val, key| {
        seen.borrow_mut().push(key.clone());
        if key == "b" {
            Err(format!("stop at {}", val))
        } else {
            Ok(())
        }
    });
    assert_eq!(r, Err(s("stop at 2")));
    assert_eq!(seen.into_inner(), vec![s("a"), s("b")]);
}

#[test]
fn keys_values_entries_agree_with_size() {
    let p = from_text("x=1&y=2&x=3");
    assert_eq!(p.keys().len(), p.size());
    assert_eq!(p.values().len(), p.size());
    assert_eq!(p.entries().len(), p.size());
}
