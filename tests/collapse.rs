use blocklist_sync::collapse::filter_subdomain;

fn set(items: &[&str]) -> Vec<String> {
    items.iter().map(|s| s.to_string()).collect()
}

#[test]
fn bare_suffix_covers_its_group() {
    let r = filter_subdomain(&set(&["example.com", "a.example.com", "b.example.com"]));
    assert_eq!(r, set(&["example.com"]));
}

#[test]
fn group_without_suffix_is_kept() {
    let r = filter_subdomain(&set(&["a.example.com", "b.example.com"]));
    assert_eq!(r, set(&["a.example.com", "b.example.com"]));
}

#[test]
fn lone_www_form_folds_to_suffix() {
    let r = filter_subdomain(&set(&["www.example.com"]));
    assert_eq!(r, set(&["example.com"]));
}

#[test]
fn www_form_covers_its_group() {
    let r = filter_subdomain(&set(&["www.example.com", "x.y.example.com", "other.org"]));
    assert_eq!(r, set(&["example.com", "other.org"]));
}

#[test]
fn uncovered_members_lose_www() {
    let r = filter_subdomain(&set(&["www.a.example.com", "a.example.com", "b.example.com"]));
    assert_eq!(r, set(&["a.example.com", "b.example.com"]));
}

#[test]
fn single_labels_are_dropped() {
    let r = filter_subdomain(&set(&["localhost", "example.com", "com"]));
    assert_eq!(r, set(&["example.com"]));
}

#[test]
fn groups_are_told_apart_by_exact_suffix() {
    let r = filter_subdomain(&set(&["example.com", "a.example.co", "b.sample.com"]));
    assert_eq!(r, set(&["a.example.co", "b.sample.com", "example.com"]));
}

#[test]
fn collapse_is_a_fixed_point() {
    let s = set(&["example.com", "a.example.com", "www.x.test.org", "y.test.org", "www.z.net", "q"]);
    let once = filter_subdomain(&s);
    let twice = filter_subdomain(&once);
    assert_eq!(once, twice);
    assert_eq!(once, set(&["example.com", "x.test.org", "y.test.org", "z.net"]));
}

#[test]
fn doubled_www_needs_a_second_collapse() {
    let once = filter_subdomain(&set(&["www.www.a.example.com"]));
    assert_eq!(once, set(&["www.a.example.com"]));
    assert_eq!(filter_subdomain(&once), set(&["a.example.com"]));
}

#[test]
fn empty_and_repeated_input() {
    assert!(filter_subdomain(&Vec::new()).is_empty());
    let r = filter_subdomain(&set(&["b.example.com", "a.example.com", "b.example.com"]));
    assert_eq!(r, set(&["a.example.com", "b.example.com"]));
}
