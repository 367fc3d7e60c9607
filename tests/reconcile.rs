use blocklist_sync::reconcile::blocklist;

fn set(items: &[&str]) -> Vec<String> {
    items.iter().map(|s| s.to_string()).collect()
}

#[test]
fn raw_minus_allow_sorted() {
    let raw = set(&["c.com", "a.com", "b.com", "d.com"]);
    let allow = set(&["b.com", "z.com"]);
    assert_eq!(blocklist(&raw, &allow), set(&["a.com", "c.com", "d.com"]));
}

#[test]
fn output_is_strictly_sorted_and_within_raw() {
    let raw = set(&["x.org", "a.net", "x.org", "m.io", "a.net"]);
    let allow = set(&["m.io"]);
    let r = blocklist(&raw, &allow);
    assert_eq!(r, set(&["a.net", "x.org"]));
    for w in r.windows(2) {
        assert!(w[0] < w[1]);
    }
    for d in &r {
        assert!(raw.contains(d));
        assert!(!allow.contains(d));
    }
}

#[test]
fn allow_everything_or_nothing() {
    let raw = set(&["a.com", "b.com"]);
    assert!(blocklist(&raw, &raw).is_empty());
    assert_eq!(blocklist(&raw, &Vec::new()), set(&["a.com", "b.com"]));
    assert!(blocklist(&Vec::new(), &raw).is_empty());
}

#[test]
fn order_is_by_code_point() {
    let v = set(&["b", "a", "ab", "B", "ä"]);
    assert_eq!(blocklist(&v, &Vec::new()), set(&["B", "a", "ab", "b", "ä"]));
}
