use refocus::groups::HostnameGroup;
use refocus::merge::merge_hosts;

fn group(name: &str, hostnames: &[&str]) -> HostnameGroup {
    HostnameGroup::new(
        name.to_string(),
        hostnames.iter().map(|h| h.to_string()).collect(),
    )
}

fn anchor_line_count(content: &str) -> usize {
    content.lines().filter(|l| l.contains("refocus.dev")).count()
}

#[test]
fn merge_appends_managed_line_when_no_anchor() {
    let groups = vec![group("A", &["x.com"])];
    let content = "127.0.0.1 localhost\n# a comment\n";
    let out = merge_hosts(content, &groups);
    assert_eq!(
        out,
        "127.0.0.1 localhost\n# a comment\n127.0.0.1 refocus.dev x.com www.x.com \n"
    );
    assert_eq!(anchor_line_count(&out), 1);
}

#[test]
fn merge_replaces_existing_anchor_line_in_place() {
    let groups = vec![group("A", &["y.com"])];
    let content = "before\n127.0.0.1 refocus.dev old.com \nafter\n";
    let out = merge_hosts(content, &groups);
    assert_eq!(
        out,
        "before\n127.0.0.1 refocus.dev y.com www.y.com \nafter\n"
    );
    assert_eq!(anchor_line_count(&out), 1);
}

#[test]
fn merge_rewrites_every_anchor_line() {
    let groups = vec![group("A", &["y.com"])];
    let content = "a refocus.dev b\nmiddle\nc refocus.dev d\n";
    let out = merge_hosts(content, &groups);
    assert_eq!(
        out,
        "127.0.0.1 refocus.dev y.com www.y.com \nmiddle\n127.0.0.1 refocus.dev y.com www.y.com \n"
    );
}

#[test]
fn merge_of_empty_content_is_just_the_managed_line() {
    let groups = vec![group("A", &["x.com"])];
    let out = merge_hosts("", &groups);
    assert_eq!(out, "127.0.0.1 refocus.dev x.com www.x.com \n");
}

#[test]
fn merge_normalizes_missing_trailing_newline() {
    let groups = vec![group("A", &["x.com"])];
    let out = merge_hosts("127.0.0.1 localhost", &groups);
    assert_eq!(
        out,
        "127.0.0.1 localhost\n127.0.0.1 refocus.dev x.com www.x.com \n"
    );
}

#[test]
fn merge_is_idempotent_without_anchor() {
    let groups = vec![group("A", &["x.com", "www.y.com"]), group("B", &["z.org"])];
    let content = "127.0.0.1 localhost\n::1 localhost";
    let once = merge_hosts(content, &groups);
    let twice = merge_hosts(&once, &groups);
    assert_eq!(once, twice);
}

#[test]
fn merge_is_idempotent_with_existing_anchor() {
    let groups = vec![group("A", &["x.com"])];
    let content = "head\n1.2.3.4 refocus.dev stale \ntail\n";
    let once = merge_hosts(content, &groups);
    let twice = merge_hosts(&once, &groups);
    assert_eq!(once, twice);
}

#[test]
fn merge_with_changed_groups_keeps_one_managed_line() {
    let old_groups = vec![group("A", &["x.com"])];
    let new_groups = vec![group("A", &["y.com"])];
    let content = "127.0.0.1 localhost\n";
    let once = merge_hosts(content, &old_groups);
    let again = merge_hosts(&once, &new_groups);
    assert_eq!(
        again,
        "127.0.0.1 localhost\n127.0.0.1 refocus.dev y.com www.y.com \n"
    );
    assert_eq!(anchor_line_count(&again), 1);
}
