use refocus::groups::HostnameGroup;
use refocus::line::construct_refocus_line;

fn group(name: &str, hostnames: &[&str]) -> HostnameGroup {
    HostnameGroup::new(
        name.to_string(),
        hostnames.iter().map(|h| h.to_string()).collect(),
    )
}

#[test]
fn line_for_single_hostname() {
    let groups = vec![group("A", &["x.com"])];
    let line = construct_refocus_line(&groups);
    assert_eq!(line, "127.0.0.1 refocus.dev x.com www.x.com ");
}

#[test]
fn line_skips_www_variant_when_already_present() {
    let groups = vec![group("A", &["www.y.com"])];
    let line = construct_refocus_line(&groups);
    assert_eq!(line, "127.0.0.1 refocus.dev www.y.com ");
}

#[test]
fn line_for_empty_document_is_prefix_only() {
    let groups: Vec<HostnameGroup> = Vec::new();
    let line = construct_refocus_line(&groups);
    assert_eq!(line, "127.0.0.1 refocus.dev ");
}

#[test]
fn line_keeps_group_and_hostname_order_without_dedup() {
    let groups = vec![group("A", &["x.com", "y.com"]), group("B", &["x.com"])];
    let line = construct_refocus_line(&groups);
    assert_eq!(
        line,
        "127.0.0.1 refocus.dev x.com www.x.com y.com www.y.com x.com www.x.com "
    );
}

#[test]
fn line_includes_disabled_groups() {
    let mut g = group("A", &["x.com"]);
    g.disabled = Some(true);
    let line = construct_refocus_line(&vec![g]);
    assert_eq!(line, "127.0.0.1 refocus.dev x.com www.x.com ");
}

#[test]
fn display_lists_name_and_indented_hostnames() {
    let g = group("A", &["x.com", "y.com"]);
    assert_eq!(g.display_string(), "Group: A\n  x.com\n  y.com\n");
}

#[test]
fn display_of_empty_group_has_no_hostname_lines() {
    let g = group("Empty", &[]);
    assert_eq!(g.display_string(), "Group: Empty\n\n");
}

#[test]
fn line_detects_www_marker_anywhere_in_hostname() {
    let groups = vec![group("A", &["sub.www.z.com"])];
    let line = construct_refocus_line(&groups);
    assert_eq!(line, "127.0.0.1 refocus.dev sub.www.z.com ");
}
