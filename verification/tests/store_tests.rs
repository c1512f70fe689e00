use refocus::groups::{default_groups, HostnameGroup};
use refocus::store::{add_hostnames, delete_hostnames, filter_groups, split_args, toggle_groups};

fn group(name: &str, hostnames: &[&str]) -> HostnameGroup {
    HostnameGroup::new(
        name.to_string(),
        hostnames.iter().map(|h| h.to_string()).collect(),
    )
}

fn strings(items: &[&str]) -> Vec<String> {
    items.iter().map(|s| s.to_string()).collect()
}

#[test]
fn add_creates_missing_group_at_the_end() {
    let mut groups = default_groups();
    add_hostnames(&mut groups, "Work", &strings(&["z.com"]));
    assert_eq!(groups.len(), 2);
    assert_eq!(groups[0].name, "Social Media");
    assert_eq!(groups[1].name, "Work");
    assert_eq!(groups[1].hostnames, strings(&["z.com"]));
    assert_eq!(groups[1].disabled, None);
}

#[test]
fn add_appends_to_first_matching_group_ignoring_case() {
    let mut groups = vec![group("Work", &["a.com"]), group("work", &["b.com"])];
    add_hostnames(&mut groups, "WORK", &strings(&["c.com"]));
    assert_eq!(groups[0].hostnames, strings(&["a.com", "c.com"]));
    assert_eq!(groups[1].hostnames, strings(&["b.com"]));
}

#[test]
fn add_drops_tokens_without_a_dot() {
    let mut groups = vec![group("Work", &["a.com"])];
    add_hostnames(&mut groups, "Work", &strings(&["nodot", "b.com"]));
    assert_eq!(groups[0].hostnames, strings(&["a.com", "b.com"]));
}

#[test]
fn add_of_nothing_changes_nothing() {
    let mut groups = vec![group("Work", &["a.com"])];
    let before = groups.clone();
    add_hostnames(&mut groups, "Work", &Vec::new());
    assert_eq!(groups, before);
}

#[test]
fn delete_removes_hostname_from_every_group() {
    let mut groups = vec![
        group("A", &["x.com", "keep.com"]),
        group("B", &["x.com"]),
        group("C", &["other.com"]),
    ];
    delete_hostnames(&mut groups, &strings(&["x.com"]));
    assert_eq!(groups[0].hostnames, strings(&["keep.com"]));
    assert_eq!(groups[0].name, "A");
    assert!(groups[1].hostnames.is_empty());
    assert_eq!(groups[2].hostnames, strings(&["other.com"]));
}

#[test]
fn delete_matches_ignoring_case_on_both_sides() {
    let mut groups = vec![group("A", &["Mixed.Com", "keep.com"])];
    delete_hostnames(&mut groups, &strings(&["mixed.COM"]));
    assert_eq!(groups[0].hostnames, strings(&["keep.com"]));
}

#[test]
fn toggle_disables_group_whose_flag_was_absent() {
    let mut groups = vec![group("Social Media", &["x.com"])];
    toggle_groups(&mut groups, &strings(&["social media"]));
    assert_eq!(groups[0].disabled, Some(true));
}

#[test]
fn toggle_twice_restores_an_enabled_group() {
    let mut groups = vec![group("A", &["x.com"])];
    toggle_groups(&mut groups, &strings(&["A"]));
    toggle_groups(&mut groups, &strings(&["a"]));
    assert_eq!(groups[0].disabled, Some(false));
}

#[test]
fn toggle_with_repeated_name_flips_twice() {
    let mut groups = vec![group("A", &["x.com"])];
    toggle_groups(&mut groups, &strings(&["a", "A"]));
    assert_eq!(groups[0].disabled, Some(false));
}

#[test]
fn toggle_leaves_other_groups_alone() {
    let mut groups = vec![group("A", &["x.com"]), group("B", &["y.com"])];
    toggle_groups(&mut groups, &strings(&["B"]));
    assert_eq!(groups[0].disabled, None);
    assert_eq!(groups[1].disabled, Some(true));
}

#[test]
fn split_args_splits_on_commas() {
    let tokens = split_args("a.com,b.com");
    assert_eq!(tokens, strings(&["a.com", "b.com"]));
}

#[test]
fn split_args_drops_empty_tokens() {
    let tokens = split_args(",a.com,,b.com,");
    assert_eq!(tokens, strings(&["a.com", "b.com"]));
    assert!(split_args("").is_empty());
}

#[test]
fn filter_selects_by_lowercased_name_substring() {
    let groups = vec![group("Social Media", &["x.com"]), group("Work", &["y.com"])];
    let selected = filter_groups(&groups, "soc");
    assert_eq!(selected.len(), 1);
    assert_eq!(selected[0].name, "Social Media");
}

#[test]
fn empty_filter_selects_every_group() {
    let groups = vec![group("A", &["x.com"]), group("B", &["y.com"])];
    let selected = filter_groups(&groups, "");
    assert_eq!(selected, groups);
}

#[test]
fn filter_is_not_lowercased_itself() {
    // The stored name is compared in lowercase form, the filter as given, so
    // an upper-case filter matches nothing.
    let groups = vec![group("Work", &["y.com"])];
    assert!(filter_groups(&groups, "WORK").is_empty());
    assert_eq!(filter_groups(&groups, "work").len(), 1);
}

#[test]
fn default_document_holds_the_four_default_domains() {
    let groups = default_groups();
    assert_eq!(groups.len(), 1);
    assert_eq!(groups[0].name, "Social Media");
    assert_eq!(
        groups[0].hostnames,
        strings(&["facebook.com", "instagram.com", "twitter.com", "linkedin.com"])
    );
    assert_eq!(groups[0].disabled, None);
}
