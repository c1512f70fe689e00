//! The configuration document is persisted as pretty-printed JSON. These
//! tests drive the freshly seeded default document through the JSON encoder
//! and parser and back into groups.

use refocus::groups::{default_groups, HostnameGroup};
use serde_json::Value;

fn group_to_value(g: &HostnameGroup) -> Value {
    let mut obj = serde_json::Map::new();
    obj.insert("name".to_string(), Value::String(g.name.clone()));
    obj.insert(
        "hostnames".to_string(),
        Value::Array(g.hostnames.iter().map(|h| Value::String(h.clone())).collect()),
    );
    obj.insert(
        "disabled".to_string(),
        match g.disabled {
            Some(b) => Value::Bool(b),
            None => Value::Null,
        },
    );
    Value::Object(obj)
}

fn group_from_value(v: &Value) -> HostnameGroup {
    let name = v.get("name").unwrap().as_str().unwrap().to_string();
    let hostnames = v
        .get("hostnames")
        .unwrap()
        .as_array()
        .unwrap()
        .iter()
        .map(|h| h.as_str().unwrap().to_string())
        .collect();
    let disabled = match v.get("disabled").unwrap() {
        Value::Null => None,
        Value::Bool(b) => Some(*b),
        _ => panic!("disabled must be a boolean or null"),
    };
    HostnameGroup {
        name,
        hostnames,
        disabled,
    }
}

#[test]
fn saved_default_document_loads_back_identically() {
    let doc = default_groups();
    let value = Value::Array(doc.iter().map(group_to_value).collect());
    let text = serde_json::to_string_pretty(&value).unwrap();
    let parsed: Value = serde_json::from_str(&text).unwrap();
    let reloaded: Vec<HostnameGroup> = parsed
        .as_array()
        .unwrap()
        .iter()
        .map(group_from_value)
        .collect();
    assert_eq!(reloaded, doc);
    let domains: Vec<&str> = reloaded[0].hostnames.iter().map(|s| s.as_str()).collect();
    assert_eq!(
        domains,
        vec!["facebook.com", "instagram.com", "twitter.com", "linkedin.com"]
    );
}

#[test]
fn mutated_document_survives_a_save_and_load() {
    let mut doc = default_groups();
    refocus::store::add_hostnames(&mut doc, "Work", &vec!["z.com".to_string()]);
    refocus::store::toggle_groups(&mut doc, &vec!["Work".to_string()]);
    let value = Value::Array(doc.iter().map(group_to_value).collect());
    let text = serde_json::to_string_pretty(&value).unwrap();
    let parsed: Value = serde_json::from_str(&text).unwrap();
    let reloaded: Vec<HostnameGroup> = parsed
        .as_array()
        .unwrap()
        .iter()
        .map(group_from_value)
        .collect();
    assert_eq!(reloaded, doc);
    assert_eq!(reloaded[1].disabled, Some(true));
}
