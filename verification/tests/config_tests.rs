use minmux::config::{parse_yaml_to_dict, ConfigDict, ConfigEntry};

fn entry(id: &str, when: &str, code: &str, trigger: Option<&str>) -> ConfigEntry {
    ConfigEntry {
        id: id.to_string(),
        when: when.to_string(),
        code: code.to_string(),
        trigger: trigger.map(|t| t.to_string()),
    }
}

#[test]
fn table_by_id_later_wins() {
    let d = parse_yaml_to_dict(vec![
        entry("a", "lua", "x = 1", None),
        entry("b", "keyboard", "y = 2", Some("ls")),
        entry("a", "term", "z = 3", Some("\\$")),
    ]);
    assert_eq!(d.len(), 2);
    let a = d.get("a").unwrap();
    assert_eq!(a.when, "term");
    assert_eq!(a.code, "z = 3");
    assert_eq!(a.trigger.as_deref(), Some("\\$"));
    assert_eq!(d.get("b").unwrap().code, "y = 2");
    assert!(d.get("c").is_none());
    let ids: Vec<&str> = d.entries().iter().map(|e| e.id.as_str()).collect();
    assert_eq!(ids, vec!["a", "b"]);
}

#[test]
fn empty_table() {
    let d = parse_yaml_to_dict(Vec::new());
    assert_eq!(d.len(), 0);
    assert!(d.get("").is_none());
    let mut d = ConfigDict::new();
    d.insert(entry("k", "lua", "", None));
    assert_eq!(d.len(), 1);
}
