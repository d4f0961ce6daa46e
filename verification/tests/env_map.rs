use anchor_tray_app::env_map::EnvMap;

#[test]
fn insert_then_get_gives_back_the_value() {
    let mut m = EnvMap::new();
    assert_eq!(m.len(), 0);
    assert_eq!(m.get(&"A".to_string()), None);
    m.insert("A".to_string(), "1".to_string());
    m.insert("B".to_string(), "2".to_string());
    assert_eq!(m.get(&"A".to_string()), Some("1".to_string()));
    assert_eq!(m.get(&"B".to_string()), Some("2".to_string()));
    assert_eq!(m.len(), 2);
}

#[test]
fn insert_overwrites_an_existing_key() {
    let mut m = EnvMap::new();
    m.insert("A".to_string(), "1".to_string());
    m.insert("A".to_string(), "3".to_string());
    assert_eq!(m.len(), 1);
    assert_eq!(m.get(&"A".to_string()), Some("3".to_string()));
    let c = m.clone();
    assert_eq!(c.pairs(), vec![("A".to_string(), "3".to_string())]);
}
