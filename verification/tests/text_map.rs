use fortnite_downloader::text_map::TextMap;

#[test]
fn read_after_write() {
    let mut m: TextMap<u32> = TextMap::new();
    assert_eq!(m.get(&"a".to_string()), None);
    m.insert("a".to_string(), 1);
    m.insert("b".to_string(), 2);
    assert_eq!(m.get(&"a".to_string()), Some(1));
    m.insert("a".to_string(), 3);
    assert_eq!(m.get(&"a".to_string()), Some(3));
    assert_eq!(m.get(&"b".to_string()), Some(2));
    assert_eq!(m.entries.len(), 2);
}

#[test]
fn remove_forgets_the_key_only() {
    let mut m: TextMap<bool> = TextMap::new();
    m.insert("a".to_string(), true);
    m.insert("b".to_string(), false);
    m.remove(&"a".to_string());
    assert_eq!(m.get(&"a".to_string()), None);
    assert_eq!(m.get(&"b".to_string()), Some(false));
    m.remove(&"zzz".to_string());
    assert_eq!(m.entries.len(), 1);
}
