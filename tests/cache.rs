use plainionmetis::cache::{Cache, Chunk};

fn bits(v: &[f32]) -> Vec<u32> {
    v.iter().map(|x| x.to_bits()).collect()
}

fn chunk(text: &str, path: &str, e: &[f32]) -> Chunk {
    Chunk::new(text.to_string(), path.to_string(), bits(e))
}

#[test]
fn empty_cache_has_nothing() {
    let c = Cache::new();
    assert_eq!(c.len(), 0);
    assert!(c.get("abc").is_none());
}

#[test]
fn inserted_chunk_is_found() {
    let mut c = Cache::new();
    c.insert("abc".to_string(), chunk("hello", "a.md", &[1.0, 2.0]));
    assert_eq!(c.len(), 1);
    let got = c.get("abc").unwrap();
    assert_eq!(got.text, "hello");
    assert_eq!(got.file_path, "a.md");
    assert_eq!(got.embedding, bits(&[1.0, 2.0]));
    assert!(c.get("abd").is_none());
}

#[test]
fn insert_under_known_key_replaces_in_place() {
    let mut c = Cache::new();
    c.insert("k1".to_string(), chunk("one", "a.md", &[1.0]));
    c.insert("k2".to_string(), chunk("two", "b.md", &[2.0]));
    c.insert("k1".to_string(), chunk("uno", "a.md", &[3.0]));
    assert_eq!(c.len(), 2);
    let keys: Vec<&str> = c.entries().iter().map(|e| e.0.as_str()).collect();
    assert_eq!(keys, vec!["k1", "k2"]);
    assert_eq!(c.get("k1").unwrap().text, "uno");
}

#[test]
fn entries_rebuild_the_same_cache() {
    let mut c = Cache::new();
    c.insert("x".to_string(), chunk("t1", "one.md", &[0.5, -0.25]));
    c.insert("y".to_string(), chunk("t2", "two.md", &[1.5]));
    c.insert("z".to_string(), chunk("t3", "three.md", &[]));
    let rebuilt = Cache::from_entries(c.entries());
    assert_eq!(rebuilt.len(), c.len());
    for (k, v) in c.entries() {
        assert_eq!(rebuilt.get(k), Some(v));
    }
}

#[test]
fn later_entry_wins_when_keys_repeat() {
    let entries = vec![
        ("k".to_string(), chunk("first", "a.md", &[1.0])),
        ("k".to_string(), chunk("second", "a.md", &[2.0])),
    ];
    let c = Cache::from_entries(&entries);
    assert_eq!(c.len(), 1);
    assert_eq!(c.get("k").unwrap().text, "second");
}

#[test]
fn duplicate_copies_every_field() {
    let a = chunk("text", "path.md", &[0.1, 0.2, 0.3]);
    assert_eq!(a.duplicate(), a);
}
