use plainionmetis::cache::{Cache, Chunk};
use plainionmetis::digest::hash_chunk;
use plainionmetis::loader::{is_markdown, CorpusLoader, LoadStep, WINDOW_WORDS};

fn bits(v: &[f32]) -> Vec<u32> {
    v.iter().map(|x| x.to_bits()).collect()
}

#[test]
fn cached_chunk_is_reused_without_embedding() {
    let mut cache = Cache::new();
    let key = hash_chunk("hello", "a.md");
    cache.insert(
        key,
        Chunk::new("hello".to_string(), "a.md".to_string(), bits(&[1.0, 2.0])),
    );
    let mut loader = CorpusLoader::new(cache);
    loader.add_document("a.md", "hello");
    assert_eq!(loader.advance(), LoadStep::Done);
    let (corpus, cache) = loader.finish();
    assert_eq!(corpus.len(), 1);
    assert_eq!(corpus[0].text, "hello");
    assert_eq!(corpus[0].file_path, "a.md");
    assert_eq!(corpus[0].embedding, bits(&[1.0, 2.0]));
    assert_eq!(cache.len(), 1);
}

#[test]
fn missing_chunk_is_embedded_and_cached() {
    let mut loader = CorpusLoader::new(Cache::new());
    loader.add_document("n.md", "alpha beta");
    assert_eq!(loader.advance(), LoadStep::Embed("alpha beta".to_string()));
    loader.deliver(Some(bits(&[0.5])));
    assert_eq!(loader.advance(), LoadStep::Done);
    let (corpus, cache) = loader.finish();
    assert_eq!(corpus.len(), 1);
    assert_eq!(corpus[0].embedding, bits(&[0.5]));
    let cached = cache.get(&hash_chunk("alpha beta", "n.md")).unwrap();
    assert_eq!(cached.text, "alpha beta");
    assert_eq!(cached.file_path, "n.md");
}

#[test]
fn failed_embedding_drops_the_chunk() {
    let mut loader = CorpusLoader::new(Cache::new());
    loader.add_document("a.md", "one");
    loader.add_document("b.md", "two");
    assert_eq!(loader.advance(), LoadStep::Embed("one".to_string()));
    loader.deliver(None);
    assert_eq!(loader.advance(), LoadStep::Embed("two".to_string()));
    loader.deliver(Some(bits(&[2.0])));
    assert_eq!(loader.advance(), LoadStep::Done);
    let (corpus, cache) = loader.finish();
    assert_eq!(corpus.len(), 1);
    assert_eq!(corpus[0].text, "two");
    assert_eq!(cache.len(), 1);
}

#[test]
fn corpus_keeps_document_and_window_order() {
    let words: Vec<String> = (0..WINDOW_WORDS + 3).map(|i| format!("w{}", i)).collect();
    let long = words.join(" ");
    let mut loader = CorpusLoader::new(Cache::new());
    loader.add_document("long.md", &long);
    loader.add_document("short.md", "tail");
    let mut texts = vec![];
    while let LoadStep::Embed(t) = loader.advance() {
        texts.push(t);
        loader.deliver(Some(bits(&[texts.len() as f32])));
    }
    assert_eq!(texts.len(), 3);
    assert_eq!(texts[0], words[..WINDOW_WORDS].join(" "));
    assert_eq!(texts[1], words[WINDOW_WORDS..].join(" "));
    assert_eq!(texts[2], "tail");
    let (corpus, _) = loader.finish();
    let paths: Vec<&str> = corpus.iter().map(|c| c.file_path.as_str()).collect();
    assert_eq!(paths, vec!["long.md", "long.md", "short.md"]);
}

#[test]
fn repeated_chunk_is_embedded_once() {
    let mut loader = CorpusLoader::new(Cache::new());
    loader.add_document("a.md", "same words");
    loader.add_document("a.md", "same words");
    assert_eq!(loader.advance(), LoadStep::Embed("same words".to_string()));
    loader.deliver(Some(bits(&[1.0])));
    assert_eq!(loader.advance(), LoadStep::Done);
    let (corpus, cache) = loader.finish();
    assert_eq!(corpus.len(), 2);
    assert_eq!(cache.len(), 1);
}

#[test]
fn deliver_without_request_changes_nothing() {
    let mut loader = CorpusLoader::new(Cache::new());
    loader.deliver(Some(bits(&[1.0])));
    assert_eq!(loader.advance(), LoadStep::Done);
    let (corpus, cache) = loader.finish();
    assert!(corpus.is_empty());
    assert_eq!(cache.len(), 0);
}

#[test]
fn empty_document_adds_nothing() {
    let mut loader = CorpusLoader::new(Cache::new());
    loader.add_document("empty.md", "  \n ");
    assert_eq!(loader.advance(), LoadStep::Done);
}

#[test]
fn markdown_names() {
    assert!(is_markdown("notes.md"));
    assert!(is_markdown("a.md"));
    assert!(is_markdown("x.tar.md"));
    assert!(is_markdown("..md"));
    assert!(!is_markdown(".md"));
    assert!(!is_markdown("md"));
    assert!(!is_markdown("notes.mdx"));
    assert!(!is_markdown("notes.MD"));
    assert!(!is_markdown("notes.txt"));
    assert!(!is_markdown(""));
}
