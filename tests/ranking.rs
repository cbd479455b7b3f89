use plainionmetis::cache::Chunk;
use plainionmetis::ranking::{find_similar_chunks, rank_of, top_indices};

fn bits(v: &[f32]) -> Vec<u32> {
    v.iter().map(|x| x.to_bits()).collect()
}

fn chunk(text: &str, e: &[f32]) -> Chunk {
    Chunk::new(text.to_string(), format!("{}.md", text), bits(e))
}

fn cosine(a: &[f32], b: &[f32]) -> Option<f32> {
    if a.len() != b.len() {
        return None;
    }
    let dot = a.iter().zip(b).map(|(x, y)| x * y).sum::<f32>();
    let na = a.iter().map(|x| x * x).sum::<f32>().sqrt();
    let nb = b.iter().map(|x| x * x).sum::<f32>().sqrt();
    Some(dot / (na * nb + 1e-8))
}

fn scores(chunks: &[(&str, Vec<f32>)], q: &[f32]) -> Vec<Option<u32>> {
    chunks.iter().map(|(_, e)| cosine(e, q).map(|s| s.to_bits())).collect()
}

#[test]
fn top_two_of_three() {
    let data = vec![
        ("c0", vec![1.0, 0.0]),
        ("c1", vec![0.0, 1.0]),
        ("c2", vec![0.9, 0.1]),
    ];
    let corpus: Vec<Chunk> = data.iter().map(|(t, e)| chunk(t, e)).collect();
    let s = scores(&data, &[1.0, 0.0]);
    let top = find_similar_chunks(&corpus, &s, 2);
    let texts: Vec<&str> = top.iter().map(|c| c.text.as_str()).collect();
    assert_eq!(texts, vec!["c0", "c2"]);
}

#[test]
fn cut_beyond_corpus_returns_all_ranked() {
    let data = vec![
        ("a", vec![0.0, 1.0]),
        ("b", vec![1.0, 0.0]),
        ("c", vec![0.7, 0.7]),
        ("d", vec![-1.0, 0.0]),
    ];
    let corpus: Vec<Chunk> = data.iter().map(|(t, e)| chunk(t, e)).collect();
    let s = scores(&data, &[1.0, 0.0]);
    let top = find_similar_chunks(&corpus, &s, 10);
    let texts: Vec<&str> = top.iter().map(|c| c.text.as_str()).collect();
    assert_eq!(texts, vec!["b", "c", "a", "d"]);
}

#[test]
fn ranking_twice_gives_the_same_result() {
    let data = vec![
        ("a", vec![0.3, 0.2]),
        ("b", vec![0.1, 0.9]),
        ("c", vec![0.8, 0.1]),
    ];
    let corpus: Vec<Chunk> = data.iter().map(|(t, e)| chunk(t, e)).collect();
    let s = scores(&data, &[0.5, 0.5]);
    let first = find_similar_chunks(&corpus, &s, 2);
    let second = find_similar_chunks(&corpus, &s, 2);
    assert_eq!(first, second);
}

#[test]
fn mismatched_lengths_are_left_out() {
    let data = vec![
        ("short", vec![1.0]),
        ("ok", vec![0.0, 1.0]),
        ("long", vec![1.0, 0.0, 0.0]),
    ];
    let corpus: Vec<Chunk> = data.iter().map(|(t, e)| chunk(t, e)).collect();
    let s = scores(&data, &[1.0, 0.0]);
    let top = find_similar_chunks(&corpus, &s, 5);
    let texts: Vec<&str> = top.iter().map(|c| c.text.as_str()).collect();
    assert_eq!(texts, vec!["ok"]);
}

#[test]
fn all_mismatched_gives_nothing() {
    let data = vec![("x", vec![1.0]), ("y", vec![2.0])];
    let corpus: Vec<Chunk> = data.iter().map(|(t, e)| chunk(t, e)).collect();
    let s = scores(&data, &[1.0, 0.0]);
    assert!(find_similar_chunks(&corpus, &s, 5).is_empty());
}

#[test]
fn empty_corpus_gives_nothing() {
    assert!(find_similar_chunks(&vec![], &vec![], 3).is_empty());
}

#[test]
fn cut_of_zero_gives_nothing() {
    let corpus = vec![chunk("a", &[1.0])];
    assert!(find_similar_chunks(&corpus, &vec![Some(1.0f32.to_bits())], 0).is_empty());
}

#[test]
fn equal_scores_keep_corpus_order() {
    let s: Vec<Option<u32>> = vec![
        Some(0.5f32.to_bits()),
        Some(0.9f32.to_bits()),
        Some(0.5f32.to_bits()),
        Some(0.9f32.to_bits()),
    ];
    assert_eq!(top_indices(&s, 4), vec![1, 3, 0, 2]);
}

#[test]
fn zero_signs_tie_and_nan_ranks_last() {
    let s: Vec<Option<u32>> = vec![
        Some(f32::NAN.to_bits()),
        Some((-0.0f32).to_bits()),
        Some(0.0f32.to_bits()),
        Some((-0.5f32).to_bits()),
        Some(f32::NEG_INFINITY.to_bits()),
    ];
    assert_eq!(top_indices(&s, 5), vec![1, 2, 3, 4, 0]);
}

#[test]
fn rank_follows_float_order() {
    let values = [
        f32::NEG_INFINITY,
        -3.5,
        -1.0,
        -1e-30,
        0.0,
        1e-30,
        0.25,
        1.0,
        7.0,
        f32::INFINITY,
    ];
    for w in values.windows(2) {
        assert!(rank_of(w[0].to_bits()) < rank_of(w[1].to_bits()));
    }
    assert_eq!(rank_of(0.0f32.to_bits()), rank_of((-0.0f32).to_bits()));
    assert!(rank_of(f32::NAN.to_bits()) < rank_of(f32::NEG_INFINITY.to_bits()));
}
