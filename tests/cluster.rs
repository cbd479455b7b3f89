use plainionmetis::cache::Chunk;
use plainionmetis::cluster::{
    assign_all, best_centroid, centroids_from_picks, cluster_members, refresh_centroids,
    ClusterError, ClusterRun, MINUS_ONE_BITS, ROUNDS,
};

fn bits(v: &[f32]) -> Vec<u32> {
    v.iter().map(|x| x.to_bits()).collect()
}

fn floats(v: &[u32]) -> Vec<f32> {
    v.iter().map(|b| f32::from_bits(*b)).collect()
}

fn chunk(text: &str, e: &[f32]) -> Chunk {
    Chunk::new(text.to_string(), format!("{}.md", text), bits(e))
}

fn cosine(a: &[f32], b: &[f32]) -> Option<f32> {
    if a.len() != b.len() {
        return None;
    }
    let dot = a.iter().zip(b).map(|(x, y)| x * y).sum::<f32>();
    let na = a.iter().map(|x| x * x).sum::<f32>().sqrt();
    let nb = b.iter().map(|x| x * x).sum::<f32>().sqrt();
    Some(dot / (na * nb + 1e-8))
}

fn mean(chunks: &[Chunk], members: &[usize]) -> Vec<u32> {
    if members.is_empty() {
        return vec![];
    }
    let first = floats(&chunks[members[0]].embedding);
    let mut acc = vec![0.0f32; first.len()];
    for &m in members {
        for (i, v) in floats(&chunks[m].embedding).iter().enumerate() {
            acc[i] += v;
        }
    }
    acc.iter().map(|v| (v / members.len() as f32).to_bits()).collect()
}

fn run(corpus: &Vec<Chunk>, k: usize) -> Vec<Vec<usize>> {
    let mut run = ClusterRun::start(corpus, k).unwrap();
    let mut rounds = 0;
    while !run.is_finished() {
        let sims: Vec<Vec<Option<u32>>> = corpus
            .iter()
            .map(|c| {
                run.centroids()
                    .iter()
                    .map(|m| cosine(&floats(&c.embedding), &floats(m)).map(|s| s.to_bits()))
                    .collect()
            })
            .collect();
        let groups = run.assign(&sims);
        let means: Vec<Vec<u32>> = groups.iter().map(|g| mean(corpus, g)).collect();
        run.update(&means);
        rounds += 1;
    }
    assert_eq!(rounds, ROUNDS);
    run.clusters()
}

#[test]
fn two_clusters_of_two() {
    let chunks = vec![
        chunk("a0", &[1.0, 0.0]),
        chunk("a1", &[0.9, 0.1]),
        chunk("b0", &[0.0, 1.0]),
        chunk("b1", &[0.1, 0.9]),
    ];
    for _ in 0..20 {
        let mut groups = run(&chunks, 2);
        groups.sort();
        assert_eq!(groups, vec![vec![0, 1], vec![2, 3]]);
    }
}

#[test]
fn zero_clusters_is_refused() {
    let chunks = vec![chunk("a", &[1.0])];
    assert_eq!(ClusterRun::start(&chunks, 0).err(), Some(ClusterError::NoClusters));
}

#[test]
fn more_clusters_than_chunks_is_refused() {
    let chunks = vec![chunk("a", &[1.0]), chunk("b", &[2.0])];
    assert_eq!(ClusterRun::start(&chunks, 3).err(), Some(ClusterError::TooManyClusters));
}

#[test]
fn initial_centroids_are_distinct_chunks() {
    let chunks: Vec<Chunk> = (0..6).map(|i| chunk(&format!("c{}", i), &[i as f32])).collect();
    for k in 1..=6 {
        let run = ClusterRun::start(&chunks, k).unwrap();
        let c = run.centroids();
        assert_eq!(c.len(), k);
        let mut seen: Vec<u32> = c.iter().map(|e| e[0]).collect();
        seen.sort();
        seen.dedup();
        assert_eq!(seen.len(), k);
        for e in c {
            assert!(chunks.iter().any(|ch| &ch.embedding == e));
        }
    }
}

#[test]
fn centroids_follow_picks() {
    let chunks = vec![chunk("a", &[1.0]), chunk("b", &[2.0]), chunk("c", &[3.0])];
    let c = centroids_from_picks(&chunks, &vec![2, 0]);
    assert_eq!(c, vec![bits(&[3.0]), bits(&[1.0])]);
}

#[test]
fn best_centroid_takes_first_of_equals() {
    let s = vec![Some(0.2f32.to_bits()), Some(0.8f32.to_bits()), Some(0.8f32.to_bits())];
    assert_eq!(best_centroid(&s), 1);
}

#[test]
fn missing_similarity_counts_as_minus_one() {
    assert_eq!(MINUS_ONE_BITS, (-1.0f32).to_bits());
    let s = vec![Some((-2.0f32).to_bits()), None];
    assert_eq!(best_centroid(&s), 1);
    let s = vec![None, Some((-1.0f32).to_bits())];
    assert_eq!(best_centroid(&s), 0);
    let s = vec![None, None, None];
    assert_eq!(best_centroid(&s), 0);
    let s = vec![None, Some((-0.5f32).to_bits())];
    assert_eq!(best_centroid(&s), 1);
}

#[test]
fn no_centroid_assigns_zero() {
    assert_eq!(best_centroid(&vec![]), 0);
    assert_eq!(assign_all(&vec![vec![], vec![]]), vec![0, 0]);
}

#[test]
fn members_in_corpus_order() {
    let groups = cluster_members(&vec![1, 0, 1, 2, 1], 4);
    assert_eq!(groups, vec![vec![1], vec![0, 2, 4], vec![3], vec![]]);
}

#[test]
fn empty_cluster_keeps_its_centroid() {
    let mut centroids = vec![bits(&[1.0, 1.0]), bits(&[5.0, 5.0])];
    let groups = vec![vec![0, 1], vec![]];
    let means = vec![bits(&[2.0, 3.0]), vec![]];
    refresh_centroids(&mut centroids, &groups, &means);
    assert_eq!(centroids, vec![bits(&[2.0, 3.0]), bits(&[5.0, 5.0])]);
}

#[test]
fn run_starts_with_every_chunk_in_cluster_zero() {
    let chunks = vec![chunk("a", &[1.0, 0.0]), chunk("b", &[0.0, 1.0]), chunk("c", &[1.0, 1.0])];
    let run = ClusterRun::start(&chunks, 2).unwrap();
    assert!(!run.is_finished());
    assert_eq!(run.clusters(), vec![vec![0, 1, 2], vec![]]);
}

#[test]
fn update_after_last_round_changes_nothing() {
    let chunks = vec![chunk("a", &[1.0]), chunk("b", &[2.0])];
    let mut run = ClusterRun::start(&chunks, 1).unwrap();
    for _ in 0..ROUNDS {
        let groups = run.assign(&vec![vec![Some(1.0f32.to_bits())], vec![None]]);
        assert_eq!(groups, vec![vec![0, 1]]);
        run.update(&vec![bits(&[1.5])]);
    }
    assert!(run.is_finished());
    run.update(&vec![bits(&[9.0])]);
    assert_eq!(run.centroids(), &vec![bits(&[1.5])]);
}
