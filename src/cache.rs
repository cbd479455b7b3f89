//! Chunks and the content-addressed cache of their embeddings.
use vstd::hash_map::StringHashMap;
use vstd::prelude::*;

verus! {

/// A word-bounded slice of a document with its embedding. Each component of
/// `embedding` is the bit pattern of an IEEE-754 single-precision number, so
/// the vector is carried exactly as the embedding service produced it.
#[derive(Debug, PartialEq)]
pub struct Chunk {
    pub embedding: Vec<u32>,
    pub text: String,
    pub file_path: String,
}

/// What a chunk holds, as mathematical values.
pub ghost struct ChunkView {
    pub embedding: Seq<u32>,
    pub text: Seq<char>,
    pub file_path: Seq<char>,
}

impl View for Chunk {
    type V = ChunkView;

    open spec fn view(&self) -> ChunkView {
        ChunkView { embedding: self.embedding@, text: self.text@, file_path: self.file_path@ }
    }
}

impl Chunk {
    pub fn new(text: String, file_path: String, embedding: Vec<u32>) -> (r: Chunk)
        ensures
            r@ == (ChunkView { embedding: embedding@, text: text@, file_path: file_path@ }),
    {
        Chunk { embedding, text, file_path }
    }

    /// A copy of this chunk.
    pub fn duplicate(&self) -> (r: Chunk)
        ensures
            r@ == self@,
    {
        let embedding = self.embedding.clone();
        assert(embedding@ =~= self.embedding@);
        Chunk { embedding, text: self.text.clone(), file_path: self.file_path.clone() }
    }
}

/// The mapping described by a list of entries; a later entry replaces an
/// earlier one with the same key.
pub open spec fn map_of_entries(es: Seq<(Seq<char>, ChunkView)>) -> Map<Seq<char>, ChunkView>
    decreases es.len(),
{
    if es.len() == 0 {
        Map::empty()
    } else {
        map_of_entries(es.drop_last()).insert(es.last().0, es.last().1)
    }
}

/// The keys and chunks of a list of entries, as mathematical values.
pub open spec fn entries_view(es: Seq<(String, Chunk)>) -> Seq<(Seq<char>, ChunkView)> {
    es.map_values(|e: (String, Chunk)| (e.0@, e.1@))
}

/// Whether no two entries share a key.
pub open spec fn unique_keys(es: Seq<(Seq<char>, ChunkView)>) -> bool {
    forall|i: int, j: int|
        0 <= i < es.len() && 0 <= j < es.len() && i != j ==> #[trigger] es[i].0 != #[trigger] es[j].0
}

/// A mapping from chunk keys to chunks with unique keys. Entries keep the order
/// in which their keys were first inserted; `index` gives each key's position.
pub struct Cache {
    entries: Vec<(String, Chunk)>,
    index: StringHashMap<usize>,
}

impl View for Cache {
    type V = Map<Seq<char>, ChunkView>;

    closed spec fn view(&self) -> Map<Seq<char>, ChunkView> {
        map_of_entries(entries_view(self.entries@))
    }
}

impl Cache {
    /// The entries, in the order in which their keys were first inserted.
    pub closed spec fn entries_spec(&self) -> Seq<(Seq<char>, ChunkView)> {
        entries_view(self.entries@)
    }

    pub closed spec fn wf(&self) -> bool {
        &&& forall|k: Seq<char>| #[trigger]
            self.index@.contains_key(k) ==> self.index@[k] < self.entries@.len()
                && self.entries@[self.index@[k] as int].0@ == k
        &&& forall|i: int|
            0 <= i < self.entries@.len() ==> #[trigger] self.index@.contains_key(
                self.entries@[i].0@,
            ) && self.index@[self.entries@[i].0@] == i
    }

    /// An empty cache.
    pub fn new() -> (r: Cache)
        ensures
            r.wf(),
            r@ == Map::<Seq<char>, ChunkView>::empty(),
            r.entries_spec().len() == 0,
    {
        let r = Cache { entries: Vec::new(), index: StringHashMap::new() };
        assert(entries_view(r.entries@) =~= Seq::empty());
        r
    }

    /// The number of keys.
    pub fn len(&self) -> (r: usize)
        requires
            self.wf(),
        ensures
            r == self@.len(),
    {
        proof {
            self.lemma_view();
        }
        self.entries.len()
    }

    /// The chunk stored under `key`, if any.
    pub fn get(&self, key: &str) -> (r: Option<&Chunk>)
        requires
            self.wf(),
        ensures
            match r {
                Some(c) => self@.contains_key(key@) && c@ == self@[key@],
                None => !self@.contains_key(key@),
            },
    {
        proof {
            self.lemma_view();
        }
        match self.index.get(key) {
            Some(pos) => Some(&self.entries[*pos].1),
            None => None,
        }
    }

    /// Stores `chunk` under `key`, replacing what was stored there. A new key
    /// is listed after all others; a known key keeps its place.
    pub fn insert(&mut self, key: String, chunk: Chunk)
        requires
            old(self).wf(),
        ensures
            final(self).wf(),
            final(self)@ == old(self)@.insert(key@, chunk@),
            !old(self)@.contains_key(key@) ==> final(self).entries_spec() == old(
                self,
            ).entries_spec().push((key@, chunk@)),
    {
        proof {
            self.lemma_view();
        }
        let ghost old_self = *self;
        let ghost k = key@;
        let ghost v = chunk@;
        match self.index.get(key.as_str()) {
            Some(pos) => {
                let p = *pos;
                self.entries.set(p, (key, chunk));
                assert(self.wf());
                proof {
                    self.lemma_view();
                    assert forall|k2: Seq<char>| #[trigger] self@.contains_key(k2) implies old_self@.insert(k, v).contains_key(k2) && self@[k2] == old_self@.insert(k, v)[k2] by {
                        if k2 != k {
                            assert(self.index@[k2] != p);
                        }
                    }
                    assert(self@ =~= old_self@.insert(k, v));
                }
            },
            None => {
                let n = self.entries.len();
                self.entries.push((key, chunk));
                self.index.insert(self.entries[n].0.clone(), n);
                assert(self.wf()) by {
                    assert forall|i: int|
                        0 <= i < self.entries@.len() implies #[trigger] self.index@.contains_key(
                        self.entries@[i].0@,
                    ) && self.index@[self.entries@[i].0@] == i by {
                        if i < n {
                            assert(old_self.index@.contains_key(old_self.entries@[i].0@));
                        }
                    }
                }
                proof {
                    self.lemma_view();
                    assert(entries_view(self.entries@) =~= entries_view(old_self.entries@).push(
                        (k, v),
                    ));
                }
            },
        }
    }

    /// A cache holding `entries`; of two entries with one key the later wins.
    pub fn from_entries(entries: &Vec<(String, Chunk)>) -> (r: Cache)
        ensures
            r.wf(),
            r@ == map_of_entries(entries_view(entries@)),
    {
        let ghost es = entries_view(entries@);
        let mut c = Cache::new();
        let mut i: usize = 0;
        while i < entries.len()
            invariant
                es == entries_view(entries@),
                i <= entries.len(),
                c.wf(),
                c@ == map_of_entries(es.take(i as int)),
            decreases entries.len() - i,
        {
            let e = &entries[i];
            c.insert(e.0.clone(), e.1.duplicate());
            assert(es.take(i + 1).drop_last() =~= es.take(i as int));
            i = i + 1;
        }
        assert(es.take(entries.len() as int) =~= es);
        c
    }

    /// The entries, each key once, in the order in which keys were first inserted.
    pub fn entries(&self) -> (r: &Vec<(String, Chunk)>)
        requires
            self.wf(),
        ensures
            entries_view(r@) == self.entries_spec(),
            unique_keys(self.entries_spec()),
            map_of_entries(self.entries_spec()) == self@,
    {
        proof {
            self.lemma_view();
        }
        &self.entries
    }

    proof fn lemma_view(&self)
        requires
            self.wf(),
        ensures
            unique_keys(self.entries_spec()),
            forall|i: int|
                0 <= i < self.entries@.len() ==> #[trigger] self@.contains_key(self.entries@[i].0@)
                    && self@[self.entries@[i].0@] == self.entries@[i].1@,
            forall|k: Seq<char>| #[trigger]
                self@.contains_key(k) <==> self.index@.contains_key(k),
            forall|k: Seq<char>| #[trigger]
                self.index@.contains_key(k) ==> self@[k] == self.entries@[self.index@[k] as int].1@,
            self@.len() == self.entries@.len(),
            self@ == map_of_entries(self.entries_spec()),
    {
        let es = self.entries_spec();
        assert(es.len() == self.entries@.len());
        assert forall|i: int| 0 <= i < es.len() implies #[trigger] es[i] == (
            self.entries@[i].0@,
            self.entries@[i].1@,
        ) by {}
        assert forall|i: int, j: int|
            0 <= i < es.len() && 0 <= j < es.len() && i != j implies #[trigger] es[i].0
            != #[trigger] es[j].0 by {
            assert(self.index@.contains_key(self.entries@[i].0@));
            assert(self.index@.contains_key(self.entries@[j].0@));
        }
        lemma_map_of_unique(es);
        assert(self@ == map_of_entries(es));
        assert forall|i: int| 0 <= i < self.entries@.len() implies #[trigger] self@.contains_key(
            self.entries@[i].0@,
        ) && self@[self.entries@[i].0@] == self.entries@[i].1@ by {
            assert(es[i] == (self.entries@[i].0@, self.entries@[i].1@));
            assert(map_of_entries(es).contains_key(es[i].0));
        }
        assert forall|k: Seq<char>| #[trigger] self@.contains_key(k) implies self.index@.contains_key(k) by {
            let i = choose|i: int| 0 <= i < es.len() && es[i].0 == k;
            assert(self.index@.contains_key(self.entries@[i].0@));
        }
        assert forall|k: Seq<char>| #[trigger] self.index@.contains_key(k) implies self@[k] == self.entries@[self.index@[k] as int].1@ by {
            let i = self.index@[k] as int;
            assert(es[i] == (self.entries@[i].0@, self.entries@[i].1@));
            assert(es[i].0 == k);
            assert(map_of_entries(es).contains_key(es[i].0));
        }
    }
}

/// Listing a cache's entries and rebuilding a cache from that list gives back
/// the same mapping: the list names each key once, with its chunk.
pub proof fn lemma_cache_round_trip(c: &Cache)
    requires
        c.wf(),
    ensures
        unique_keys(c.entries_spec()),
        map_of_entries(c.entries_spec()) == c@,
{
    c.lemma_view();
}

/// With unique keys, the mapping holds exactly the entries' keys and values.
proof fn lemma_map_of_unique(es: Seq<(Seq<char>, ChunkView)>)
    requires
        unique_keys(es),
    ensures
        forall|i: int|
            0 <= i < es.len() ==> #[trigger] map_of_entries(es).contains_key(es[i].0)
                && map_of_entries(es)[es[i].0] == es[i].1,
        forall|k: Seq<char>| #[trigger]
            map_of_entries(es).contains_key(k) ==> exists|i: int| 0 <= i < es.len() && es[i].0 == k,
        map_of_entries(es).dom().finite(),
        map_of_entries(es).len() == es.len(),
    decreases es.len(),
{
    if es.len() > 0 {
        let init = es.drop_last();
        assert(unique_keys(init)) by {
            assert forall|i: int, j: int|
                0 <= i < init.len() && 0 <= j < init.len() && i != j implies #[trigger] init[i].0
                != #[trigger] init[j].0 by {
                assert(es[i].0 != es[j].0);
            }
        }
        lemma_map_of_unique(init);
        let m0 = map_of_entries(init);
        let last = es.last();
        assert(!m0.contains_key(last.0)) by {
            if m0.contains_key(last.0) {
                let i = choose|i: int| 0 <= i < init.len() && init[i].0 == last.0;
                assert(es[i].0 != es[es.len() - 1].0);
            }
        }
        assert forall|i: int| 0 <= i < es.len() implies #[trigger] map_of_entries(es).contains_key(es[i].0)
            && map_of_entries(es)[es[i].0] == es[i].1 by {
            if i < es.len() - 1 {
                assert(init[i] == es[i]);
                assert(es[i].0 != es[es.len() - 1].0);
            }
        }
        assert forall|k: Seq<char>| #[trigger] map_of_entries(es).contains_key(k) implies exists|i: int| 0 <= i < es.len() && es[i].0 == k by {
            if k != last.0 {
                let i = choose|i: int| 0 <= i < init.len() && init[i].0 == k;
                assert(es[i].0 == k);
            } else {
                assert(es[es.len() - 1].0 == k);
            }
        }
    }
}

} // verus!
