//! Building the embedded corpus: documents are chunked, each chunk is looked
//! up in the cache by its key, and only chunks the cache lacks are sent to the
//! embedding service. The service is driven from outside: `advance` says which
//! text to embed next and `deliver` hands back what the service returned.
use crate::cache::{Cache, Chunk, ChunkView};
use crate::chunking::{chunk_text, chunks_of, strings_view};
use crate::digest::{digest_key, hash_chunk};
use vstd::prelude::*;

verus! {

/// The number of words in each chunk of a document.
pub const WINDOW_WORDS: usize = 400;

/// Whether a file name has the extension `md`: it ends in `.md` and has at
/// least one character before that dot.
pub open spec fn is_markdown_name(name: Seq<char>) -> bool {
    name.len() >= 4 && name.subrange(name.len() - 3, name.len() as int) == seq!['.', 'm', 'd']
}

/// Whether a file of this name is a source document.
pub fn is_markdown(file_name: &str) -> (r: bool)
    ensures
        r == is_markdown_name(file_name@),
{
    let n = file_name.unicode_len();
    if n < 4 {
        return false;
    }
    let a = file_name.get_char(n - 3);
    let b = file_name.get_char(n - 2);
    let c = file_name.get_char(n - 1);
    let r = a == '.' && b == 'm' && c == 'd';
    assert(r ==> file_name@.subrange(n - 3, n as int) =~= seq!['.', 'm', 'd']);
    assert(file_name@.subrange(n - 3, n as int) == seq!['.', 'm', 'd'] ==> r) by {
        if file_name@.subrange(n - 3, n as int) == seq!['.', 'm', 'd'] {
            assert(file_name@.subrange(n - 3, n as int)[0] == a);
            assert(file_name@.subrange(n - 3, n as int)[1] == b);
            assert(file_name@.subrange(n - 3, n as int)[2] == c);
        }
    }
    r
}

/// A chunk waiting to be resolved: its key, text and document path.
pub type PendingView = (Seq<char>, Seq<char>, Seq<char>);

/// The pending chunks of one document.
pub open spec fn document_pending(file_path: Seq<char>, content: Seq<char>) -> Seq<PendingView> {
    chunks_of(content, WINDOW_WORDS as nat).map_values(
        |t: Seq<char>| (digest_key(t, file_path), t, file_path),
    )
}

/// What a loader holds: the cache, every chunk found so far in document order,
/// how many of them are resolved, and the corpus built from the resolved ones.
pub ghost struct LoaderView {
    pub cache: Map<Seq<char>, ChunkView>,
    pub pending: Seq<PendingView>,
    pub next: nat,
    pub corpus: Seq<ChunkView>,
}

/// What the caller does next.
#[derive(Debug, PartialEq)]
pub enum LoadStep {
    /// Embed this text and hand the result to `deliver`.
    Embed(String),
    /// Every chunk is resolved.
    Done,
}

pub struct CorpusLoader {
    cache: Cache,
    pending: Vec<(String, String, String)>,
    next: usize,
    corpus: Vec<Chunk>,
}

/// The chunks reused from the cache for the pending chunks `from..to`.
pub open spec fn reused(v: LoaderView, from: nat, to: nat) -> Seq<ChunkView> {
    Seq::new((to - from) as nat, |j: int| v.cache[v.pending[from + j].0])
}

impl View for CorpusLoader {
    type V = LoaderView;

    closed spec fn view(&self) -> LoaderView {
        LoaderView {
            cache: self.cache@,
            pending: self.pending@.map_values(
                |p: (String, String, String)| (p.0@, p.1@, p.2@),
            ),
            next: self.next as nat,
            corpus: self.corpus@.map_values(|c: Chunk| c@),
        }
    }
}

impl CorpusLoader {
    pub closed spec fn wf(&self) -> bool {
        self.cache.wf() && self.next <= self.pending@.len()
    }

    /// Whether the loader waits for the embedding of the chunk at `next`.
    pub open spec fn awaiting(v: LoaderView) -> bool {
        v.next < v.pending.len() && !v.cache.contains_key(v.pending[v.next as int].0)
    }

    /// A loader over `cache` with no documents yet.
    pub fn new(cache: Cache) -> (r: CorpusLoader)
        requires
            cache.wf(),
        ensures
            r.wf(),
            r@ == (LoaderView {
                cache: cache@,
                pending: Seq::empty(),
                next: 0,
                corpus: Seq::empty(),
            }),
    {
        let r = CorpusLoader { cache, pending: Vec::new(), next: 0, corpus: Vec::new() };
        assert(r@.pending =~= Seq::<PendingView>::empty());
        assert(r@.corpus =~= Seq::<ChunkView>::empty());
        r
    }

    /// Resolves, in order, every pending chunk whose key is cached, appending
    /// the cached chunk to the corpus, and stops at the first one the cache
    /// lacks, whose text is then to be embedded; `Done` when none is left.
    pub fn advance(&mut self) -> (r: LoadStep)
        requires
            old(self).wf(),
        ensures
            final(self).wf(),
            final(self)@.cache == old(self)@.cache,
            final(self)@.pending == old(self)@.pending,
            old(self)@.next <= final(self)@.next,
            forall|i: int|
                old(self)@.next <= i < final(self)@.next ==> old(self)@.cache.contains_key(
                    #[trigger] old(self)@.pending[i].0,
                ),
            final(self)@.corpus == old(self)@.corpus + reused(
                old(self)@,
                old(self)@.next,
                final(self)@.next,
            ),
            match r {
                LoadStep::Embed(t) => {
                    &&& Self::awaiting(final(self)@)
                    &&& t@ == final(self)@.pending[final(self)@.next as int].1
                },
                LoadStep::Done => final(self)@.next == final(self)@.pending.len(),
            },
    {
        let ghost start = self@;
        while self.next < self.pending.len()
            invariant
                start == old(self)@,
                self.wf(),
                self@.cache == start.cache,
                self@.pending == start.pending,
                start.next <= self@.next,
                forall|i: int|
                    start.next <= i < self@.next ==> start.cache.contains_key(
                        #[trigger] start.pending[i].0,
                    ),
                self@.corpus == start.corpus + reused(start, start.next, self@.next),
            decreases self.pending.len() - self.next,
        {
            let ghost prev = self@;
            let found = match self.cache.get(self.pending[self.next].0.as_str()) {
                Some(c) => Some(c.duplicate()),
                None => None,
            };
            match found {
                Some(c) => {
                    assert(self@.pending[self.next as int].0 == self.pending@[self.next as int].0@);
                    self.corpus.push(c);
                    self.next = self.next + 1;
                    assert(self@.corpus =~= prev.corpus.push(c@));
                    assert(reused(start, start.next, self@.next) =~= reused(
                        start,
                        start.next,
                        prev.next,
                    ).push(c@));
                },
                None => {
                    assert(self@.pending[self.next as int].0 == self.pending@[self.next as int].0@);
                    let t = self.pending[self.next].1.clone();
                    return LoadStep::Embed(t);
                },
            }
        }
        LoadStep::Done
    }

    /// Hands over what the embedding service returned for the awaited chunk.
    /// An embedding makes a new chunk, which is cached under the chunk's key and
    /// appended to the corpus; no embedding drops the chunk. Either way the
    /// chunk is resolved. Outside the awaiting state nothing changes.
    pub fn deliver(&mut self, embedding: Option<Vec<u32>>)
        requires
            old(self).wf(),
        ensures
            final(self).wf(),
            !Self::awaiting(old(self)@) ==> final(self)@ == old(self)@,
            Self::awaiting(old(self)@) ==> {
                let v = old(self)@;
                let p = v.pending[v.next as int];
                match embedding {
                    Some(e) => {
                        let c = ChunkView { embedding: e@, text: p.1, file_path: p.2 };
                        final(self)@ == (LoaderView {
                            cache: v.cache.insert(p.0, c),
                            next: v.next + 1,
                            corpus: v.corpus.push(c),
                            ..v
                        })
                    },
                    None => final(self)@ == (LoaderView { next: v.next + 1, ..v }),
                }
            },
    {
        if self.next >= self.pending.len() || self.cache.get(self.pending[self.next].0.as_str()).is_some() {
            return;
        }
        let ghost prev = self@;
        assert(self@.pending[self.next as int] == (
            self.pending@[self.next as int].0@,
            self.pending@[self.next as int].1@,
            self.pending@[self.next as int].2@,
        ));
        match embedding {
            Some(e) => {
                let p = &self.pending[self.next];
                let chunk = Chunk::new(p.1.clone(), p.2.clone(), e);
                let key = p.0.clone();
                self.cache.insert(key, chunk.duplicate());
                self.corpus.push(chunk);
                self.next = self.next + 1;
                assert(self@.corpus =~= prev.corpus.push(chunk@));
            },
            None => {
                self.next = self.next + 1;
            },
        }
    }

    /// The number of chunks found so far.
    pub fn pending_count(&self) -> (r: usize)
        ensures
            r == self@.pending.len(),
    {
        self.pending.len()
    }

    /// Ends loading: the corpus built so far and the cache, to be persisted.
    pub fn finish(self) -> (r: (Vec<Chunk>, Cache))
        requires
            self.wf(),
        ensures
            r.1.wf(),
            r.0@.map_values(|c: Chunk| c@) == self@.corpus,
            r.1@ == self@.cache,
    {
        (self.corpus, self.cache)
    }

    /// Adds the chunks of one document, in window order, after those found so far.
    pub fn add_document(&mut self, file_path: &str, content: &str)
        requires
            old(self).wf(),
        ensures
            final(self).wf(),
            final(self)@ == (LoaderView {
                pending: old(self)@.pending + document_pending(file_path@, content@),
                ..old(self)@
            }),
    {
        let texts = chunk_text(content, WINDOW_WORDS);
        let ghost before = self@.pending;
        let ghost added = document_pending(file_path@, content@);
        let mut i: usize = 0;
        while i < texts.len()
            invariant
                self.wf(),
                strings_view(texts@) == chunks_of(content@, WINDOW_WORDS as nat),
                added == document_pending(file_path@, content@),
                i <= texts.len(),
                self@ == (LoaderView { pending: before + added.take(i as int), ..old(self)@ }),
            decreases texts.len() - i,
        {
            let key = hash_chunk(texts[i].as_str(), file_path);
            let ghost prev = self@;
            self.pending.push((key, texts[i].clone(), file_path.to_string()));
            assert(self@.pending =~= prev.pending.push(added[i as int]));
            assert(before + added.take(i + 1) =~= (before + added.take(i as int)).push(added[i as int]));
            i = i + 1;
        }
        assert(added.take(texts.len() as int) =~= added);
    }
}

} // verus!
