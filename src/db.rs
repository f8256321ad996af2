use vstd::prelude::*;
use crate::model::Documentation;
use crate::path::{same_path, DocPath, DocPathView};

verus! {

/// Where a reader of a message is: which document, which page.
#[derive(Debug)]
pub struct Session {
    pub path: DocPath,
    pub page: usize,
}

/// The map that entries stored in this order make: a later entry for a key
/// replaces an earlier one.
pub open spec fn latest<K, V>(entries: Seq<(K, V)>) -> Map<K, V>
    decreases entries.len(),
{
    if entries.len() == 0 {
        Map::empty()
    } else {
        latest(entries.drop_last()).insert(entries.last().0, entries.last().1)
    }
}

proof fn lemma_last_wins<K, V>(entries: Seq<(K, V)>, j: int, key: K)
    requires
        0 <= j < entries.len(),
        entries[j].0 == key,
        forall|k: int| j < k < entries.len() ==> (#[trigger] entries[k]).0 != key,
    ensures
        latest(entries).contains_key(key),
        latest(entries)[key] == entries[j].1,
    decreases entries.len(),
{
    if j < entries.len() - 1 {
        let prefix = entries.drop_last();
        assert forall|k: int| j < k < prefix.len() implies (#[trigger] prefix[k]).0 != key by {
            assert(prefix[k] == entries[k]);
        }
        lemma_last_wins(prefix, j, key);
        assert(entries[entries.len() - 1].0 != key);
    }
}

proof fn lemma_absent<K, V>(entries: Seq<(K, V)>, key: K)
    requires
        forall|k: int| 0 <= k < entries.len() ==> (#[trigger] entries[k]).0 != key,
    ensures
        !latest(entries).contains_key(key),
    decreases entries.len(),
{
    if entries.len() > 0 {
        let prefix = entries.drop_last();
        assert forall|k: int| 0 <= k < prefix.len() implies (#[trigger] prefix[k]).0 != key by {
            assert(prefix[k] == entries[k]);
        }
        lemma_absent(prefix, key);
        assert(entries[entries.len() - 1].0 != key);
    }
}

/// Sessions keyed by chat and message.
pub struct SessionStore {
    finder: Vec<((i64, i64), Session)>,
}

impl View for SessionStore {
    type V = Map<(i64, i64), Session>;

    closed spec fn view(&self) -> Map<(i64, i64), Session> {
        latest(self.finder@)
    }
}

impl SessionStore {
    pub fn new() -> (r: SessionStore)
        ensures
            r@ == Map::<(i64, i64), Session>::empty(),
    {
        SessionStore { finder: Vec::new() }
    }

    pub fn get(&self, chat_id: i64, message_id: i64) -> (r: Option<&Session>)
        ensures
            r is Some <==> self@.contains_key((chat_id, message_id)),
            r matches Some(s) ==> *s == self@[(chat_id, message_id)],
    {
        let ghost entries = self.finder@;
        let ghost key = (chat_id, message_id);
        let mut i: usize = self.finder.len();
        while i > 0
            invariant
                entries == self.finder@,
                key == (chat_id, message_id),
                i <= entries.len(),
                forall|j: int| i <= j < entries.len() ==> (#[trigger] entries[j]).0 != key,
            decreases i,
        {
            let e = &self.finder[i - 1];
            assert(*e == entries[i - 1]);
            if e.0.0 == chat_id && e.0.1 == message_id {
                proof {
                    lemma_last_wins(entries, i - 1, key);
                }
                return Some(&e.1);
            }
            i = i - 1;
        }
        proof {
            lemma_absent(entries, key);
        }
        None
    }

    pub fn insert(&mut self, chat_id: i64, message_id: i64, session: Session)
        ensures
            final(self)@ == old(self)@.insert((chat_id, message_id), session),
    {
        let ghost before = self.finder@;
        self.finder.push(((chat_id, message_id), session));
        assert(self.finder@.drop_last() =~= before);
    }
}

/// Built documentation keyed by the path it documents.
pub struct DocumentStore {
    finder: Vec<(DocPath, Documentation)>,
}

pub open spec fn keyed_by_view(entries: Seq<(DocPath, Documentation)>) -> Seq<(DocPathView, Documentation)> {
    entries.map_values(|e: (DocPath, Documentation)| (e.0@, e.1))
}

impl View for DocumentStore {
    type V = Map<DocPathView, Documentation>;

    closed spec fn view(&self) -> Map<DocPathView, Documentation> {
        latest(keyed_by_view(self.finder@))
    }
}

impl DocumentStore {
    pub fn new() -> (r: DocumentStore)
        ensures
            r@ == Map::<DocPathView, Documentation>::empty(),
    {
        let r = DocumentStore { finder: Vec::new() };
        assert(keyed_by_view(r.finder@) =~= Seq::empty());
        r
    }

    pub fn get(&self, path: &DocPath) -> (r: Option<&Documentation>)
        ensures
            r is Some <==> self@.contains_key(path@),
            r matches Some(d) ==> *d == self@[path@],
    {
        let ghost entries = keyed_by_view(self.finder@);
        let mut i: usize = self.finder.len();
        while i > 0
            invariant
                entries == keyed_by_view(self.finder@),
                i <= entries.len(),
                forall|j: int| i <= j < entries.len() ==> (#[trigger] entries[j]).0 != path@,
            decreases i,
        {
            let e = &self.finder[i - 1];
            assert(entries[i - 1] == (e.0@, e.1));
            if same_path(&e.0, path) {
                proof {
                    lemma_last_wins(entries, i - 1, path@);
                }
                return Some(&e.1);
            }
            i = i - 1;
        }
        proof {
            lemma_absent(entries, path@);
        }
        None
    }

    pub fn insert(&mut self, path: DocPath, doc: Documentation)
        ensures
            final(self)@ == old(self)@.insert(path@, doc),
    {
        let ghost before = keyed_by_view(self.finder@);
        self.finder.push((path, doc));
        assert(keyed_by_view(self.finder@).drop_last() =~= before);
    }
}

impl Default for SessionStore {
    fn default() -> (r: SessionStore)
        ensures
            r@ == Map::<(i64, i64), Session>::empty(),
    {
        SessionStore::new()
    }
}

impl Default for DocumentStore {
    fn default() -> (r: DocumentStore)
        ensures
            r@ == Map::<DocPathView, Documentation>::empty(),
    {
        DocumentStore::new()
    }
}

/// What the bot keeps between updates: built documentation by path, and
/// where each message's reader is.
pub struct Context {
    pub cached_docs: DocumentStore,
    pub sessions: SessionStore,
}

impl Context {
    pub fn new() -> (r: Context)
        ensures
            r.cached_docs@ == Map::<DocPathView, Documentation>::empty(),
            r.sessions@ == Map::<(i64, i64), Session>::empty(),
    {
        Context { cached_docs: DocumentStore::new(), sessions: SessionStore::new() }
    }
}

/// How a request for one candidate page ended.
#[derive(Debug, Clone, Copy, PartialEq, Eq, Structural)]
pub enum FetchOutcome {
    /// The server answered with this status.
    Status(u16),
    /// The request never reached a server.
    Transport,
}

/// What to do after a request for a candidate page.
#[derive(Debug, Clone, Copy, PartialEq, Eq, Structural)]
pub enum FetchStep {
    /// Build the documentation from this page.
    Build,
    /// Ask for the candidate with this index.
    Next(usize),
    /// No candidate documents the item.
    NotFound,
    /// Give up with the transport error.
    Fail,
}

/// After the request for candidate `index` of `count`: a page that answers
/// 200 is the one; a transport failure ends the search; any other answer
/// moves on to the next candidate, and past the last there is none.
pub fn next_fetch_step(index: usize, count: usize, outcome: FetchOutcome) -> (r: FetchStep)
    requires
        index < count,
    ensures
        outcome == FetchOutcome::Status(200) ==> r == FetchStep::Build,
        outcome == FetchOutcome::Transport ==> r == FetchStep::Fail,
        outcome is Status && outcome != FetchOutcome::Status(200) ==> r == if index + 1 < count {
            FetchStep::Next((index + 1) as usize)
        } else {
            FetchStep::NotFound
        },
{
    match outcome {
        FetchOutcome::Status(200) => FetchStep::Build,
        FetchOutcome::Transport => FetchStep::Fail,
        FetchOutcome::Status(_) => if index + 1 < count {
            FetchStep::Next(index + 1)
        } else {
            FetchStep::NotFound
        },
    }
}

} // verus!
