//! A registry of sessions by id: at most one session stands under an id.

use crate::text::str_eq;
use vstd::prelude::*;

verus! {

/// One registered session and the id under which it stands.
struct Entry<S> {
    id: String,
    session: S,
}

/// True when some entry stands under `id`.
spec fn present<S>(entries: Seq<Entry<S>>, id: Seq<char>) -> bool {
    exists|i: int| 0 <= i < entries.len() && (#[trigger] entries[i]).id@ == id
}

/// The place of an entry that stands under `id`.
spec fn place_of<S>(entries: Seq<Entry<S>>, id: Seq<char>) -> int {
    choose|i: int| 0 <= i < entries.len() && (#[trigger] entries[i]).id@ == id
}

/// No two entries stand under the same id.
spec fn distinct<S>(entries: Seq<Entry<S>>) -> bool {
    forall|i: int, j: int|
        0 <= i < j < entries.len() ==> (#[trigger] entries[i]).id@ != (#[trigger] entries[j]).id@
}

/// The sessions by id.
spec fn as_map<S>(entries: Seq<Entry<S>>) -> Map<Seq<char>, S> {
    Map::new(|id: Seq<char>| present(entries, id), |id: Seq<char>| entries[place_of(entries, id)].session)
}

/// The ids of the entries, in their order.
spec fn ids_of<S>(entries: Seq<Entry<S>>) -> Seq<Seq<char>> {
    entries.map_values(|e: Entry<S>| e.id@)
}

/// An entry is found under its id, and nowhere else.
proof fn lemma_entry<S>(entries: Seq<Entry<S>>, i: int)
    requires
        distinct(entries),
        0 <= i < entries.len(),
    ensures
        present(entries, entries[i].id@),
        place_of(entries, entries[i].id@) == i,
        as_map(entries).contains_key(entries[i].id@),
        as_map(entries)[entries[i].id@] == entries[i].session,
{
    let id = entries[i].id@;
    assert(present(entries, id));
    let p = place_of(entries, id);
    assert(0 <= p < entries.len() && entries[p].id@ == id);
    if p < i {
        assert(entries[p].id@ != entries[i].id@);
    } else if i < p {
        assert(entries[i].id@ != entries[p].id@);
    }
}

/// An entry under a new id adds that id and keeps the rest.
proof fn lemma_push<S>(entries: Seq<Entry<S>>, entry: Entry<S>)
    requires
        distinct(entries),
        !present(entries, entry.id@),
    ensures
        distinct(entries.push(entry)),
        as_map(entries.push(entry)) == as_map(entries).insert(entry.id@, entry.session),
{
    let more = entries.push(entry);
    assert forall|i: int, j: int| 0 <= i < j < more.len() implies (#[trigger] more[i]).id@ != (
    #[trigger] more[j]).id@ by {
        if j == entries.len() {
            assert(entries[i].id@ != entry.id@);
        } else {
            assert(entries[i].id@ != entries[j].id@);
        }
    }
    assert forall|id: Seq<char>| present(more, id) <==> (id == entry.id@ || present(entries, id)) by {
        if present(more, id) {
            let p = place_of(more, id);
            if p < entries.len() {
                assert(entries[p].id@ == id);
            }
        }
        if present(entries, id) {
            let p = place_of(entries, id);
            assert(more[p].id@ == id);
        }
        if id == entry.id@ {
            assert(more[entries.len() as int].id@ == id);
        }
    }
    assert forall|id: Seq<char>| present(more, id) implies #[trigger] as_map(more)[id] == as_map(
        entries,
    ).insert(entry.id@, entry.session)[id] by {
        let p = place_of(more, id);
        lemma_entry(more, p);
        if p < entries.len() {
            lemma_entry(entries, p);
        }
    }
    assert(as_map(more) =~= as_map(entries).insert(entry.id@, entry.session));
}

/// Taking an entry out takes its id out and keeps the rest.
proof fn lemma_remove<S>(entries: Seq<Entry<S>>, i: int)
    requires
        distinct(entries),
        0 <= i < entries.len(),
    ensures
        distinct(entries.remove(i)),
        !present(entries.remove(i), entries[i].id@),
        as_map(entries.remove(i)) == as_map(entries).remove(entries[i].id@),
{
    let fewer = entries.remove(i);
    let gone = entries[i].id@;
    assert forall|a: int| 0 <= a < fewer.len() implies #[trigger] fewer[a] == entries[if a < i {
        a
    } else {
        a + 1
    }] by {}
    assert forall|a: int, b: int| 0 <= a < b < fewer.len() implies (#[trigger] fewer[a]).id@ != (
    #[trigger] fewer[b]).id@ by {
        let x = if a < i { a } else { a + 1 };
        let y = if b < i { b } else { b + 1 };
        assert(entries[x].id@ != entries[y].id@);
    }
    assert(!present(fewer, gone)) by {
        if present(fewer, gone) {
            let p = place_of(fewer, gone);
            let x = if p < i { p } else { p + 1 };
            assert(entries[x].id@ == gone);
            if x < i {
                assert(entries[x].id@ != entries[i].id@);
            } else {
                assert(entries[i].id@ != entries[x].id@);
            }
        }
    }
    assert forall|id: Seq<char>| present(fewer, id) <==> (id != gone && present(entries, id)) by {
        if present(fewer, id) {
            let p = place_of(fewer, id);
            let x = if p < i { p } else { p + 1 };
            assert(entries[x].id@ == id);
        }
        if id != gone && present(entries, id) {
            let p = place_of(entries, id);
            let a = if p < i { p } else { p - 1 };
            assert(fewer[a].id@ == id);
        }
    }
    assert forall|id: Seq<char>| present(fewer, id) implies #[trigger] as_map(fewer)[id] == as_map(
        entries,
    ).remove(gone)[id] by {
        let p = place_of(fewer, id);
        lemma_entry(fewer, p);
        let x = if p < i { p } else { p + 1 };
        lemma_entry(entries, x);
    }
    assert(as_map(fewer) =~= as_map(entries).remove(gone));
}

/// There are as many ids as entries.
proof fn lemma_count<S>(entries: Seq<Entry<S>>)
    requires
        distinct(entries),
    ensures
        as_map(entries).dom().finite(),
        as_map(entries).dom().len() == entries.len(),
{
    let ids = ids_of(entries);
    assert forall|i: int, j: int| 0 <= i < ids.len() && 0 <= j < ids.len() && i != j implies ids[i]
        != ids[j] by {
        if i < j {
            assert(entries[i].id@ != entries[j].id@);
        } else {
            assert(entries[j].id@ != entries[i].id@);
        }
    }
    ids.unique_seq_to_set();
    assert forall|id: Seq<char>| ids.to_set().contains(id) <==> present(entries, id) by {
        if ids.to_set().contains(id) {
            let i = choose|i: int| 0 <= i < ids.len() && ids[i] == id;
            assert(entries[i].id@ == id);
        }
        if present(entries, id) {
            let i = place_of(entries, id);
            assert(ids[i] == id);
        }
    }
    assert(as_map(entries).dom() =~= ids.to_set());
    vstd::seq_lib::seq_to_set_is_finite(ids);
}

/// Sessions by id. At most one session stands under an id.
pub struct Registry<S> {
    entries: Vec<Entry<S>>,
}

impl<S> View for Registry<S> {
    type V = Map<Seq<char>, S>;

    closed spec fn view(&self) -> Map<Seq<char>, S> {
        as_map(self.entries@)
    }
}

impl<S> Registry<S> {
    #[verifier::type_invariant]
    spec fn well_formed(&self) -> bool {
        distinct(self.entries@)
    }

    /// An empty registry.
    pub fn new() -> (registry: Registry<S>)
        ensures
            registry@ == Map::<Seq<char>, S>::empty(),
    {
        let registry = Registry { entries: Vec::new() };
        proof {
            assert(registry@ =~= Map::<Seq<char>, S>::empty());
        }
        registry
    }

    /// The place of the entry under `id`.
    fn position(&self, id: &str) -> (place: Option<usize>)
        ensures
            match place {
                Some(i) => i < self.entries@.len() && self.entries@[i as int].id@ == id@,
                None => !present(self.entries@, id@),
            },
    {
        let mut i: usize = 0;
        while i < self.entries.len()
            invariant
                i <= self.entries@.len(),
                forall|j: int| 0 <= j < i ==> (#[trigger] self.entries@[j]).id@ != id@,
            decreases self.entries@.len() - i,
        {
            if str_eq(self.entries[i].id.as_str(), id) {
                return Some(i);
            }
            i = i + 1;
        }
        None
    }

    /// The number of sessions.
    pub fn len(&self) -> (count: usize)
        ensures
            self@.dom().finite(),
            count == self@.dom().len(),
    {
        proof {
            use_type_invariant(self);
            lemma_count(self.entries@);
        }
        self.entries.len()
    }

    /// True when a session stands under `id`.
    pub fn contains(&self, id: &str) -> (found: bool)
        ensures
            found == self@.contains_key(id@),
    {
        proof {
            use_type_invariant(self);
        }
        match self.position(id) {
            Some(i) => {
                proof {
                    lemma_entry(self.entries@, i as int);
                }
                true
            },
            None => false,
        }
    }

    /// The session that stands under `id`.
    pub fn get(&self, id: &str) -> (session: Option<&S>)
        ensures
            match session {
                Some(s) => self@.contains_key(id@) && *s == self@[id@],
                None => !self@.contains_key(id@),
            },
    {
        proof {
            use_type_invariant(self);
        }
        match self.position(id) {
            Some(i) => {
                proof {
                    lemma_entry(self.entries@, i as int);
                }
                Some(&self.entries[i].session)
            },
            None => None,
        }
    }

    /// Takes the session that stands under `id` out of the registry.
    pub fn remove(&mut self, id: &str) -> (session: Option<S>)
        ensures
            final(self)@ == old(self)@.remove(id@),
            match session {
                Some(s) => old(self)@.contains_key(id@) && s == old(self)@[id@],
                None => !old(self)@.contains_key(id@),
            },
    {
        proof {
            use_type_invariant(&*self);
        }
        match self.position(id) {
            Some(i) => {
                proof {
                    lemma_entry(self.entries@, i as int);
                    lemma_remove(self.entries@, i as int);
                }
                let mut entries: Vec<Entry<S>> = Vec::new();
                std::mem::swap(&mut self.entries, &mut entries);
                let entry = entries.remove(i);
                self.entries = entries;
                Some(entry.session)
            },
            None => {
                proof {
                    assert(self@.remove(id@) =~= self@);
                }
                None
            },
        }
    }

    /// Puts `session` under `id`. A session that stood there leaves the
    /// registry and is handed back.
    pub fn insert(&mut self, id: String, session: S) -> (displaced: Option<S>)
        ensures
            final(self)@ == old(self)@.insert(id@, session),
            match displaced {
                Some(s) => old(self)@.contains_key(id@) && s == old(self)@[id@],
                None => !old(self)@.contains_key(id@),
            },
    {
        let displaced = self.remove(id.as_str());
        proof {
            use_type_invariant(&*self);
            assert(!self@.contains_key(id@));
            assert(!present(self.entries@, id@));
            lemma_push(self.entries@, Entry { id, session });
            assert(old(self)@.remove(id@).insert(id@, session) =~= old(self)@.insert(id@, session));
        }
        let mut entries: Vec<Entry<S>> = Vec::new();
        std::mem::swap(&mut self.entries, &mut entries);
        entries.push(Entry { id, session });
        self.entries = entries;
        displaced
    }
}

} // verus!
