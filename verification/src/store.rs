//! The store: a list of uniquely-named entries with the status
//! transitions, proved against the model in `model`.
use vstd::prelude::*;
use vstd::string::StringExecFns;
use crate::item::Item;
use crate::model::{
    EntryModel, complete_model, done_item, find_idx, fresh_item, has_name, insert_model,
    lemma_find_idx_first, lemma_find_idx_hit, lemma_find_idx_miss, start_model, started_item,
    wf_entries,
};

verus! {

/// One named entry of the store.
pub struct Entry {
    pub name: String,
    pub item: Item,
}

impl View for Entry {
    type V = EntryModel;

    open spec fn view(&self) -> EntryModel {
        EntryModel { name: self.name@, item: self.item@ }
    }
}

/// The in-memory item set: entries with pairwise distinct names.
pub struct Store {
    entries: Vec<Entry>,
}

impl View for Store {
    type V = Seq<EntryModel>;

    closed spec fn view(&self) -> Seq<EntryModel> {
        self.entries@.map_values(|e: Entry| e@)
    }
}

impl Store {
    /// Names are unique: the store binds each name to at most one item.
    pub open spec fn wf(&self) -> bool {
        wf_entries(self@)
    }

    /// The store with no items.
    pub fn new() -> (r: Store)
        ensures
            r.wf(),
            r@ == Seq::<EntryModel>::empty(),
    {
        let r = Store { entries: Vec::new() };
        proof {
            assert(r@ =~= Seq::<EntryModel>::empty());
        }
        r
    }

    /// How many items the store holds.
    pub fn len(&self) -> (n: usize)
        ensures
            n == self@.len(),
    {
        self.entries.len()
    }

    /// The entry at position `i`, for enumeration.
    pub fn entry_at(&self, i: usize) -> (e: &Entry)
        requires
            i < self@.len(),
        ensures
            e@ == self@[i as int],
    {
        &self.entries[i]
    }

    /// Position of the entry named `name`, if any.
    fn find(&self, name: &String) -> (r: Option<usize>)
        ensures
            match r {
                Some(i) => i < self@.len() && find_idx(self@, name@) == i,
                None => find_idx(self@, name@) == -1,
            },
    {
        let mut i: usize = 0;
        while i < self.entries.len()
            invariant
                i <= self@.len(),
                self@.len() == self.entries@.len(),
                forall|j: int| 0 <= j < i ==> self@[j].name != name@,
            decreases self@.len() - i,
        {
            if self.entries[i].name == *name {
                proof {
                    lemma_find_idx_first(self@, name@, i as int);
                }
                return Some(i);
            }
            i += 1;
        }
        proof {
            lemma_find_idx_miss(self@, name@);
        }
        None
    }

    /// Look the item named `name` up.
    pub fn get(&self, name: &String) -> (r: Option<&Item>)
        ensures
            match r {
                Some(it) => find_idx(self@, name@) >= 0 && it@ == self@[find_idx(
                    self@,
                    name@,
                )].item,
                None => !has_name(self@, name@),
            },
    {
        match self.find(name) {
            Some(i) => Some(&self.entries[i].item),
            None => None,
        }
    }

    /// Create or overwrite the entry for `name` with a fresh record:
    /// status `Todo`, enqueued at `now`, no other timestamps. A prior
    /// record under the same name is discarded.
    pub fn insert_at(&mut self, name: String, now: String)
        requires
            old(self).wf(),
        ensures
            final(self).wf(),
            ({
                let e = EntryModel { name: name@, item: fresh_item(now@) };
                let i = find_idx(old(self)@, name@);
                if i >= 0 {
                    final(self)@ == old(self)@.update(i, e)
                } else {
                    final(self)@ == old(self)@.push(e)
                }
            }),
    {
        let item = Item {
            status: Some(String::from_str("Todo")),
            enqueued_at: Some(now),
            started_at: None,
            finished_at: None,
        };
        let entry = Entry { name, item };
        let ghost em = entry@;
        let ghost pre = self@;
        match self.find(&entry.name) {
            Some(i) => {
                self.entries.set(i, entry);
                proof {
                    assert(self@ =~= pre.update(i as int, em));
                    lemma_find_idx_hit(pre, em.name);
                    assert forall|a: int, b: int| 0 <= a < b < self@.len() implies self@[a].name
                        != self@[b].name by {
                        assert(pre[a].name == if a == i { pre[i as int].name } else { self@[a].name });
                        assert(pre[b].name == if b == i { pre[i as int].name } else { self@[b].name });
                    }
                }
            },
            None => {
                self.entries.push(entry);
                proof {
                    assert(self@ =~= pre.push(em));
                    lemma_find_idx_hit(pre, em.name);
                    assert forall|a: int, b: int| 0 <= a < b < self@.len() implies self@[a].name
                        != self@[b].name by {
                        if b < pre.len() {
                            assert(self@[a] == pre[a] && self@[b] == pre[b]);
                        } else {
                            assert(self@[a] == pre[a] && self@[b] == em);
                        }
                    }
                }
            },
        }
    }

    /// Transition the item named `name` to `Started`, stamping
    /// `started_at` at `now` if it was never stamped. Returns `None`,
    /// changing nothing, when no such item exists.
    pub fn start_at(&mut self, name: &String, now: String) -> (r: Option<()>)
        requires
            old(self).wf(),
        ensures
            final(self).wf(),
            ({
                let i = find_idx(old(self)@, name@);
                if i >= 0 {
                    r is Some && final(self)@ == old(self)@.update(
                        i,
                        EntryModel { name: name@, item: started_item(old(self)@[i].item, now@) },
                    )
                } else {
                    r is None && final(self)@ == old(self)@
                }
            }),
    {
        let ghost pre = self@;
        match self.find(name) {
            Some(i) => {
                proof {
                    lemma_find_idx_hit(pre, name@);
                }
                let old_entry = &self.entries[i];
                let started = match &old_entry.item.started_at {
                    Some(t) => Some(t.clone()),
                    None => Some(now),
                };
                let item = Item {
                    status: Some(String::from_str("Started")),
                    enqueued_at: clone_opt(&old_entry.item.enqueued_at),
                    started_at: started,
                    finished_at: clone_opt(&old_entry.item.finished_at),
                };
                let entry = Entry { name: self.entries[i].name.clone(), item };
                let ghost em = entry@;
                self.entries.set(i, entry);
                proof {
                    assert(self@ =~= pre.update(i as int, em));
                    assert(em.item == started_item(pre[i as int].item, now@));
                    assert forall|a: int, b: int| 0 <= a < b < self@.len() implies self@[a].name
                        != self@[b].name by {
                        assert(pre[a].name == if a == i { pre[i as int].name } else { self@[a].name });
                        assert(pre[b].name == if b == i { pre[i as int].name } else { self@[b].name });
                    }
                }
                Some(())
            },
            None => None,
        }
    }

    /// Transition the item named `name` to `Done`, stamping
    /// `finished_at` at `now` if it was never stamped. Returns `None`,
    /// changing nothing, when no such item exists.
    pub fn complete_at(&mut self, name: &String, now: String) -> (r: Option<()>)
        requires
            old(self).wf(),
        ensures
            final(self).wf(),
            ({
                let i = find_idx(old(self)@, name@);
                if i >= 0 {
                    r is Some && final(self)@ == old(self)@.update(
                        i,
                        EntryModel { name: name@, item: done_item(old(self)@[i].item, now@) },
                    )
                } else {
                    r is None && final(self)@ == old(self)@
                }
            }),
    {
        let ghost pre = self@;
        match self.find(name) {
            Some(i) => {
                proof {
                    lemma_find_idx_hit(pre, name@);
                }
                let old_entry = &self.entries[i];
                let finished = match &old_entry.item.finished_at {
                    Some(t) => Some(t.clone()),
                    None => Some(now),
                };
                let item = Item {
                    status: Some(String::from_str("Done")),
                    enqueued_at: clone_opt(&old_entry.item.enqueued_at),
                    started_at: clone_opt(&old_entry.item.started_at),
                    finished_at: finished,
                };
                let entry = Entry { name: self.entries[i].name.clone(), item };
                let ghost em = entry@;
                self.entries.set(i, entry);
                proof {
                    assert(self@ =~= pre.update(i as int, em));
                    assert(em.item == done_item(pre[i as int].item, now@));
                    assert forall|a: int, b: int| 0 <= a < b < self@.len() implies self@[a].name
                        != self@[b].name by {
                        assert(pre[a].name == if a == i { pre[i as int].name } else { self@[a].name });
                        assert(pre[b].name == if b == i { pre[i as int].name } else { self@[b].name });
                    }
                }
                Some(())
            },
            None => None,
        }
    }
}

/// Why loading failed: the backing content was not blank yet was not a
/// well-formed file.
#[derive(Clone, Copy, Debug, PartialEq, Eq)]
pub enum ParseError {
    Malformed,
}

impl Store {
    /// Read an item set from the backing file's content. Blank content
    /// is the empty store; anything else must be a well-formed file, or
    /// loading fails.
    pub fn from_json(s: &str) -> (r: Result<Store, ParseError>)
        ensures
            match r {
                Ok(st) => st.wf() && crate::codec::load_model(s@) == Some(st@),
                Err(_) => crate::codec::load_model(s@) is None,
            },
    {
        match crate::codec::parse_entries(s) {
            Some(v) => {
                let st = Store { entries: v };
                proof {
                    assert(st@ =~= crate::codec::entries_view(st.entries@));
                    crate::codec::lemma_load_wf(s@);
                }
                Ok(st)
            },
            None => Err(ParseError::Malformed),
        }
    }

    /// Render the whole item set as the backing file's text.
    pub fn to_json(&self) -> (r: String)
        ensures
            r@ == crate::codec::render_store(self@),
    {
        let r = crate::codec::render_entries(&self.entries);
        proof {
            assert(crate::codec::entries_view(self.entries@) =~= self@);
        }
        r
    }
}

impl Store {
    /// Create or overwrite the entry for `name` with a fresh record
    /// stamped at the current time.
    pub fn insert(&mut self, name: String)
        requires
            old(self).wf(),
        ensures
            final(self).wf(),
            exists|ts: Seq<char>|
                ts.len() > 0 && final(self)@ == #[trigger] insert_model(old(self)@, name@, ts),
    {
        let ts = crate::clock::now_timestamp();
        let ghost tsv = ts@;
        self.insert_at(name, ts);
        proof {
            assert(final(self)@ == insert_model(old(self)@, name@, tsv));
        }
    }

    /// Transition the item named `name` to `Started` at the current
    /// time. Returns `None`, changing nothing, when no such item exists.
    pub fn start(&mut self, name: &String) -> (r: Option<()>)
        requires
            old(self).wf(),
        ensures
            final(self).wf(),
            r is Some <==> has_name(old(self)@, name@),
            !has_name(old(self)@, name@) ==> final(self)@ == old(self)@,
            exists|ts: Seq<char>|
                ts.len() > 0 && final(self)@ == #[trigger] start_model(old(self)@, name@, ts),
    {
        let ts = crate::clock::now_timestamp();
        let ghost tsv = ts@;
        let r = self.start_at(name, ts);
        proof {
            assert(final(self)@ == start_model(old(self)@, name@, tsv));
        }
        r
    }

    /// Transition the item named `name` to `Done` at the current time.
    /// Returns `None`, changing nothing, when no such item exists.
    pub fn complete(&mut self, name: &String) -> (r: Option<()>)
        requires
            old(self).wf(),
        ensures
            final(self).wf(),
            r is Some <==> has_name(old(self)@, name@),
            !has_name(old(self)@, name@) ==> final(self)@ == old(self)@,
            exists|ts: Seq<char>|
                ts.len() > 0 && final(self)@ == #[trigger] complete_model(old(self)@, name@, ts),
    {
        let ts = crate::clock::now_timestamp();
        let ghost tsv = ts@;
        let r = self.complete_at(name, ts);
        proof {
            assert(final(self)@ == complete_model(old(self)@, name@, tsv));
        }
        r
    }
}

/// Clone an optional string, keeping its value.
fn clone_opt(o: &Option<String>) -> (r: Option<String>)
    ensures
        match o {
            Some(s) => r is Some && r->0@ == s@,
            None => r is None,
        },
{
    match o {
        Some(s) => Some(s.clone()),
        None => None,
    }
}

} // verus!
