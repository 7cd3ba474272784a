//! Mathematical model of the store: items, entries, and the spec-level
//! operations that the executable code is proved against.
use vstd::prelude::*;

verus! {

/// Spec-level image of one item: each recognized field is either absent
/// or holds a string value.
pub struct ItemModel {
    pub status: Option<Seq<char>>,
    pub enqueued_at: Option<Seq<char>>,
    pub started_at: Option<Seq<char>>,
    pub finished_at: Option<Seq<char>>,
}

/// Spec-level image of one store entry: a name bound to an item.
pub struct EntryModel {
    pub name: Seq<char>,
    pub item: ItemModel,
}

/// The item with no fields set.
pub open spec fn empty_item() -> ItemModel {
    ItemModel { status: None, enqueued_at: None, started_at: None, finished_at: None }
}

/// The record that an insertion writes: status `Todo`, enqueued now.
pub open spec fn fresh_item(now: Seq<char>) -> ItemModel {
    ItemModel {
        status: Some("Todo"@),
        enqueued_at: Some(now),
        started_at: None,
        finished_at: None,
    }
}

/// The record after a start transition: status becomes `Started`, and
/// `started_at` is stamped only if it was never stamped before.
pub open spec fn started_item(it: ItemModel, now: Seq<char>) -> ItemModel {
    ItemModel {
        status: Some("Started"@),
        enqueued_at: it.enqueued_at,
        started_at: if it.started_at is Some { it.started_at } else { Some(now) },
        finished_at: it.finished_at,
    }
}

/// The record after a complete transition: status becomes `Done`, and
/// `finished_at` is stamped only if it was never stamped before.
pub open spec fn done_item(it: ItemModel, now: Seq<char>) -> ItemModel {
    ItemModel {
        status: Some("Done"@),
        enqueued_at: it.enqueued_at,
        started_at: it.started_at,
        finished_at: if it.finished_at is Some { it.finished_at } else { Some(now) },
    }
}

/// Index of the first entry named `name`, or -1 if there is none.
pub open spec fn find_idx(s: Seq<EntryModel>, name: Seq<char>) -> int
    decreases s.len(),
{
    if s.len() == 0 {
        -1
    } else if s[0].name == name {
        0
    } else {
        let r = find_idx(s.drop_first(), name);
        if r < 0 {
            -1
        } else {
            r + 1
        }
    }
}

/// Whether some entry is named `name`.
pub open spec fn has_name(s: Seq<EntryModel>, name: Seq<char>) -> bool {
    find_idx(s, name) >= 0
}

/// Entry names are pairwise distinct.
pub open spec fn wf_entries(s: Seq<EntryModel>) -> bool {
    forall|i: int, j: int| 0 <= i < j < s.len() ==> s[i].name != s[j].name
}

/// The item set after inserting `name` at time `now`: the fresh record
/// replaces an entry of that name, or is appended when none exists.
pub open spec fn insert_model(s: Seq<EntryModel>, name: Seq<char>, now: Seq<char>) -> Seq<
    EntryModel,
> {
    let e = EntryModel { name, item: fresh_item(now) };
    let i = find_idx(s, name);
    if i >= 0 {
        s.update(i, e)
    } else {
        s.push(e)
    }
}

/// The item set after starting `name` at time `now`; unchanged when no
/// entry has that name.
pub open spec fn start_model(s: Seq<EntryModel>, name: Seq<char>, now: Seq<char>) -> Seq<
    EntryModel,
> {
    let i = find_idx(s, name);
    if i >= 0 {
        s.update(i, EntryModel { name, item: started_item(s[i].item, now) })
    } else {
        s
    }
}

/// The item set after completing `name` at time `now`; unchanged when
/// no entry has that name.
pub open spec fn complete_model(s: Seq<EntryModel>, name: Seq<char>, now: Seq<char>) -> Seq<
    EntryModel,
> {
    let i = find_idx(s, name);
    if i >= 0 {
        s.update(i, EntryModel { name, item: done_item(s[i].item, now) })
    } else {
        s
    }
}

/// `find_idx` lands on a matching entry whenever it is nonnegative.
pub proof fn lemma_find_idx_hit(s: Seq<EntryModel>, name: Seq<char>)
    ensures
        find_idx(s, name) >= 0 ==> 0 <= find_idx(s, name) < s.len() && s[find_idx(s, name)].name
            == name,
        find_idx(s, name) < 0 ==> forall|i: int| 0 <= i < s.len() ==> s[i].name != name,
    decreases s.len(),
{
    if s.len() > 0 && s[0].name != name {
        lemma_find_idx_hit(s.drop_first(), name);
        assert forall|i: int| 0 <= i < s.len() && find_idx(s, name) < 0 implies s[i].name
            != name by {
            if i > 0 {
                assert(s.drop_first()[i - 1] == s[i]);
            }
        }
    }
}

/// `find_idx` returns the first match: position `i` with nothing matching
/// before it.
pub proof fn lemma_find_idx_first(s: Seq<EntryModel>, name: Seq<char>, i: int)
    requires
        0 <= i < s.len(),
        s[i].name == name,
        forall|j: int| 0 <= j < i ==> s[j].name != name,
    ensures
        find_idx(s, name) == i,
    decreases s.len(),
{
    if i > 0 {
        assert(s[0].name != name);
        assert(s.drop_first()[i - 1] == s[i]);
        assert forall|j: int| 0 <= j < i - 1 implies s.drop_first()[j].name != name by {
            assert(s.drop_first()[j] == s[j + 1]);
        }
        lemma_find_idx_first(s.drop_first(), name, i - 1);
    }
}

/// When no entry matches, `find_idx` is -1.
pub proof fn lemma_find_idx_miss(s: Seq<EntryModel>, name: Seq<char>)
    requires
        forall|i: int| 0 <= i < s.len() ==> s[i].name != name,
    ensures
        find_idx(s, name) == -1,
    decreases s.len(),
{
    if s.len() > 0 {
        assert forall|i: int| 0 <= i < s.drop_first().len() implies s.drop_first()[i].name
            != name by {
            assert(s.drop_first()[i] == s[i + 1]);
        }
        lemma_find_idx_miss(s.drop_first(), name);
    }
}

/// Nothing before position `find_idx` matches.
pub proof fn lemma_find_idx_before(s: Seq<EntryModel>, name: Seq<char>)
    ensures
        forall|j: int| 0 <= j < find_idx(s, name) ==> s[j].name != name,
    decreases s.len(),
{
    lemma_find_idx_hit(s, name);
    if s.len() > 0 && s[0].name != name {
        lemma_find_idx_before(s.drop_first(), name);
        assert forall|j: int| 0 <= j < find_idx(s, name) implies s[j].name != name by {
            if j > 0 {
                assert(s.drop_first()[j - 1] == s[j]);
            }
        }
    }
}

/// Replacing an entry under its own name keeps names distinct and
/// keeps `find_idx` where it was.
pub proof fn lemma_update_same_name(s: Seq<EntryModel>, i: int, e: EntryModel)
    requires
        wf_entries(s),
        0 <= i < s.len(),
        e.name == s[i].name,
    ensures
        wf_entries(s.update(i, e)),
        find_idx(s.update(i, e), e.name) == i,
{
    let s2 = s.update(i, e);
    assert forall|a: int, b: int| 0 <= a < b < s2.len() implies s2[a].name != s2[b].name by {
        assert(s[a].name == if a == i {
            s[i].name
        } else {
            s2[a].name
        });
        assert(s[b].name == if b == i {
            s[i].name
        } else {
            s2[b].name
        });
    }
    lemma_find_idx_hit(s, e.name);
    lemma_find_idx_before(s, e.name);
    if find_idx(s, e.name) < i {
        assert(s[find_idx(s, e.name)].name == e.name);
        assert(false);
    }
    assert forall|j: int| 0 <= j < i implies s2[j].name != e.name by {
        assert(s2[j].name == s[j].name);
    }
    lemma_find_idx_first(s2, e.name, i);
}

/// Inserting keeps names distinct, and the fresh record is what a
/// lookup then finds.
pub proof fn lemma_insert_model(s: Seq<EntryModel>, name: Seq<char>, now: Seq<char>)
    requires
        wf_entries(s),
    ensures
        wf_entries(insert_model(s, name, now)),
        has_name(insert_model(s, name, now), name),
        ({
            let s2 = insert_model(s, name, now);
            s2[find_idx(s2, name)].item == fresh_item(now)
        }),
    {
    let e = EntryModel { name, item: fresh_item(now) };
    let i = find_idx(s, name);
    lemma_find_idx_hit(s, name);
    if i >= 0 {
        lemma_update_same_name(s, i, e);
    } else {
        let s2 = s.push(e);
        assert forall|a: int, b: int| 0 <= a < b < s2.len() implies s2[a].name != s2[b].name by {
            if b < s.len() {
                assert(s2[a] == s[a] && s2[b] == s[b]);
            } else {
                assert(s2[a] == s[a] && s2[b] == e);
            }
        }
        assert forall|j: int| 0 <= j < s.len() implies s2[j].name != name by {
            assert(s2[j] == s[j]);
        }
        lemma_find_idx_first(s2, name, s.len() as int);
    }
}

} // verus!
