//! Human-readable listings of the store, verified against spec-level
//! renderings.
use vstd::prelude::*;
use vstd::string::StringExecFns;
use crate::item::Item;
use crate::model::{EntryModel, ItemModel};
use crate::num::{append_dec, dec_str};
use crate::store::Store;

verus! {

/// One rendered field: tab, key, colon, value, newline.
pub open spec fn field_line(k: Seq<char>, v: Seq<char>) -> Seq<char> {
    "\t"@ + k + ": "@ + v + "\n"@
}

/// A field's rendering, or nothing when the field is absent.
pub open spec fn opt_field_line(k: Seq<char>, v: Option<Seq<char>>) -> Seq<char> {
    match v {
        Some(x) => field_line(k, x),
        None => Seq::<char>::empty(),
    }
}

/// All present fields of an item, one line each, in the fixed field order.
pub open spec fn item_lines(it: ItemModel) -> Seq<char> {
    opt_field_line("status"@, it.status) + opt_field_line("enqueued_at"@, it.enqueued_at)
        + opt_field_line("started_at"@, it.started_at) + opt_field_line(
        "finished_at"@,
        it.finished_at,
    )
}

/// How many fields the item has set.
pub open spec fn field_count(it: ItemModel) -> nat {
    (if it.status is Some {
        1nat
    } else {
        0nat
    }) + (if it.enqueued_at is Some {
        1nat
    } else {
        0nat
    }) + (if it.started_at is Some {
        1nat
    } else {
        0nat
    }) + (if it.finished_at is Some {
        1nat
    } else {
        0nat
    })
}

/// One entry in the plain listing: its name, then its fields.
pub open spec fn entry_block(e: EntryModel) -> Seq<char> {
    e.name + ":\n"@ + item_lines(e.item)
}

/// The plain listing of every entry, in store order.
pub open spec fn listing(s: Seq<EntryModel>) -> Seq<char>
    decreases s.len(),
{
    if s.len() == 0 {
        Seq::<char>::empty()
    } else {
        entry_block(s[0]) + listing(s.drop_first())
    }
}

/// Whether an item's status field is set and equals `st` exactly.
pub open spec fn matches_status(it: ItemModel, st: Seq<char>) -> bool {
    it.status == Some(st)
}

/// One entry in the filtered listing: name, fields, and its field count.
pub open spec fn filtered_entry_block(e: EntryModel) -> Seq<char> {
    e.name + ":\n"@ + item_lines(e.item) + "total: "@ + dec_str(field_count(e.item)) + "\n"@
}

/// The listing of exactly the entries whose status equals `st`.
pub open spec fn filtered_listing(s: Seq<EntryModel>, st: Seq<char>) -> Seq<char>
    decreases s.len(),
{
    if s.len() == 0 {
        Seq::<char>::empty()
    } else {
        (if matches_status(s[0].item, st) {
            filtered_entry_block(s[0])
        } else {
            Seq::<char>::empty()
        }) + filtered_listing(s.drop_first(), st)
    }
}

/// The names of all entries, in store order.
pub open spec fn names_of(s: Seq<EntryModel>) -> Seq<Seq<char>>
    decreases s.len(),
{
    if s.len() == 0 {
        Seq::<Seq<char>>::empty()
    } else {
        seq![s[0].name] + names_of(s.drop_first())
    }
}

/// The names of exactly the entries whose status equals `st`.
pub open spec fn select_names(s: Seq<EntryModel>, st: Seq<char>) -> Seq<Seq<char>>
    decreases s.len(),
{
    if s.len() == 0 {
        Seq::<Seq<char>>::empty()
    } else {
        (if matches_status(s[0].item, st) {
            seq![s[0].name]
        } else {
            Seq::<Seq<char>>::empty()
        }) + select_names(s.drop_first(), st)
    }
}

/// Append one field line: tab, key, colon, value, newline.
fn append_field_line(out: &mut String, key: &str, v: &String)
    ensures
        final(out)@ == old(out)@ + field_line(key@, v@),
{
    out.append("\t");
    out.append(key);
    out.append(": ");
    out.append(v.as_str());
    out.append("\n");
    proof {
        assert(final(out)@ =~= old(out)@ + field_line(key@, v@));
    }
}

/// Append every present field of `it`, one line each.
fn append_item_lines(out: &mut String, it: &Item)
    ensures
        final(out)@ == old(out)@ + item_lines(it@),
{
    let ghost c0 = out@;
    if let Some(v) = &it.status {
        append_field_line(out, "status", v);
    }
    let ghost c1 = out@;
    proof {
        assert(c1 =~= c0 + opt_field_line("status"@, it@.status));
    }
    if let Some(v) = &it.enqueued_at {
        append_field_line(out, "enqueued_at", v);
    }
    let ghost c2 = out@;
    proof {
        assert(c2 =~= c1 + opt_field_line("enqueued_at"@, it@.enqueued_at));
    }
    if let Some(v) = &it.started_at {
        append_field_line(out, "started_at", v);
    }
    let ghost c3 = out@;
    proof {
        assert(c3 =~= c2 + opt_field_line("started_at"@, it@.started_at));
    }
    if let Some(v) = &it.finished_at {
        append_field_line(out, "finished_at", v);
    }
    proof {
        assert(final(out)@ =~= c3 + opt_field_line("finished_at"@, it@.finished_at));
        assert(final(out)@ =~= c0 + item_lines(it@));
    }
}

/// How many fields `it` has set.
fn count_fields(it: &Item) -> (n: u64)
    ensures
        n == field_count(it@),
{
    let mut n: u64 = 0;
    if it.status.is_some() {
        n += 1;
    }
    if it.enqueued_at.is_some() {
        n += 1;
    }
    if it.started_at.is_some() {
        n += 1;
    }
    if it.finished_at.is_some() {
        n += 1;
    }
    n
}

impl Store {
    /// Render every item with its fields, as the listing spec says.
    /// The item count is reported by `len`.
    pub fn list(&self) -> (r: String)
        ensures
            r@ == listing(self@),
    {
        proof {
            assert(self@.skip(0) =~= self@);
        }
        self.list_from(0)
    }

    fn list_from(&self, i: usize) -> (r: String)
        requires
            i <= self@.len(),
        ensures
            r@ == listing(self@.skip(i as int)),
        decreases self@.len() - i,
    {
        if i == self.len() {
            proof {
                assert(self@.skip(i as int) =~= Seq::<EntryModel>::empty());
            }
            String::new()
        } else {
            let e = self.entry_at(i);
            let mut out = e.name.clone();
            out.append(":\n");
            append_item_lines(&mut out, &e.item);
            let rest = self.list_from(i + 1);
            let r = out.concat(rest.as_str());
            proof {
                let tail = self@.skip(i as int);
                assert(tail[0] == self@[i as int]);
                assert(tail.drop_first() =~= self@.skip(i as int + 1));
                assert(r@ =~= entry_block(tail[0]) + listing(tail.drop_first()));
            }
            r
        }
    }

    /// Render the items whose status equals `status`, each with its
    /// field count; the sentinel `"all"` renders the full listing.
    pub fn list_by_status(&self, status: &String) -> (r: String)
        ensures
            status@ == "all"@ ==> r@ == listing(self@),
            status@ != "all"@ ==> r@ == filtered_listing(self@, status@),
    {
        let all = String::from_str("all");
        proof {
            assert(self@.skip(0) =~= self@);
        }
        if *status == all {
            self.list()
        } else {
            self.list_by_status_from(status, 0)
        }
    }

    fn list_by_status_from(&self, status: &String, i: usize) -> (r: String)
        requires
            i <= self@.len(),
        ensures
            r@ == filtered_listing(self@.skip(i as int), status@),
        decreases self@.len() - i,
    {
        if i == self.len() {
            proof {
                assert(self@.skip(i as int) =~= Seq::<EntryModel>::empty());
            }
            String::new()
        } else {
            let e = self.entry_at(i);
            let mut out = String::new();
            let matched = match &e.item.status {
                Some(s) => *s == *status,
                None => false,
            };
            if matched {
                out.append(e.name.as_str());
                out.append(":\n");
                append_item_lines(&mut out, &e.item);
                out.append("total: ");
                append_dec(&mut out, count_fields(&e.item));
                out.append("\n");
            }
            let rest = self.list_by_status_from(status, i + 1);
            let r = out.concat(rest.as_str());
            proof {
                let tail = self@.skip(i as int);
                assert(tail[0] == self@[i as int]);
                assert(tail.drop_first() =~= self@.skip(i as int + 1));
                if matches_status(tail[0].item, status@) {
                    assert(out@ =~= filtered_entry_block(tail[0]));
                } else {
                    assert(out@ =~= Seq::<char>::empty());
                }
                assert(r@ =~= (if matches_status(tail[0].item, status@) {
                    filtered_entry_block(tail[0])
                } else {
                    Seq::<char>::empty()
                }) + filtered_listing(tail.drop_first(), status@));
            }
            r
        }
    }

    /// The names of the items whose status equals `status`; the
    /// sentinel `"all"` yields every name, in the same order as `list`.
    pub fn names_with_status(&self, status: &String) -> (r: Vec<String>)
        ensures
            status@ == "all"@ ==> r.deep_view() == names_of(self@),
            status@ != "all"@ ==> r.deep_view() == select_names(self@, status@),
    {
        let all = String::from_str("all");
        let select_all = *status == all;
        let mut r: Vec<String> = Vec::new();
        let mut i: usize = 0;
        proof {
            assert(r.deep_view() =~= names_of(self@.take(0)));
            assert(r.deep_view() =~= select_names(self@.take(0), status@));
        }
        while i < self.len()
            invariant
                i <= self@.len(),
                select_all == (status@ == "all"@),
                select_all ==> r.deep_view() == names_of(self@.take(i as int)),
                !select_all ==> r.deep_view() == select_names(self@.take(i as int), status@),
            decreases self@.len() - i,
        {
            let e = self.entry_at(i);
            let matched = if select_all {
                true
            } else {
                match &e.item.status {
                    Some(s) => *s == *status,
                    None => false,
                }
            };
            let ghost pre = r.deep_view();
            if matched {
                r.push(e.name.clone());
                proof {
                    assert(r.deep_view() =~= pre.push(e.name@));
                }
            }
            proof {
                lemma_names_take_step(self@, status@, i as int);
                assert(self@.take(i as int + 1).drop_last() =~= self@.take(i as int));
            }
            i += 1;
        }
        proof {
            assert(self@.take(i as int) =~= self@);
        }
        r
    }
}

/// Extending the prefix by one entry extends its name selections by
/// that entry's contribution.
proof fn lemma_names_take_step(s: Seq<EntryModel>, st: Seq<char>, i: int)
    requires
        0 <= i < s.len(),
    ensures
        names_of(s.take(i + 1)) == names_of(s.take(i)).push(s[i].name),
        select_names(s.take(i + 1), st) == (if matches_status(s[i].item, st) {
            select_names(s.take(i), st).push(s[i].name)
        } else {
            select_names(s.take(i), st)
        }),
{
    lemma_names_snoc(s.take(i + 1), st);
    assert(s.take(i + 1).drop_last() =~= s.take(i));
    assert(s.take(i + 1).last() == s[i]);
}

/// Peeling the last entry off a nonempty sequence.
proof fn lemma_names_snoc(s: Seq<EntryModel>, st: Seq<char>)
    requires
        s.len() > 0,
    ensures
        names_of(s) == names_of(s.drop_last()).push(s.last().name),
        select_names(s, st) == (if matches_status(s.last().item, st) {
            select_names(s.drop_last(), st).push(s.last().name)
        } else {
            select_names(s.drop_last(), st)
        }),
    decreases s.len(),
{
    if s.len() == 1 {
        assert(s.drop_last() =~= Seq::<EntryModel>::empty());
        assert(s.drop_first() =~= Seq::<EntryModel>::empty());
        assert(names_of(s.drop_first()) == Seq::<Seq<char>>::empty());
        assert(select_names(s.drop_first(), st) == Seq::<Seq<char>>::empty());
        assert(names_of(s.drop_last()) == Seq::<Seq<char>>::empty());
        assert(select_names(s.drop_last(), st) == Seq::<Seq<char>>::empty());
        assert(s.last() == s[0]);
        assert(names_of(s) =~= names_of(s.drop_last()).push(s.last().name));
        if matches_status(s.last().item, st) {
            assert(select_names(s, st) =~= select_names(s.drop_last(), st).push(s.last().name));
        } else {
            assert(select_names(s, st) =~= select_names(s.drop_last(), st));
        }
    } else {
        let t = s.drop_first();
        lemma_names_snoc(t, st);
        assert(t.drop_last() =~= s.drop_last().drop_first());
        assert(t.last() == s.last());
        assert(s.drop_last()[0] == s[0]);
        assert(s.drop_last().len() > 0);
        assert(names_of(s) == seq![s[0].name] + names_of(t));
        assert(names_of(s.drop_last()) == seq![s[0].name] + names_of(s.drop_last().drop_first()));
        assert(names_of(t) == names_of(s.drop_last().drop_first()).push(s.last().name));
        assert(names_of(s) =~= names_of(s.drop_last()).push(s.last().name));
        assert(select_names(s.drop_last(), st) == (if matches_status(s[0].item, st) {
            seq![s[0].name]
        } else {
            Seq::<Seq<char>>::empty()
        }) + select_names(s.drop_last().drop_first(), st));
        if matches_status(s.last().item, st) {
            assert(select_names(t, st) == select_names(s.drop_last().drop_first(), st).push(
                s.last().name,
            ));
            assert(select_names(s, st) =~= select_names(s.drop_last(), st).push(s.last().name));
        } else {
            assert(select_names(t, st) == select_names(s.drop_last().drop_first(), st));
            assert(select_names(s, st) =~= select_names(s.drop_last(), st));
        }
    }
}

} // verus!
