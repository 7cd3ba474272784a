//! The store's laws: what a lookup finds after each transition, that
//! missing names change nothing, and what the status filter selects.
use vstd::prelude::*;
use crate::model::{
    EntryModel, ItemModel, complete_model, find_idx, fresh_item, has_name, insert_model,
    lemma_find_idx_hit, lemma_insert_model, lemma_update_same_name, start_model, wf_entries,
};
use crate::render::{matches_status, names_of, select_names};

verus! {

/// Blank backing content — empty, or whitespace only — loads as the
/// empty item set.
pub proof fn lemma_blank_loads_empty(s: Seq<char>)
    requires
        crate::codec::skip_ws(s).len() == 0,
    ensures
        crate::codec::load_model(s) == Some(Seq::<EntryModel>::empty()),
{
}

/// After an insert, the name is bound to a fresh record: status
/// `Todo`, enqueued at the given time, no other timestamps.
pub proof fn lemma_insert_then_lookup(s: Seq<EntryModel>, name: Seq<char>, now: Seq<char>)
    requires
        wf_entries(s),
    ensures
        has_name(insert_model(s, name, now), name),
        ({
            let s2 = insert_model(s, name, now);
            s2[find_idx(s2, name)].item == fresh_item(now)
        }),
{
    lemma_insert_model(s, name, now);
}

/// After an insert and then a start, the name is bound to a record
/// with status `Started`, `started_at` freshly set, and `enqueued_at`
/// still what the insert wrote.
pub proof fn lemma_insert_then_start(
    s: Seq<EntryModel>,
    name: Seq<char>,
    t1: Seq<char>,
    t2: Seq<char>,
)
    requires
        wf_entries(s),
    ensures
        ({
            let s3 = start_model(insert_model(s, name, t1), name, t2);
            &&& has_name(s3, name)
            &&& s3[find_idx(s3, name)].item == ItemModel {
                status: Some("Started"@),
                enqueued_at: Some(t1),
                started_at: Some(t2),
                finished_at: None,
            }
        }),
{
    lemma_insert_model(s, name, t1);
    let s2 = insert_model(s, name, t1);
    let i = find_idx(s2, name);
    lemma_find_idx_hit(s2, name);
    let e = EntryModel { name, item: crate::model::started_item(s2[i].item, t2) };
    lemma_update_same_name(s2, i, e);
}

/// After an insert and then a complete, the name is bound to a record
/// with status `Done` and `finished_at` freshly set.
pub proof fn lemma_insert_then_complete(
    s: Seq<EntryModel>,
    name: Seq<char>,
    t1: Seq<char>,
    t2: Seq<char>,
)
    requires
        wf_entries(s),
    ensures
        ({
            let s3 = complete_model(insert_model(s, name, t1), name, t2);
            &&& has_name(s3, name)
            &&& s3[find_idx(s3, name)].item == ItemModel {
                status: Some("Done"@),
                enqueued_at: Some(t1),
                started_at: None,
                finished_at: Some(t2),
            }
        }),
{
    lemma_insert_model(s, name, t1);
    let s2 = insert_model(s, name, t1);
    let i = find_idx(s2, name);
    lemma_find_idx_hit(s2, name);
    let e = EntryModel { name, item: crate::model::done_item(s2[i].item, t2) };
    lemma_update_same_name(s2, i, e);
}

/// Starting or completing a name that was never inserted leaves the
/// item set exactly as it was.
pub proof fn lemma_missing_name_changes_nothing(s: Seq<EntryModel>, name: Seq<char>, now: Seq<
    char>)
    requires
        !has_name(s, name),
    ensures
        start_model(s, name, now) == s,
        complete_model(s, name, now) == s,
{
}

/// The status filter selects exactly the names of the entries whose
/// status equals the filter, and the plain enumeration exactly the
/// names of all entries.
pub proof fn lemma_filter_is_exact(s: Seq<EntryModel>, st: Seq<char>, n: Seq<char>)
    ensures
        select_names(s, st).contains(n) <==> exists|i: int|
            0 <= i < s.len() && (#[trigger] s[i]).name == n && matches_status(s[i].item, st),
        names_of(s).contains(n) <==> exists|i: int| 0 <= i < s.len() && (#[trigger] s[i]).name
            == n,
    decreases s.len(),
{
    if s.len() == 0 {
    } else {
        let t = s.drop_first();
        lemma_filter_is_exact(t, st, n);
        let selt = select_names(t, st);
        let sel = select_names(s, st);
        let nt = names_of(t);
        let ns = names_of(s);
        assert(forall|j: int| 0 <= j < t.len() ==> #[trigger] t[j] == s[j + 1]);
        // the filtered selection
        if matches_status(s[0].item, st) {
            assert(sel == seq![s[0].name] + selt);
            assert(sel[0] == s[0].name);
            assert(forall|k: int| 0 <= k < selt.len() ==> sel[k + 1] == selt[k]);
            if sel.contains(n) {
                let k = choose|k: int| 0 <= k < sel.len() && sel[k] == n;
                if k == 0 {
                    assert(s[0].name == n && matches_status(s[0].item, st));
                } else {
                    assert(selt[k - 1] == n);
                    assert(selt.contains(n));
                    let i = choose|i: int|
                        0 <= i < t.len() && (#[trigger] t[i]).name == n && matches_status(
                            t[i].item,
                            st,
                        );
                    assert(s[i + 1].name == n && matches_status(s[i + 1].item, st));
                }
            }
            if exists|i: int|
                0 <= i < s.len() && (#[trigger] s[i]).name == n && matches_status(s[i].item, st) {
                let i = choose|i: int|
                    0 <= i < s.len() && (#[trigger] s[i]).name == n && matches_status(
                        s[i].item,
                        st,
                    );
                if i == 0 {
                    assert(sel[0] == n);
                } else {
                    assert(t[i - 1].name == n && matches_status(t[i - 1].item, st));
                    assert(selt.contains(n));
                    let k = choose|k: int| 0 <= k < selt.len() && selt[k] == n;
                    assert(sel[k + 1] == n);
                }
            }
        } else {
            assert(sel =~= selt);
            if sel.contains(n) {
                let i = choose|i: int|
                    0 <= i < t.len() && (#[trigger] t[i]).name == n && matches_status(
                        t[i].item,
                        st,
                    );
                assert(s[i + 1].name == n && matches_status(s[i + 1].item, st));
            }
            if exists|i: int|
                0 <= i < s.len() && (#[trigger] s[i]).name == n && matches_status(s[i].item, st) {
                let i = choose|i: int|
                    0 <= i < s.len() && (#[trigger] s[i]).name == n && matches_status(
                        s[i].item,
                        st,
                    );
                assert(i != 0);
                assert(t[i - 1].name == n && matches_status(t[i - 1].item, st));
            }
        }
        // the plain enumeration
        assert(ns == seq![s[0].name] + nt);
        assert(ns[0] == s[0].name);
        assert(forall|k: int| 0 <= k < nt.len() ==> ns[k + 1] == nt[k]);
        if ns.contains(n) {
            let k = choose|k: int| 0 <= k < ns.len() && ns[k] == n;
            if k == 0 {
                assert(s[0].name == n);
            } else {
                assert(nt[k - 1] == n);
                assert(nt.contains(n));
                let i = choose|i: int| 0 <= i < t.len() && (#[trigger] t[i]).name == n;
                assert(s[i + 1].name == n);
            }
        }
        if exists|i: int| 0 <= i < s.len() && (#[trigger] s[i]).name == n {
            let i = choose|i: int| 0 <= i < s.len() && (#[trigger] s[i]).name == n;
            if i == 0 {
                assert(ns[0] == n);
            } else {
                assert(t[i - 1].name == n);
                assert(nt.contains(n));
                let k = choose|k: int| 0 <= k < nt.len() && nt[k] == n;
                assert(ns[k + 1] == n);
            }
        }
    }
}

} // verus!

