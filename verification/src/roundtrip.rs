//! Parsing a rendered item set gives the item set back: the law that
//! ties the renderer and the parser of `codec` together.
use vstd::prelude::*;
use crate::codec::{
    escaped, escaped_char, fields_of, is_ws, load_model, opt_field, parse_fields, parse_item,
    parse_members, parse_store, parse_str_body, parse_string, quoted, render_field, render_fields,
    render_item, render_member, render_members, render_store, set_field, skip_ws,
};
use crate::model::{EntryModel, ItemModel, empty_item, has_name, wf_entries};

verus! {

/// Every character is whitespace.
spec fn all_ws(w: Seq<char>) -> bool {
    forall|i: int| 0 <= i < w.len() ==> is_ws(w[i])
}

/// Leading whitespace is dropped in front of anything.
proof fn lemma_skip_ws_concat(w: Seq<char>, t: Seq<char>)
    requires
        all_ws(w),
    ensures
        skip_ws(w + t) == skip_ws(t),
    decreases w.len(),
{
    if w.len() == 0 {
        assert(w + t =~= t);
    } else {
        assert((w + t)[0] == w[0]);
        assert((w + t).drop_first() =~= w.drop_first() + t);
        assert(all_ws(w.drop_first()));
        lemma_skip_ws_concat(w.drop_first(), t);
    }
}

/// Nothing is dropped in front of a non-whitespace character.
proof fn lemma_skip_ws_stop(s: Seq<char>)
    requires
        s.len() > 0,
        !is_ws(s[0]),
    ensures
        skip_ws(s) == s,
{
}

/// Reading an escaped string body gives the string back and stops
/// right after the closing quote.
proof fn lemma_parse_escaped(x: Seq<char>, rest: Seq<char>)
    ensures
        parse_str_body(escaped(x) + seq!['"'] + rest) == Some((x, rest)),
    decreases x.len(),
{
    let s = escaped(x) + seq!['"'] + rest;
    if x.len() == 0 {
        assert(s =~= seq!['"'] + rest);
        assert(s[0] == '"');
        assert(s.drop_first() =~= rest);
    } else {
        let c = x[0];
        let x2 = x.drop_first();
        assert(escaped(x) == escaped_char(c) + escaped(x2));
        lemma_parse_escaped(x2, rest);
        if c == '"' || c == '\\' {
            assert(s =~= seq!['\\', c] + (escaped(x2) + seq!['"'] + rest));
            assert(s[0] == '\\');
            assert(s[1] == c);
            assert(s.len() >= 2);
            assert(s.skip(2) =~= escaped(x2) + seq!['"'] + rest);
            assert(seq![s[1]] + x2 =~= x);
        } else {
            assert(s =~= seq![c] + (escaped(x2) + seq!['"'] + rest));
            assert(s[0] == c);
            assert(s.drop_first() =~= escaped(x2) + seq!['"'] + rest);
            assert(seq![s[0]] + x2 =~= x);
        }
    }
}

/// Reading a quoted string after any whitespace gives the string back.
proof fn lemma_parse_quoted(w: Seq<char>, x: Seq<char>, rest: Seq<char>)
    requires
        all_ws(w),
    ensures
        parse_string(w + quoted(x) + rest) == Some((x, rest)),
{
    let q = quoted(x) + rest;
    assert(w + quoted(x) + rest =~= w + q);
    lemma_skip_ws_concat(w, q);
    assert(q =~= seq!['"'] + (escaped(x) + seq!['"'] + rest));
    assert(q[0] == '"');
    lemma_skip_ws_stop(q);
    assert(q.drop_first() =~= escaped(x) + seq!['"'] + rest);
    lemma_parse_escaped(x, rest);
}

/// A key that the item format recognizes.
spec fn valid_key(k: Seq<char>) -> bool {
    k == "status"@ || k == "enqueued_at"@ || k == "started_at"@ || k == "finished_at"@
}

/// `set_field` when the key is known to be recognized.
spec fn set_field_v(acc: ItemModel, k: Seq<char>, v: Seq<char>) -> ItemModel {
    match set_field(acc, k, v) {
        Some(x) => x,
        None => acc,
    }
}

/// Fold a list of parsed fields onto an item.
spec fn apply_fields(acc: ItemModel, fs: Seq<(Seq<char>, Seq<char>)>) -> ItemModel
    decreases fs.len(),
{
    if fs.len() == 0 {
        acc
    } else {
        apply_fields(set_field_v(acc, fs[0].0, fs[0].1), fs.drop_first())
    }
}

/// The four recognized keys are pairwise distinct strings.
proof fn lemma_keys_distinct()
    ensures
        "status"@ != "enqueued_at"@,
        "status"@ != "started_at"@,
        "status"@ != "finished_at"@,
        "enqueued_at"@ != "started_at"@,
        "enqueued_at"@ != "finished_at"@,
        "started_at"@ != "finished_at"@,
{
    reveal_strlit("status");
    reveal_strlit("enqueued_at");
    reveal_strlit("started_at");
    reveal_strlit("finished_at");
    assert("status"@.len() == 6);
    assert("enqueued_at"@.len() == 11);
    assert("started_at"@.len() == 10);
    assert("finished_at"@.len() == 11);
    assert("enqueued_at"@[0] == 'e');
    assert("finished_at"@[0] == 'f');
}

/// Folding the fields an item renders rebuilds the item.
proof fn lemma_apply_fields_of(it: ItemModel)
    ensures
        apply_fields(empty_item(), fields_of(it)) == it,
        forall|i: int| 0 <= i < fields_of(it).len() ==> valid_key(#[trigger] fields_of(it)[i].0),
{
    lemma_keys_distinct();
    let f1 = opt_field("status"@, it.status);
    let f2 = opt_field("enqueued_at"@, it.enqueued_at);
    let f3 = opt_field("started_at"@, it.started_at);
    let f4 = opt_field("finished_at"@, it.finished_at);
    lemma_apply_fields_concat(empty_item(), f1, f2 + f3 + f4);
    let a1 = apply_fields(empty_item(), f1);
    lemma_apply_fields_concat(a1, f2, f3 + f4);
    let a2 = apply_fields(a1, f2);
    lemma_apply_fields_concat(a2, f3, f4);
    let a3 = apply_fields(a2, f3);
    let a4 = apply_fields(a3, f4);
    assert(fields_of(it) =~= f1 + (f2 + f3 + f4));
    assert(f2 + f3 + f4 =~= f2 + (f3 + f4));
    lemma_apply_single(empty_item(), f1);
    lemma_apply_single(a1, f2);
    lemma_apply_single(a2, f3);
    lemma_apply_single(a3, f4);
    assert(a4 == it);
    assert forall|i: int| 0 <= i < fields_of(it).len() implies valid_key(
        #[trigger] fields_of(it)[i].0,
    ) by {
        assert(fields_of(it)[i] == (f1 + f2 + f3 + f4)[i]);
    }
}

/// Folding one optional field sets exactly that field.
proof fn lemma_apply_single(acc: ItemModel, f: Seq<(Seq<char>, Seq<char>)>)
    requires
        f.len() <= 1,
    ensures
        f.len() == 0 ==> apply_fields(acc, f) == acc,
        f.len() == 1 ==> apply_fields(acc, f) == set_field_v(acc, f[0].0, f[0].1),
{
    if f.len() == 1 {
        assert(f.drop_first() =~= Seq::<(Seq<char>, Seq<char>)>::empty());
        assert(apply_fields(set_field_v(acc, f[0].0, f[0].1), f.drop_first()) == set_field_v(
            acc,
            f[0].0,
            f[0].1,
        ));
    }
}

/// Folding distributes over concatenation of field lists.
proof fn lemma_apply_fields_concat(acc: ItemModel, a: Seq<(Seq<char>, Seq<char>)>, b: Seq<
    (Seq<char>, Seq<char>)>)
    ensures
        apply_fields(acc, a + b) == apply_fields(apply_fields(acc, a), b),
    decreases a.len(),
{
    if a.len() == 0 {
        assert(a + b =~= b);
    } else {
        assert((a + b)[0] == a[0]);
        assert((a + b).drop_first() =~= a.drop_first() + b);
        lemma_apply_fields_concat(set_field_v(acc, a[0].0, a[0].1), a.drop_first(), b);
    }
}

/// Reading rendered fields after any whitespace, up to the item's
/// closing brace, folds exactly those fields onto the item.
proof fn lemma_parse_render_fields(
    w: Seq<char>,
    fs: Seq<(Seq<char>, Seq<char>)>,
    acc: ItemModel,
    rest: Seq<char>,
)
    requires
        all_ws(w),
        fs.len() > 0,
        forall|i: int| 0 <= i < fs.len() ==> valid_key(#[trigger] fs[i].0),
    ensures
        parse_fields(w + render_fields(fs) + seq!['\n', ' ', ' ', '}'] + rest, acc) == Some(
            (apply_fields(acc, fs), rest),
        ),
    decreases fs.len(),
{
    let k = fs[0].0;
    let v = fs[0].1;
    let close = seq!['\n', ' ', ' ', '}'];
    let s = w + render_fields(fs) + close + rest;
    let t = if fs.len() == 1 {
        Seq::<char>::empty()
    } else {
        seq![',', '\n'] + render_fields(fs.drop_first())
    };
    assert(render_fields(fs) == render_field(fs[0]) + t || fs.len() == 1);
    if fs.len() == 1 {
        assert(render_fields(fs) =~= render_field(fs[0]) + t);
    }
    let ind = seq![' ', ' ', ' ', ' '];
    assert(render_field(fs[0]) == ind + quoted(k) + seq![':', ' '] + quoted(v));
    // the key
    let after_k = seq![':', ' '] + quoted(v) + t + close + rest;
    assert(s =~= (w + ind) + quoted(k) + after_k);
    assert(all_ws(w + ind));
    lemma_parse_quoted(w + ind, k, after_k);
    assert(parse_string(s) == Some((k, after_k)));
    // the colon
    lemma_skip_ws_stop(after_k);
    assert(after_k[0] == ':');
    let after_colon = after_k.drop_first();
    assert(after_colon =~= seq![' '] + quoted(v) + (t + close + rest));
    // the value
    assert(all_ws(seq![' ']));
    lemma_parse_quoted(seq![' '], v, t + close + rest);
    assert(parse_string(after_colon) == Some((v, t + close + rest)));
    // the field lands on the item
    assert(valid_key(k));
    let acc2 = set_field_v(acc, k, v);
    assert(set_field(acc, k, v) == Some(acc2));
    if fs.len() == 1 {
        let tail = t + close + rest;
        assert(tail =~= seq!['\n', ' ', ' '] + (seq!['}'] + rest));
        assert(all_ws(seq!['\n', ' ', ' ']));
        lemma_skip_ws_concat(seq!['\n', ' ', ' '], seq!['}'] + rest);
        lemma_skip_ws_stop(seq!['}'] + rest);
        let r2 = skip_ws(tail);
        assert(r2 == seq!['}'] + rest);
        assert(r2[0] == '}');
        assert(r2.drop_first() =~= rest);
        assert(apply_fields(acc, fs) == apply_fields(acc2, fs.drop_first()));
        assert(fs.drop_first().len() == 0);
    } else {
        let tail = t + close + rest;
        assert(tail =~= seq![','] + (seq!['\n'] + render_fields(fs.drop_first()) + close + rest));
        let r2 = skip_ws(tail);
        lemma_skip_ws_stop(tail);
        assert(r2 == tail);
        assert(tail[0] == ',');
        assert(tail.drop_first() =~= seq!['\n'] + render_fields(fs.drop_first()) + close + rest);
        assert(all_ws(seq!['\n']));
        assert forall|i: int| 0 <= i < fs.drop_first().len() implies valid_key(
            #[trigger] fs.drop_first()[i].0,
        ) by {
            assert(fs.drop_first()[i] == fs[i + 1]);
        }
        lemma_parse_render_fields(seq!['\n'], fs.drop_first(), acc2, rest);
        assert(apply_fields(acc, fs) == apply_fields(acc2, fs.drop_first()));
    }
}

/// Reading a rendered item after any whitespace gives the item back.
proof fn lemma_parse_render_item(w: Seq<char>, it: ItemModel, rest: Seq<char>)
    requires
        all_ws(w),
    ensures
        parse_item(w + render_item(it) + rest) == Some((it, rest)),
{
    let s = w + render_item(it) + rest;
    lemma_apply_fields_of(it);
    if fields_of(it).len() == 0 {
        assert(it.status is None && it.enqueued_at is None && it.started_at is None
            && it.finished_at is None);
        assert(it == empty_item());
        assert(s =~= w + (seq!['{'] + (seq!['}'] + rest)));
        lemma_skip_ws_concat(w, seq!['{'] + (seq!['}'] + rest));
        lemma_skip_ws_stop(seq!['{'] + (seq!['}'] + rest));
        let t = skip_ws(s);
        assert(t == seq!['{'] + (seq!['}'] + rest));
        assert(t[0] == '{');
        assert(t.drop_first() =~= seq!['}'] + rest);
        lemma_skip_ws_stop(seq!['}'] + rest);
        let u = skip_ws(t.drop_first());
        assert(u[0] == '}');
        assert(u.drop_first() =~= rest);
    } else {
        let fs = fields_of(it);
        let close = seq!['\n', ' ', ' ', '}'];
        assert(render_item(it) == seq!['{', '\n'] + render_fields(fs) + close);
        let body = seq!['\n'] + render_fields(fs) + close + rest;
        assert(s =~= w + (seq!['{'] + body));
        lemma_skip_ws_concat(w, seq!['{'] + body);
        lemma_skip_ws_stop(seq!['{'] + body);
        let t = skip_ws(s);
        assert(t == seq!['{'] + body);
        assert(t[0] == '{');
        assert(t.drop_first() =~= body);
        // the first thing after the brace is a quote, not a closing brace
        let fstt = if fs.len() == 1 {
            Seq::<char>::empty()
        } else {
            seq![',', '\n'] + render_fields(fs.drop_first())
        };
        if fs.len() == 1 {
            assert(render_fields(fs) =~= render_field(fs[0]) + fstt);
        }
        let ind = seq![' ', ' ', ' ', ' '];
        let after_k = seq![':', ' '] + quoted(fs[0].1) + fstt + close + rest;
        assert(body =~= (seq!['\n'] + ind) + (quoted(fs[0].0) + after_k));
        assert(all_ws(seq!['\n'] + ind));
        lemma_skip_ws_concat(seq!['\n'] + ind, quoted(fs[0].0) + after_k);
        let q = quoted(fs[0].0) + after_k;
        assert(q =~= seq!['"'] + (escaped(fs[0].0) + seq!['"'] + after_k));
        assert(q[0] == '"');
        lemma_skip_ws_stop(q);
        let u = skip_ws(body);
        assert(u == q);
        assert(u.len() > 0 && u[0] != '}');
        lemma_parse_render_fields(seq!['\n'], fs, empty_item(), rest);
        assert(parse_fields(body, empty_item()) == Some((it, rest)));
    }
}

/// Reading rendered members after any whitespace, up to the file's
/// closing brace, appends exactly those entries.
proof fn lemma_parse_render_members(
    w: Seq<char>,
    s: Seq<EntryModel>,
    acc: Seq<EntryModel>,
    rest: Seq<char>,
)
    requires
        all_ws(w),
        s.len() > 0,
        wf_entries(acc + s),
    ensures
        parse_members(w + render_members(s) + seq!['\n', '}'] + rest, acc) == Some(
            (acc + s, rest),
        ),
    decreases s.len(),
{
    let e = s[0];
    let close = seq!['\n', '}'];
    let inp = w + render_members(s) + close + rest;
    let t = if s.len() == 1 {
        Seq::<char>::empty()
    } else {
        seq![',', '\n'] + render_members(s.drop_first())
    };
    if s.len() == 1 {
        assert(render_members(s) =~= render_member(e) + t);
    }
    assert(render_member(e) == seq![' ', ' '] + quoted(e.name) + seq![':', ' '] + render_item(
        e.item,
    ));
    // the name
    let after_k = seq![':', ' '] + render_item(e.item) + t + close + rest;
    assert(inp =~= (w + seq![' ', ' ']) + quoted(e.name) + after_k);
    assert(all_ws(w + seq![' ', ' ']));
    lemma_parse_quoted(w + seq![' ', ' '], e.name, after_k);
    assert(parse_string(inp) == Some((e.name, after_k)));
    // the colon
    lemma_skip_ws_stop(after_k);
    assert(after_k[0] == ':');
    let after_colon = after_k.drop_first();
    assert(after_colon =~= seq![' '] + render_item(e.item) + (t + close + rest));
    // the item
    assert(all_ws(seq![' ']));
    lemma_parse_render_item(seq![' '], e.item, t + close + rest);
    assert(parse_item(after_colon) == Some((e.item, t + close + rest)));
    // the name is new
    assert(forall|i: int| 0 <= i < acc.len() ==> (acc + s)[i] == acc[i]);
    assert((acc + s)[acc.len() as int] == e);
    assert forall|i: int| 0 <= i < acc.len() implies acc[i].name != e.name by {
        assert((acc + s)[i].name != (acc + s)[acc.len() as int].name);
    }
    crate::model::lemma_find_idx_miss(acc, e.name);
    assert(!has_name(acc, e.name));
    let acc2 = acc.push(EntryModel { name: e.name, item: e.item });
    assert(EntryModel { name: e.name, item: e.item } == e);
    if s.len() == 1 {
        let tail = t + close + rest;
        assert(tail =~= seq!['\n'] + (seq!['}'] + rest));
        assert(all_ws(seq!['\n']));
        lemma_skip_ws_concat(seq!['\n'], seq!['}'] + rest);
        lemma_skip_ws_stop(seq!['}'] + rest);
        let r2 = skip_ws(tail);
        assert(r2 == seq!['}'] + rest);
        assert(r2[0] == '}');
        assert(r2.drop_first() =~= rest);
        assert(acc2 =~= acc + s);
    } else {
        let tail = t + close + rest;
        assert(tail =~= seq![','] + (seq!['\n'] + render_members(s.drop_first()) + close + rest));
        lemma_skip_ws_stop(tail);
        let r2 = skip_ws(tail);
        assert(r2 == tail);
        assert(tail[0] == ',');
        assert(tail.drop_first() =~= seq!['\n'] + render_members(s.drop_first()) + close + rest);
        assert(all_ws(seq!['\n']));
        assert(acc2 + s.drop_first() =~= acc + s);
        lemma_parse_render_members(seq!['\n'], s.drop_first(), acc2, rest);
    }
}

/// Saving and loading round-trips: parsing the rendering of any
/// well-formed item set yields exactly that item set, field for field.
pub proof fn lemma_save_load_round_trip(s: Seq<EntryModel>)
    requires
        wf_entries(s),
    ensures
        load_model(render_store(s)) == Some(s),
{
    let inp = render_store(s);
    if s.len() == 0 {
        assert(inp == seq!['{', '}']);
        assert(inp[0] == '{');
        lemma_skip_ws_stop(inp);
        assert(inp.drop_first() =~= seq!['}']);
        lemma_skip_ws_stop(seq!['}']);
        let u = skip_ws(inp.drop_first());
        assert(u[0] == '}');
        assert(u.drop_first() =~= Seq::<char>::empty());
        assert(parse_store(inp) == Some(Seq::<EntryModel>::empty()));
        assert(Some(Seq::<EntryModel>::empty()) == Some(s));
    } else {
        let close = seq!['\n', '}'];
        assert(inp == seq!['{', '\n'] + render_members(s) + close);
        let body = seq!['\n'] + render_members(s) + close + Seq::<char>::empty();
        assert(inp =~= seq!['{'] + body);
        lemma_skip_ws_stop(inp);
        assert(inp[0] == '{');
        assert(skip_ws(inp).len() > 0);
        assert(inp.drop_first() =~= body);
        // the first thing after the brace is a quote, not a closing brace
        let e = s[0];
        let t = if s.len() == 1 {
            Seq::<char>::empty()
        } else {
            seq![',', '\n'] + render_members(s.drop_first())
        };
        if s.len() == 1 {
            assert(render_members(s) =~= render_member(e) + t);
        }
        let after_k = seq![':', ' '] + render_item(e.item) + t + close + Seq::<char>::empty();
        assert(body =~= (seq!['\n', ' ', ' ']) + (quoted(e.name) + after_k));
        assert(all_ws(seq!['\n', ' ', ' ']));
        lemma_skip_ws_concat(seq!['\n', ' ', ' '], quoted(e.name) + after_k);
        let q = quoted(e.name) + after_k;
        assert(q =~= seq!['"'] + (escaped(e.name) + seq!['"'] + after_k));
        assert(q[0] == '"');
        lemma_skip_ws_stop(q);
        let u = skip_ws(body);
        assert(u == q);
        assert(u.len() > 0 && u[0] != '}');
        // the members
        assert(Seq::<EntryModel>::empty() + s =~= s);
        lemma_parse_render_members(seq!['\n'], s, Seq::<EntryModel>::empty(), Seq::<char>::empty());
        assert(parse_members(body, Seq::<EntryModel>::empty()) == Some((s, Seq::<char>::empty())));
        assert(skip_ws(Seq::<char>::empty()).len() == 0);
        assert(parse_store(inp) == Some(s));
    }
}

} // verus!
