//! The backing-file format: a JSON object of objects of strings. The
//! renderer and the parser are specified here over character sequences;
//! `roundtrip` proves that parsing a rendering gives the item set back.
use vstd::prelude::*;
use crate::item::Item;
use crate::model::{EntryModel, ItemModel, empty_item, has_name};
use crate::store::Entry;
use crate::strutil::push_char;
use vstd::string::{StrSliceExecFns, StringExecFns};

verus! {

// ---------------------------------------------------------------- rendering
/// A string character as it stands in the file: quotes and backslashes
/// are escaped, every other character stands for itself.
pub open spec fn escaped_char(c: char) -> Seq<char> {
    if c == '"' || c == '\\' {
        seq!['\\', c]
    } else {
        seq![c]
    }
}

/// A whole string escaped.
pub open spec fn escaped(s: Seq<char>) -> Seq<char>
    decreases s.len(),
{
    if s.len() == 0 {
        Seq::<char>::empty()
    } else {
        escaped_char(s[0]) + escaped(s.drop_first())
    }
}

/// A string as a JSON string literal.
pub open spec fn quoted(s: Seq<char>) -> Seq<char> {
    seq!['"'] + escaped(s) + seq!['"']
}

/// The present fields of an item as key-value pairs, in the fixed
/// field order.
pub open spec fn opt_field(k: Seq<char>, v: Option<Seq<char>>) -> Seq<(Seq<char>, Seq<char>)> {
    match v {
        Some(x) => seq![(k, x)],
        None => Seq::<(Seq<char>, Seq<char>)>::empty(),
    }
}

/// All present fields of an item.
pub open spec fn fields_of(it: ItemModel) -> Seq<(Seq<char>, Seq<char>)> {
    opt_field("status"@, it.status) + opt_field("enqueued_at"@, it.enqueued_at) + opt_field(
        "started_at"@,
        it.started_at,
    ) + opt_field("finished_at"@, it.finished_at)
}

/// One rendered field, indented inside its item.
pub open spec fn render_field(f: (Seq<char>, Seq<char>)) -> Seq<char> {
    seq![' ', ' ', ' ', ' '] + quoted(f.0) + seq![':', ' '] + quoted(f.1)
}

/// The fields of an item joined by comma-newline.
pub open spec fn render_fields(fs: Seq<(Seq<char>, Seq<char>)>) -> Seq<char>
    decreases fs.len(),
{
    if fs.len() == 0 {
        Seq::<char>::empty()
    } else if fs.len() == 1 {
        render_field(fs[0])
    } else {
        render_field(fs[0]) + seq![',', '\n'] + render_fields(fs.drop_first())
    }
}

/// One item as a JSON object.
pub open spec fn render_item(it: ItemModel) -> Seq<char> {
    if fields_of(it).len() == 0 {
        seq!['{', '}']
    } else {
        seq!['{', '\n'] + render_fields(fields_of(it)) + seq!['\n', ' ', ' ', '}']
    }
}

/// One store entry as a JSON object member.
pub open spec fn render_member(e: EntryModel) -> Seq<char> {
    seq![' ', ' '] + quoted(e.name) + seq![':', ' '] + render_item(e.item)
}

/// The entries joined by comma-newline.
pub open spec fn render_members(s: Seq<EntryModel>) -> Seq<char>
    decreases s.len(),
{
    if s.len() == 0 {
        Seq::<char>::empty()
    } else if s.len() == 1 {
        render_member(s[0])
    } else {
        render_member(s[0]) + seq![',', '\n'] + render_members(s.drop_first())
    }
}

/// The whole item set as a pretty-printed JSON object.
pub open spec fn render_store(s: Seq<EntryModel>) -> Seq<char> {
    if s.len() == 0 {
        seq!['{', '}']
    } else {
        seq!['{', '\n'] + render_members(s) + seq!['\n', '}']
    }
}

// ------------------------------------------------------------------ parsing
/// JSON whitespace.
pub open spec fn is_ws(c: char) -> bool {
    c == ' ' || c == '\n' || c == '\t' || c == '\r'
}

/// Drop leading whitespace.
pub open spec fn skip_ws(s: Seq<char>) -> Seq<char>
    decreases s.len(),
{
    if s.len() > 0 && is_ws(s[0]) {
        skip_ws(s.drop_first())
    } else {
        s
    }
}

/// The inside of a string literal, after the opening quote: the value
/// read and the input after the closing quote.
pub open spec fn parse_str_body(s: Seq<char>) -> Option<(Seq<char>, Seq<char>)>
    decreases s.len(),
{
    if s.len() == 0 {
        None
    } else if s[0] == '"' {
        Some((Seq::<char>::empty(), s.drop_first()))
    } else if s[0] == '\\' {
        if s.len() >= 2 && (s[1] == '"' || s[1] == '\\') {
            match parse_str_body(s.skip(2)) {
                Some(p) => Some((seq![s[1]] + p.0, p.1)),
                None => None,
            }
        } else {
            None
        }
    } else {
        match parse_str_body(s.drop_first()) {
            Some(p) => Some((seq![s[0]] + p.0, p.1)),
            None => None,
        }
    }
}

/// A string literal, with leading whitespace allowed.
pub open spec fn parse_string(s: Seq<char>) -> Option<(Seq<char>, Seq<char>)> {
    let t = skip_ws(s);
    if t.len() > 0 && t[0] == '"' {
        parse_str_body(t.drop_first())
    } else {
        None
    }
}

/// Record a parsed field on the item; a key that is not one of the
/// four recognized fields makes the file malformed.
pub open spec fn set_field(acc: ItemModel, k: Seq<char>, v: Seq<char>) -> Option<ItemModel> {
    if k == "status"@ {
        Some(
            ItemModel {
                status: Some(v),
                enqueued_at: acc.enqueued_at,
                started_at: acc.started_at,
                finished_at: acc.finished_at,
            },
        )
    } else if k == "enqueued_at"@ {
        Some(
            ItemModel {
                status: acc.status,
                enqueued_at: Some(v),
                started_at: acc.started_at,
                finished_at: acc.finished_at,
            },
        )
    } else if k == "started_at"@ {
        Some(
            ItemModel {
                status: acc.status,
                enqueued_at: acc.enqueued_at,
                started_at: Some(v),
                finished_at: acc.finished_at,
            },
        )
    } else if k == "finished_at"@ {
        Some(
            ItemModel {
                status: acc.status,
                enqueued_at: acc.enqueued_at,
                started_at: acc.started_at,
                finished_at: Some(v),
            },
        )
    } else {
        None
    }
}

/// Whitespace shortens nothing.
pub proof fn lemma_skip_ws_len(s: Seq<char>)
    ensures
        skip_ws(s).len() <= s.len(),
    decreases s.len(),
{
    if s.len() > 0 && is_ws(s[0]) {
        lemma_skip_ws_len(s.drop_first());
    }
}

/// A parsed string body consumes at least its closing quote.
pub proof fn lemma_parse_str_body_len(s: Seq<char>)
    ensures
        parse_str_body(s) matches Some(p) ==> p.1.len() < s.len(),
    decreases s.len(),
{
    if s.len() > 0 && s[0] != '"' {
        if s[0] == '\\' {
            if s.len() >= 2 && (s[1] == '"' || s[1] == '\\') {
                lemma_parse_str_body_len(s.skip(2));
            }
        } else {
            lemma_parse_str_body_len(s.drop_first());
        }
    }
}

/// A parsed string consumes at least its two quotes.
pub proof fn lemma_parse_string_len(s: Seq<char>)
    ensures
        parse_string(s) matches Some(p) ==> p.1.len() < s.len(),
{
    lemma_skip_ws_len(s);
    let t = skip_ws(s);
    if t.len() > 0 && t[0] == '"' {
        lemma_parse_str_body_len(t.drop_first());
    }
}

/// The fields of an item object, after its opening brace and first
/// key's opening whitespace: the item read and the input after the
/// closing brace.
pub open spec fn parse_fields(s: Seq<char>, acc: ItemModel) -> Option<(ItemModel, Seq<char>)>
    decreases s.len(),
    via parse_fields_dec
{
    match parse_string(s) {
        None => None,
        Some(p) => {
            let r1 = skip_ws(p.1);
            if r1.len() > 0 && r1[0] == ':' {
                match parse_string(r1.drop_first()) {
                    None => None,
                    Some(q) => match set_field(acc, p.0, q.0) {
                        None => None,
                        Some(acc2) => {
                            let r2 = skip_ws(q.1);
                            if r2.len() > 0 && r2[0] == ',' {
                                parse_fields(r2.drop_first(), acc2)
                            } else if r2.len() > 0 && r2[0] == '}' {
                                Some((acc2, r2.drop_first()))
                            } else {
                                None
                            }
                        },
                    },
                }
            } else {
                None
            }
        },
    }
}

#[via_fn]
proof fn parse_fields_dec(s: Seq<char>, acc: ItemModel) {
    lemma_parse_string_len(s);
    if let Some(p) = parse_string(s) {
        lemma_skip_ws_len(p.1);
        let r1 = skip_ws(p.1);
        if r1.len() > 0 && r1[0] == ':' {
            lemma_parse_string_len(r1.drop_first());
            if let Some(q) = parse_string(r1.drop_first()) {
                lemma_skip_ws_len(q.1);
            }
        }
    }
}

/// An item object, with leading whitespace allowed.
pub open spec fn parse_item(s: Seq<char>) -> Option<(ItemModel, Seq<char>)> {
    let t = skip_ws(s);
    if t.len() > 0 && t[0] == '{' {
        let u = skip_ws(t.drop_first());
        if u.len() > 0 && u[0] == '}' {
            Some((empty_item(), u.drop_first()))
        } else {
            parse_fields(t.drop_first(), empty_item())
        }
    } else {
        None
    }
}

/// Parsed fields consume at least the closing brace.
pub proof fn lemma_parse_fields_len(s: Seq<char>, acc: ItemModel)
    ensures
        parse_fields(s, acc) matches Some(p) ==> p.1.len() < s.len(),
    decreases s.len(),
{
    lemma_parse_string_len(s);
    if let Some(p) = parse_string(s) {
        lemma_skip_ws_len(p.1);
        let r1 = skip_ws(p.1);
        if r1.len() > 0 && r1[0] == ':' {
            lemma_parse_string_len(r1.drop_first());
            if let Some(q) = parse_string(r1.drop_first()) {
                if let Some(acc2) = set_field(acc, p.0, q.0) {
                    lemma_skip_ws_len(q.1);
                    let r2 = skip_ws(q.1);
                    if r2.len() > 0 && r2[0] == ',' {
                        lemma_parse_fields_len(r2.drop_first(), acc2);
                    }
                }
            }
        }
    }
}

/// A parsed item consumes at least its braces.
pub proof fn lemma_parse_item_len(s: Seq<char>)
    ensures
        parse_item(s) matches Some(p) ==> p.1.len() < s.len(),
{
    lemma_skip_ws_len(s);
    let t = skip_ws(s);
    if t.len() > 0 && t[0] == '{' {
        lemma_skip_ws_len(t.drop_first());
        lemma_parse_fields_len(t.drop_first(), empty_item());
    }
}

/// The members of the top object, after its opening brace: the entries
/// read, in file order, and the input after the closing brace. A name
/// that repeats makes the file malformed.
pub open spec fn parse_members(s: Seq<char>, acc: Seq<EntryModel>) -> Option<
    (Seq<EntryModel>, Seq<char>),
>
    decreases s.len(),
    via parse_members_dec
{
    match parse_string(s) {
        None => None,
        Some(p) => {
            let r1 = skip_ws(p.1);
            if r1.len() > 0 && r1[0] == ':' {
                match parse_item(r1.drop_first()) {
                    None => None,
                    Some(q) => {
                        if has_name(acc, p.0) {
                            None
                        } else {
                            let acc2 = acc.push(EntryModel { name: p.0, item: q.0 });
                            let r2 = skip_ws(q.1);
                            if r2.len() > 0 && r2[0] == ',' {
                                parse_members(r2.drop_first(), acc2)
                            } else if r2.len() > 0 && r2[0] == '}' {
                                Some((acc2, r2.drop_first()))
                            } else {
                                None
                            }
                        }
                    },
                }
            } else {
                None
            }
        },
    }
}

#[via_fn]
proof fn parse_members_dec(s: Seq<char>, acc: Seq<EntryModel>) {
    lemma_parse_string_len(s);
    if let Some(p) = parse_string(s) {
        lemma_skip_ws_len(p.1);
        let r1 = skip_ws(p.1);
        if r1.len() > 0 && r1[0] == ':' {
            lemma_parse_item_len(r1.drop_first());
            if let Some(q) = parse_item(r1.drop_first()) {
                lemma_skip_ws_len(q.1);
            }
        }
    }
}

/// The whole file as an item set: one object of objects of strings,
/// with nothing but whitespace after it.
pub open spec fn parse_store(s: Seq<char>) -> Option<Seq<EntryModel>> {
    let t = skip_ws(s);
    if t.len() > 0 && t[0] == '{' {
        let u = skip_ws(t.drop_first());
        if u.len() > 0 && u[0] == '}' {
            if skip_ws(u.drop_first()).len() == 0 {
                Some(Seq::<EntryModel>::empty())
            } else {
                None
            }
        } else {
            match parse_members(t.drop_first(), Seq::<EntryModel>::empty()) {
                None => None,
                Some(p) => {
                    if skip_ws(p.1).len() == 0 {
                        Some(p.0)
                    } else {
                        None
                    }
                },
            }
        }
    } else {
        None
    }
}

/// What loading means: blank content is the empty item set, anything
/// else must be a well-formed file.
pub open spec fn load_model(s: Seq<char>) -> Option<Seq<EntryModel>> {
    if skip_ws(s).len() == 0 {
        Some(Seq::<EntryModel>::empty())
    } else {
        parse_store(s)
    }
}

// -------------------------------------------------------- exec: rendering
/// The model of a list of entries.
pub open spec fn entries_view(v: Seq<Entry>) -> Seq<EntryModel> {
    v.map_values(|e: Entry| e@)
}

/// Append `s` with quotes and backslashes escaped, from position `i` on.
fn append_escaped_from(out: &mut String, s: &str, i: usize)
    requires
        i <= s@.len(),
    ensures
        final(out)@ == old(out)@ + escaped(s@.skip(i as int)),
    decreases s@.len() - i,
{
    let n = s.unicode_len();
    if i == n {
        proof {
            assert(s@.skip(i as int) =~= Seq::<char>::empty());
            assert(old(out)@ + escaped(s@.skip(i as int)) =~= old(out)@);
        }
    } else {
        let c = s.get_char(i);
        if c == '"' || c == '\\' {
            push_char(out, '\\');
        }
        push_char(out, c);
        let ghost mid = out@;
        proof {
            assert(mid =~= old(out)@ + escaped_char(c));
        }
        append_escaped_from(out, s, i + 1);
        proof {
            let tail = s@.skip(i as int);
            assert(tail[0] == c);
            assert(tail.drop_first() =~= s@.skip(i as int + 1));
            assert(final(out)@ =~= old(out)@ + escaped(tail));
        }
    }
}

/// Append `s` as a JSON string literal.
fn append_quoted(out: &mut String, s: &str)
    ensures
        final(out)@ == old(out)@ + quoted(s@),
{
    push_char(out, '"');
    append_escaped_from(out, s, 0);
    push_char(out, '"');
    proof {
        assert(s@.skip(0) =~= s@);
        assert(final(out)@ =~= old(out)@ + quoted(s@));
    }
}

/// The present fields of an item as owned key-value pairs.
fn fields_vec(it: &Item) -> (r: Vec<(String, String)>)
    ensures
        r@.map_values(|p: (String, String)| (p.0@, p.1@)) == fields_of(it@),
{
    let mut r: Vec<(String, String)> = Vec::new();
    if let Some(v) = &it.status {
        r.push((String::from_str("status"), v.clone()));
    }
    if let Some(v) = &it.enqueued_at {
        r.push((String::from_str("enqueued_at"), v.clone()));
    }
    if let Some(v) = &it.started_at {
        r.push((String::from_str("started_at"), v.clone()));
    }
    if let Some(v) = &it.finished_at {
        r.push((String::from_str("finished_at"), v.clone()));
    }
    proof {
        assert(r@.map_values(|p: (String, String)| (p.0@, p.1@)) =~= fields_of(it@));
    }
    r
}

/// Append the rendered fields from position `i` on, comma-separated.
fn append_fields_from(out: &mut String, fs: &Vec<(String, String)>, i: usize)
    requires
        i < fs@.len(),
    ensures
        final(out)@ == old(out)@ + render_fields(
            fs@.map_values(|p: (String, String)| (p.0@, p.1@)).skip(i as int),
        ),
    decreases fs@.len() - i,
{
    let ghost m = fs@.map_values(|p: (String, String)| (p.0@, p.1@));
    out.append("    ");
    append_quoted(out, fs[i].0.as_str());
    out.append(": ");
    append_quoted(out, fs[i].1.as_str());
    let ghost mid = out@;
    proof {
        reveal_strlit("    ");
        reveal_strlit(": ");
        assert("    "@ =~= seq![' ', ' ', ' ', ' ']);
        assert(": "@ =~= seq![':', ' ']);
        assert(m.skip(i as int)[0] == m[i as int]);
        assert(mid =~= old(out)@ + render_field(m[i as int]));
    }
    if i < fs.len() - 1 {
        out.append(",\n");
        append_fields_from(out, fs, i + 1);
        proof {
            reveal_strlit(",\n");
            assert(",\n"@ =~= seq![',', '\n']);
            assert(m.skip(i as int).drop_first() =~= m.skip(i as int + 1));
            assert(m.skip(i as int).len() > 1);
            assert(final(out)@ =~= old(out)@ + render_fields(m.skip(i as int)));
        }
    } else {
        proof {
            assert(m.skip(i as int).len() == 1);
            assert(final(out)@ =~= old(out)@ + render_fields(m.skip(i as int)));
        }
    }
}

/// Append one item as a JSON object.
fn append_item(out: &mut String, it: &Item)
    ensures
        final(out)@ == old(out)@ + render_item(it@),
{
    let fs = fields_vec(it);
    if fs.len() == 0 {
        out.append("{}");
        proof {
            reveal_strlit("{}");
            assert("{}"@ =~= seq!['{', '}']);
            assert(final(out)@ =~= old(out)@ + render_item(it@));
        }
    } else {
        out.append("{\n");
        append_fields_from(out, &fs, 0);
        out.append("\n  }");
        proof {
            reveal_strlit("{\n");
            reveal_strlit("\n  }");
            assert("{\n"@ =~= seq!['{', '\n']);
            assert("\n  }"@ =~= seq!['\n', ' ', ' ', '}']);
            let m = fs@.map_values(|p: (String, String)| (p.0@, p.1@));
            assert(m.skip(0) =~= m);
            assert(final(out)@ =~= old(out)@ + render_item(it@));
        }
    }
}

/// Append the entries from position `i` on, comma-separated.
fn append_members_from(out: &mut String, v: &Vec<Entry>, i: usize)
    requires
        i < v@.len(),
    ensures
        final(out)@ == old(out)@ + render_members(entries_view(v@).skip(i as int)),
    decreases v@.len() - i,
{
    let ghost m = entries_view(v@);
    out.append("  ");
    append_quoted(out, v[i].name.as_str());
    out.append(": ");
    append_item(out, &v[i].item);
    let ghost mid = out@;
    proof {
        reveal_strlit("  ");
        reveal_strlit(": ");
        assert("  "@ =~= seq![' ', ' ']);
        assert(": "@ =~= seq![':', ' ']);
        assert(m.skip(i as int)[0] == m[i as int]);
        assert(mid =~= old(out)@ + render_member(m[i as int]));
    }
    if i < v.len() - 1 {
        out.append(",\n");
        append_members_from(out, v, i + 1);
        proof {
            reveal_strlit(",\n");
            assert(",\n"@ =~= seq![',', '\n']);
            assert(m.skip(i as int).drop_first() =~= m.skip(i as int + 1));
            assert(m.skip(i as int).len() > 1);
            assert(final(out)@ =~= old(out)@ + render_members(m.skip(i as int)));
        }
    } else {
        proof {
            assert(m.skip(i as int).len() == 1);
            assert(final(out)@ =~= old(out)@ + render_members(m.skip(i as int)));
        }
    }
}

/// Render a whole entry list as the backing file's text.
pub fn render_entries(v: &Vec<Entry>) -> (r: String)
    ensures
        r@ == render_store(entries_view(v@)),
{
    let mut out = String::new();
    if v.len() == 0 {
        out.append("{}");
        proof {
            reveal_strlit("{}");
            assert("{}"@ =~= seq!['{', '}']);
            assert(out@ =~= render_store(entries_view(v@)));
        }
    } else {
        out.append("{\n");
        append_members_from(&mut out, v, 0);
        out.append("\n}");
        proof {
            reveal_strlit("{\n");
            reveal_strlit("\n}");
            assert("{\n"@ =~= seq!['{', '\n']);
            assert("\n}"@ =~= seq!['\n', '}']);
            let m = entries_view(v@);
            assert(m.skip(0) =~= m);
            assert(out@ =~= render_store(m));
        }
    }
    out
}

// ---------------------------------------------------------- exec: parsing
/// First position at or after `i` whose character is not whitespace.
fn skip_ws_exec(s: &str, i: usize) -> (r: usize)
    requires
        i <= s@.len(),
    ensures
        i <= r <= s@.len(),
        skip_ws(s@.skip(i as int)) == s@.skip(r as int),
    decreases s@.len() - i,
{
    let n = s.unicode_len();
    if i < n {
        let c = s.get_char(i);
        if c == ' ' || c == '\n' || c == '\t' || c == '\r' {
            let r = skip_ws_exec(s, i + 1);
            proof {
                assert(s@.skip(i as int)[0] == c);
                assert(s@.skip(i as int).drop_first() =~= s@.skip(i as int + 1));
            }
            return r;
        }
    }
    proof {
        if i < s@.len() {
            assert(!is_ws(s@.skip(i as int)[0]));
        }
    }
    i
}

/// Read a string literal's body starting at `i`, just after the
/// opening quote; `j` is the position after the closing quote.
fn parse_str_body_exec(s: &str, i: usize) -> (r: Option<(String, usize)>)
    requires
        i <= s@.len(),
    ensures
        match r {
            Some(p) => p.1 <= s@.len() && parse_str_body(s@.skip(i as int)) == Some(
                (p.0@, s@.skip(p.1 as int)),
            ),
            None => parse_str_body(s@.skip(i as int)) is None,
        },
    decreases s@.len() - i,
{
    let n = s.unicode_len();
    let ghost tail = s@.skip(i as int);
    if i == n {
        proof {
            assert(tail.len() == 0);
        }
        None
    } else {
        let c = s.get_char(i);
        proof {
            assert(tail[0] == c);
            assert(tail.drop_first() =~= s@.skip(i as int + 1));
        }
        if c == '"' {
            Some((String::new(), i + 1))
        } else if c == '\\' {
            if i + 1 == n {
                proof {
                    assert(tail.len() < 2);
                }
                None
            } else {
                let d = s.get_char(i + 1);
                proof {
                    assert(tail[1] == d);
                }
                if d == '"' || d == '\\' {
                    match parse_str_body_exec(s, i + 2) {
                        Some((t, j)) => {
                            let mut v = String::new();
                            push_char(&mut v, d);
                            v.append(t.as_str());
                            proof {
                                assert(tail.skip(2) =~= s@.skip(i as int + 2));
                                assert(v@ =~= seq![d] + t@);
                            }
                            Some((v, j))
                        },
                        None => {
                            proof {
                                assert(tail.skip(2) =~= s@.skip(i as int + 2));
                            }
                            None
                        },
                    }
                } else {
                    None
                }
            }
        } else {
            match parse_str_body_exec(s, i + 1) {
                Some((t, j)) => {
                    let mut v = String::new();
                    push_char(&mut v, c);
                    v.append(t.as_str());
                    proof {
                        assert(v@ =~= seq![c] + t@);
                    }
                    Some((v, j))
                },
                None => None,
            }
        }
    }
}

/// Read a string literal starting at `i`, leading whitespace allowed.
fn parse_string_exec(s: &str, i: usize) -> (r: Option<(String, usize)>)
    requires
        i <= s@.len(),
    ensures
        match r {
            Some(p) => p.1 <= s@.len() && parse_string(s@.skip(i as int)) == Some(
                (p.0@, s@.skip(p.1 as int)),
            ),
            None => parse_string(s@.skip(i as int)) is None,
        },
{
    let j = skip_ws_exec(s, i);
    let n = s.unicode_len();
    if j < n {
        let c = s.get_char(j);
        proof {
            assert(s@.skip(j as int)[0] == c);
            assert(s@.skip(j as int).drop_first() =~= s@.skip(j as int + 1));
        }
        if c == '"' {
            parse_str_body_exec(s, j + 1)
        } else {
            None
        }
    } else {
        proof {
            assert(s@.skip(j as int).len() == 0);
        }
        None
    }
}

/// Record a parsed field on the item being read.
fn set_field_exec(acc: Item, k: &String, v: String) -> (r: Option<Item>)
    ensures
        match r {
            Some(it) => set_field(acc@, k@, v@) == Some(it@),
            None => set_field(acc@, k@, v@) is None,
        },
{
    if *k == String::from_str("status") {
        Some(
            Item {
                status: Some(v),
                enqueued_at: acc.enqueued_at,
                started_at: acc.started_at,
                finished_at: acc.finished_at,
            },
        )
    } else if *k == String::from_str("enqueued_at") {
        Some(
            Item {
                status: acc.status,
                enqueued_at: Some(v),
                started_at: acc.started_at,
                finished_at: acc.finished_at,
            },
        )
    } else if *k == String::from_str("started_at") {
        Some(
            Item {
                status: acc.status,
                enqueued_at: acc.enqueued_at,
                started_at: Some(v),
                finished_at: acc.finished_at,
            },
        )
    } else if *k == String::from_str("finished_at") {
        Some(
            Item {
                status: acc.status,
                enqueued_at: acc.enqueued_at,
                started_at: acc.started_at,
                finished_at: Some(v),
            },
        )
    } else {
        None
    }
}

/// Read an item object's fields starting at `i`, just after the
/// opening brace.
fn parse_fields_exec(s: &str, i: usize, acc: Item) -> (r: Option<(Item, usize)>)
    requires
        i <= s@.len(),
    ensures
        match r {
            Some(p) => p.1 <= s@.len() && parse_fields(s@.skip(i as int), acc@) == Some(
                (p.0@, s@.skip(p.1 as int)),
            ),
            None => parse_fields(s@.skip(i as int), acc@) is None,
        },
    decreases s@.len() - i,
{
    let ghost tail = s@.skip(i as int);
    match parse_string_exec(s, i) {
        None => None,
        Some((k, j1)) => {
            let j2 = skip_ws_exec(s, j1);
            let n = s.unicode_len();
            if j2 < n && s.get_char(j2) == ':' {
                proof {
                    assert(s@.skip(j2 as int)[0] == ':');
                    assert(s@.skip(j2 as int).drop_first() =~= s@.skip(j2 as int + 1));
                }
                match parse_string_exec(s, j2 + 1) {
                    None => None,
                    Some((v, j3)) => {
                        match set_field_exec(acc, &k, v) {
                            None => None,
                            Some(acc2) => {
                                let j4 = skip_ws_exec(s, j3);
                                if j4 < n && s.get_char(j4) == ',' {
                                    proof {
                                        assert(s@.skip(j4 as int)[0] == ',');
                                        assert(s@.skip(j4 as int).drop_first() =~= s@.skip(
                                            j4 as int + 1,
                                        ));
                                        lemma_parse_string_len(s@.skip(i as int));
                                        lemma_skip_ws_len(s@.skip(j1 as int));
                                        lemma_parse_string_len(s@.skip(j2 as int + 1));
                                        lemma_skip_ws_len(s@.skip(j3 as int));
                                    }
                                    parse_fields_exec(s, j4 + 1, acc2)
                                } else if j4 < n && s.get_char(j4) == '}' {
                                    proof {
                                        assert(s@.skip(j4 as int)[0] == '}');
                                        assert(s@.skip(j4 as int).drop_first() =~= s@.skip(
                                            j4 as int + 1,
                                        ));
                                    }
                                    Some((acc2, j4 + 1))
                                } else {
                                    proof {
                                        if j4 < s@.len() {
                                            assert(s@.skip(j4 as int)[0] == s@[j4 as int]);
                                        } else {
                                            assert(s@.skip(j4 as int).len() == 0);
                                        }
                                    }
                                    None
                                }
                            },
                        }
                    },
                }
            } else {
                proof {
                    if j2 < s@.len() {
                        assert(s@.skip(j2 as int)[0] == s@[j2 as int]);
                    } else {
                        assert(s@.skip(j2 as int).len() == 0);
                    }
                }
                None
            }
        },
    }
}

/// Read an item object starting at `i`, leading whitespace allowed.
fn parse_item_exec(s: &str, i: usize) -> (r: Option<(Item, usize)>)
    requires
        i <= s@.len(),
    ensures
        match r {
            Some(p) => p.1 <= s@.len() && parse_item(s@.skip(i as int)) == Some(
                (p.0@, s@.skip(p.1 as int)),
            ),
            None => parse_item(s@.skip(i as int)) is None,
        },
{
    let j = skip_ws_exec(s, i);
    let n = s.unicode_len();
    if j < n && s.get_char(j) == '{' {
        proof {
            assert(s@.skip(j as int)[0] == '{');
            assert(s@.skip(j as int).drop_first() =~= s@.skip(j as int + 1));
        }
        let j2 = skip_ws_exec(s, j + 1);
        if j2 < n && s.get_char(j2) == '}' {
            proof {
                assert(s@.skip(j2 as int)[0] == '}');
                assert(s@.skip(j2 as int).drop_first() =~= s@.skip(j2 as int + 1));
            }
            Some((Item::empty(), j2 + 1))
        } else {
            proof {
                if j2 < s@.len() {
                    assert(s@.skip(j2 as int)[0] == s@[j2 as int]);
                } else {
                    assert(s@.skip(j2 as int).len() == 0);
                }
            }
            parse_fields_exec(s, j + 1, Item::empty())
        }
    } else {
        proof {
            if j < s@.len() {
                assert(s@.skip(j as int)[0] == s@[j as int]);
            } else {
                assert(s@.skip(j as int).len() == 0);
            }
        }
        None
    }
}

/// Whether some entry of `v` is named `name`.
fn contains_name(v: &Vec<Entry>, name: &String) -> (r: bool)
    ensures
        r == has_name(entries_view(v@), name@),
{
    let mut i: usize = 0;
    while i < v.len()
        invariant
            i <= v@.len(),
            forall|j: int| 0 <= j < i ==> entries_view(v@)[j].name != name@,
        decreases v@.len() - i,
    {
        proof {
            assert(entries_view(v@)[i as int] == v@[i as int]@);
        }
        if v[i].name == *name {
            proof {
                crate::model::lemma_find_idx_first(entries_view(v@), name@, i as int);
            }
            return true;
        }
        i += 1;
    }
    proof {
        crate::model::lemma_find_idx_miss(entries_view(v@), name@);
    }
    false
}

/// Read the top object's members starting at `i`, just after the
/// opening brace, extending the entries read so far.
fn parse_members_exec(s: &str, i: usize, acc: Vec<Entry>) -> (r: Option<(Vec<Entry>, usize)>)
    requires
        i <= s@.len(),
    ensures
        match r {
            Some(p) => p.1 <= s@.len() && parse_members(s@.skip(i as int), entries_view(acc@))
                == Some((entries_view(p.0@), s@.skip(p.1 as int))),
            None => parse_members(s@.skip(i as int), entries_view(acc@)) is None,
        },
    decreases s@.len() - i,
{
    let ghost accm = entries_view(acc@);
    match parse_string_exec(s, i) {
        None => None,
        Some((k, j1)) => {
            let j2 = skip_ws_exec(s, j1);
            let n = s.unicode_len();
            if j2 < n && s.get_char(j2) == ':' {
                proof {
                    assert(s@.skip(j2 as int)[0] == ':');
                    assert(s@.skip(j2 as int).drop_first() =~= s@.skip(j2 as int + 1));
                }
                match parse_item_exec(s, j2 + 1) {
                    None => None,
                    Some((it, j3)) => {
                        if contains_name(&acc, &k) {
                            None
                        } else {
                            let mut acc2 = acc;
                            acc2.push(Entry { name: k, item: it });
                            proof {
                                assert(entries_view(acc2@) =~= accm.push(acc2@.last()@));
                            }
                            let j4 = skip_ws_exec(s, j3);
                            if j4 < n && s.get_char(j4) == ',' {
                                proof {
                                    assert(s@.skip(j4 as int)[0] == ',');
                                    assert(s@.skip(j4 as int).drop_first() =~= s@.skip(
                                        j4 as int + 1,
                                    ));
                                    lemma_parse_string_len(s@.skip(i as int));
                                    lemma_skip_ws_len(s@.skip(j1 as int));
                                    lemma_parse_item_len(s@.skip(j2 as int + 1));
                                    lemma_skip_ws_len(s@.skip(j3 as int));
                                }
                                parse_members_exec(s, j4 + 1, acc2)
                            } else if j4 < n && s.get_char(j4) == '}' {
                                proof {
                                    assert(s@.skip(j4 as int)[0] == '}');
                                    assert(s@.skip(j4 as int).drop_first() =~= s@.skip(
                                        j4 as int + 1,
                                    ));
                                }
                                Some((acc2, j4 + 1))
                            } else {
                                proof {
                                    if j4 < s@.len() {
                                        assert(s@.skip(j4 as int)[0] == s@[j4 as int]);
                                    } else {
                                        assert(s@.skip(j4 as int).len() == 0);
                                    }
                                }
                                None
                            }
                        }
                    },
                }
            } else {
                proof {
                    if j2 < s@.len() {
                        assert(s@.skip(j2 as int)[0] == s@[j2 as int]);
                    } else {
                        assert(s@.skip(j2 as int).len() == 0);
                    }
                }
                None
            }
        },
    }
}

/// Parsing keeps names pairwise distinct: a repeated name is refused.
pub proof fn lemma_parse_members_wf(s: Seq<char>, acc: Seq<EntryModel>)
    requires
        crate::model::wf_entries(acc),
    ensures
        parse_members(s, acc) matches Some(p) ==> crate::model::wf_entries(p.0),
    decreases s.len(),
{
    lemma_parse_string_len(s);
    if let Some(p) = parse_string(s) {
        lemma_skip_ws_len(p.1);
        let r1 = skip_ws(p.1);
        if r1.len() > 0 && r1[0] == ':' {
            lemma_parse_item_len(r1.drop_first());
            if let Some(q) = parse_item(r1.drop_first()) {
                if !has_name(acc, p.0) {
                    let e = EntryModel { name: p.0, item: q.0 };
                    let acc2 = acc.push(e);
                    crate::model::lemma_find_idx_hit(acc, p.0);
                    assert forall|a: int, b: int| 0 <= a < b < acc2.len() implies acc2[a].name
                        != acc2[b].name by {
                        if b < acc.len() {
                            assert(acc2[a] == acc[a] && acc2[b] == acc[b]);
                        } else {
                            assert(acc2[a] == acc[a] && acc2[b] == e);
                        }
                    }
                    lemma_skip_ws_len(q.1);
                    let r2 = skip_ws(q.1);
                    if r2.len() > 0 && r2[0] == ',' {
                        lemma_parse_members_wf(r2.drop_first(), acc2);
                    }
                }
            }
        }
    }
}

/// Whatever loading accepts has pairwise distinct names.
pub proof fn lemma_load_wf(s: Seq<char>)
    ensures
        load_model(s) matches Some(m) ==> crate::model::wf_entries(m),
{
    if skip_ws(s).len() != 0 {
        let t = skip_ws(s);
        if t.len() > 0 && t[0] == '{' {
            let u = skip_ws(t.drop_first());
            if !(u.len() > 0 && u[0] == '}') {
                lemma_parse_members_wf(t.drop_first(), Seq::<EntryModel>::empty());
            }
        }
    }
}

/// Read a whole backing file: blank content is the empty entry list,
/// anything else must be one object of objects of strings.
pub fn parse_entries(s: &str) -> (r: Option<Vec<Entry>>)
    ensures
        match r {
            Some(v) => load_model(s@) == Some(entries_view(v@)),
            None => load_model(s@) is None,
        },
{
    proof {
        assert(s@.skip(0) =~= s@);
    }
    let n = s.unicode_len();
    let j = skip_ws_exec(s, 0);
    if j == n {
        proof {
            assert(skip_ws(s@).len() == 0);
            assert(entries_view(Seq::<Entry>::empty()) =~= Seq::<EntryModel>::empty());
        }
        let v: Vec<Entry> = Vec::new();
        proof {
            assert(entries_view(v@) =~= Seq::<EntryModel>::empty());
        }
        return Some(v);
    }
    proof {
        assert(skip_ws(s@) == s@.skip(j as int));
        assert(skip_ws(s@).len() > 0);
    }
    if s.get_char(j) == '{' {
        proof {
            assert(s@.skip(j as int)[0] == '{');
            assert(s@.skip(j as int).drop_first() =~= s@.skip(j as int + 1));
        }
        let j2 = skip_ws_exec(s, j + 1);
        if j2 < n && s.get_char(j2) == '}' {
            proof {
                assert(s@.skip(j2 as int)[0] == '}');
                assert(s@.skip(j2 as int).drop_first() =~= s@.skip(j2 as int + 1));
            }
            let j3 = skip_ws_exec(s, j2 + 1);
            if j3 == n {
                let v: Vec<Entry> = Vec::new();
                proof {
                    assert(s@.skip(j3 as int).len() == 0);
                    assert(entries_view(v@) =~= Seq::<EntryModel>::empty());
                }
                Some(v)
            } else {
                proof {
                    assert(s@.skip(j3 as int).len() > 0);
                }
                None
            }
        } else {
            proof {
                if j2 < s@.len() {
                    assert(s@.skip(j2 as int)[0] == s@[j2 as int]);
                } else {
                    assert(s@.skip(j2 as int).len() == 0);
                }
                assert(entries_view(Seq::<Entry>::empty()) =~= Seq::<EntryModel>::empty());
            }
            let acc: Vec<Entry> = Vec::new();
            proof {
                assert(entries_view(acc@) =~= Seq::<EntryModel>::empty());
            }
            match parse_members_exec(s, j + 1, acc) {
                None => None,
                Some((v, j3)) => {
                    let j4 = skip_ws_exec(s, j3);
                    if j4 == n {
                        proof {
                            assert(s@.skip(j4 as int).len() == 0);
                        }
                        Some(v)
                    } else {
                        proof {
                            assert(s@.skip(j4 as int).len() > 0);
                        }
                        None
                    }
                },
            }
        }
    } else {
        proof {
            assert(s@.skip(j as int)[0] == s@[j as int]);
        }
        None
    }
}

} // verus!
