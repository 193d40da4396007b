//! JSON values, objects whose keys are kept in ascending order (as
//! `serde_json::Map` keeps them), and the compact JSON text of a value.
use vstd::prelude::*;
use crate::text::{text_chars, digit_char, escape_char, escaped, nat_text, json_string_literal, push_i64, push_u64, chars_lt, int_text, lemma_chars_lt_asymmetric, lemma_chars_lt_irreflexive, lemma_chars_lt_total, lemma_chars_lt_transitive, quoted, same_text, text_less};

verus! {

/// A JSON value as mathematics sees it. Numbers are integers; a value may also be
/// held as the JSON text written for it; an object is its members in key order.
pub enum Json {
    Null,
    Bool(bool),
    Int(int),
    Text(Seq<char>),
    Str(Seq<char>),
    Array(Seq<Json>),
    Object(Seq<(Seq<char>, Json)>),
}

/// A JSON value.
pub enum JsonValue {
    Null,
    Bool(bool),
    Int(i64),
    UInt(u64),
    /// A value held as the JSON text that `serde_json` writes for it: a finite
    /// floating-point number, or a value of fields read back from their text.
    Text(String),
    Str(String),
    Array(Vec<JsonValue>),
    Object(JsonObject),
}

/// The text that JSON writes for a finite floating-point number; it holds no line feed.
pub struct FloatText {
    text: String,
}

impl FloatText {
    /// The text holds no line feed.
    #[verifier::type_invariant]
    pub open spec fn single_line(self) -> bool {
        no_line_feed(self@)
    }

    /// The text of a floating-point number; nothing when the text holds a line feed.
    pub fn new(text: String) -> (r: Option<FloatText>)
        ensures
            r is Some <==> no_line_feed(text@),
            r matches Some(t) ==> t@ == text@,
    {
        let cs = text_chars(text.as_str());
        let n = cs.len();
        let mut i: usize = 0;
        while i < n
            invariant
                cs@ == text@,
                n == cs@.len(),
                i <= n,
                forall|j: int| 0 <= j < i ==> cs@[j] != '\n',
            decreases n - i,
        {
            if cs[i] == '\n' {
                return None;
            }
            i = i + 1;
        }
        Some(FloatText { text })
    }

    /// The text.
    pub fn into_text(self) -> (s: String)
        ensures
            s@ == self@,
            no_line_feed(s@),
    {
        proof {
            use_type_invariant(&self);
        }
        self.text
    }
}

impl View for FloatText {
    type V = Seq<char>;

    closed spec fn view(&self) -> Seq<char> {
        self.text@
    }
}

/// A JSON object: members with distinct keys, kept in ascending key order.
pub struct JsonObject {
    entries: Vec<(String, JsonValue)>,
}

/// The mathematical value of a JSON value.
pub open spec fn value_view(v: JsonValue) -> Json
    decreases v, 0nat,
{
    match v {
        JsonValue::Null => Json::Null,
        JsonValue::Bool(b) => Json::Bool(b),
        JsonValue::Int(i) => Json::Int(i as int),
        JsonValue::UInt(u) => Json::Int(u as int),
        JsonValue::Text(t) => Json::Text(t@),
        JsonValue::Str(s) => Json::Str(s@),
        JsonValue::Array(items) => Json::Array(items_view(items@, items@.len())),
        JsonValue::Object(o) => Json::Object(o.ordered()),
    }
}

/// The values of the first `n` items.
pub open spec fn items_view(s: Seq<JsonValue>, n: nat) -> Seq<Json>
    decreases s, n,
{
    if n == 0 || n > s.len() {
        Seq::empty()
    } else {
        items_view(s, (n - 1) as nat).push(value_view(s[n - 1]))
    }
}

/// The members, with their keys and values seen as mathematics, of the first `n` entries.
pub open spec fn entries_view(s: Seq<(String, JsonValue)>, n: nat) -> Seq<(Seq<char>, Json)>
    decreases s, n,
{
    if n == 0 || n > s.len() {
        Seq::empty()
    } else {
        entries_view(s, (n - 1) as nat).push((s[n - 1].0@, value_view(s[n - 1].1)))
    }
}

impl View for JsonValue {
    type V = Json;

    open spec fn view(&self) -> Json {
        value_view(*self)
    }
}

/// The map from key to value that a member list describes; a later member
/// overrides an earlier one with the same key.
pub open spec fn entries_map(es: Seq<(Seq<char>, Json)>) -> Map<Seq<char>, Json>
    decreases es.len(),
{
    if es.len() == 0 {
        Map::empty()
    } else {
        entries_map(es.drop_last()).insert(es.last().0, es.last().1)
    }
}

/// The keys of a member list ascend strictly.
pub open spec fn keys_ascending(es: Seq<(Seq<char>, Json)>) -> bool {
    forall|i: int, j: int| 0 <= i < j < es.len() ==> chars_lt(#[trigger] es[i].0, #[trigger] es[j].0)
}

/// The member list, in ascending key order, of a map.
pub open spec fn canonical_entries(m: Map<Seq<char>, Json>) -> Seq<(Seq<char>, Json)> {
    choose|es: Seq<(Seq<char>, Json)>| keys_ascending(es) && entries_map(es) == m
}

/// The JSON object whose members are those of `m`.
pub open spec fn object_json(m: Map<Seq<char>, Json>) -> Json {
    Json::Object(canonical_entries(m))
}

/// The compact JSON text of a value, as `serde_json::to_string` writes it.
pub open spec fn json_text(j: Json) -> Seq<char>
    decreases j, 0nat,
{
    match j {
        Json::Null => seq!['n', 'u', 'l', 'l'],
        Json::Bool(b) => if b {
            seq!['t', 'r', 'u', 'e']
        } else {
            seq!['f', 'a', 'l', 's', 'e']
        },
        Json::Int(i) => int_text(i),
        Json::Text(t) => t,
        Json::Str(s) => quoted(s),
        Json::Array(items) => seq!['['] + items_text(items, items.len()) + seq![']'],
        Json::Object(es) => seq!['{'] + members_text(es, es.len()) + seq!['}'],
    }
}

/// The first `n` items, separated by commas.
pub open spec fn items_text(items: Seq<Json>, n: nat) -> Seq<char>
    decreases items, n,
{
    if n == 0 || n > items.len() {
        Seq::empty()
    } else if n == 1 {
        json_text(items[0])
    } else {
        items_text(items, (n - 1) as nat) + seq![','] + json_text(items[n - 1])
    }
}

/// The first `n` members, each as `"key":value`, separated by commas.
pub open spec fn members_text(es: Seq<(Seq<char>, Json)>, n: nat) -> Seq<char>
    decreases es, n,
{
    if n == 0 || n > es.len() {
        Seq::empty()
    } else if n == 1 {
        quoted(es[0].0) + seq![':'] + json_text(es[0].1)
    } else {
        members_text(es, (n - 1) as nat) + seq![','] + quoted(es[n - 1].0) + seq![':']
            + json_text(es[n - 1].1)
    }
}

/// The JSON text of the object whose members are those of `m`.
pub open spec fn object_text(m: Map<Seq<char>, Json>) -> Seq<char> {
    json_text(object_json(m))
}

/// No character of the text is a line feed.
pub open spec fn no_line_feed(t: Seq<char>) -> bool {
    forall|i: int| 0 <= i < t.len() ==> t[i] != '\n'
}

/// No held text inside the value holds a line feed.
pub open spec fn texts_single_line(j: Json) -> bool
    decreases j, 0nat,
{
    match j {
        Json::Text(t) => no_line_feed(t),
        Json::Array(items) => items_single_line(items, items.len()),
        Json::Object(es) => members_single_line(es, es.len()),
        _ => true,
    }
}

/// No held text inside the first `n` items holds a line feed.
pub open spec fn items_single_line(items: Seq<Json>, n: nat) -> bool
    decreases items, n,
{
    if n == 0 || n > items.len() {
        true
    } else {
        items_single_line(items, (n - 1) as nat) && texts_single_line(items[n - 1])
    }
}

/// No held text inside the values of the first `n` members holds a line feed.
pub open spec fn members_single_line(es: Seq<(Seq<char>, Json)>, n: nat) -> bool
    decreases es, n,
{
    if n == 0 || n > es.len() {
        true
    } else {
        members_single_line(es, (n - 1) as nat) && texts_single_line(es[n - 1].1)
    }
}

proof fn lemma_concat_no_line_feed(a: Seq<char>, b: Seq<char>)
    requires
        no_line_feed(a),
        no_line_feed(b),
    ensures
        no_line_feed(a + b),
{
    assert forall|i: int| 0 <= i < (a + b).len() implies (a + b)[i] != '\n' by {
        if i >= a.len() {
            assert((a + b)[i] == b[i - a.len()]);
        }
    }
}

proof fn lemma_nat_text_no_line_feed(n: nat)
    ensures
        no_line_feed(nat_text(n)),
    decreases n,
{
    if n >= 10 {
        lemma_nat_text_no_line_feed(n / 10);
        lemma_concat_no_line_feed(nat_text(n / 10), seq![digit_char((n % 10) as int)]);
    }
}

proof fn lemma_escaped_no_line_feed(s: Seq<char>)
    ensures
        no_line_feed(escaped(s)),
    decreases s.len(),
{
    if s.len() > 0 {
        lemma_escaped_no_line_feed(s.drop_last());
        let c = s.last();
        assert(no_line_feed(escape_char(c))) by {
            if c == '\n' {
                assert(c as u32 == 10);
            }
        }
        lemma_concat_no_line_feed(escaped(s.drop_last()), escape_char(c));
    }
}

proof fn lemma_quoted_no_line_feed(s: Seq<char>)
    ensures
        no_line_feed(quoted(s)),
{
    lemma_escaped_no_line_feed(s);
    lemma_concat_no_line_feed(seq!['"'], escaped(s));
    lemma_concat_no_line_feed(seq!['"'] + escaped(s), seq!['"']);
}

/// The JSON text of a value holds no line feed unless one of its floating-point
/// texts does: strings write a line feed as the escape `\n`. So each event, written
/// as one JSON object and a line feed, takes exactly one line.
pub proof fn lemma_json_text_single_line(j: Json)
    requires
        texts_single_line(j),
    ensures
        no_line_feed(json_text(j)),
    decreases j, 0nat,
{
    match j {
        Json::Int(i) => {
            if i < 0 {
                lemma_nat_text_no_line_feed((-i) as nat);
                lemma_concat_no_line_feed(seq!['-'], nat_text((-i) as nat));
            } else {
                lemma_nat_text_no_line_feed(i as nat);
            }
        },
        Json::Str(s) => {
            lemma_quoted_no_line_feed(s);
        },
        Json::Array(items) => {
            lemma_items_text_single_line(items, items.len());
            lemma_concat_no_line_feed(seq!['['], items_text(items, items.len()));
            lemma_concat_no_line_feed(seq!['['] + items_text(items, items.len()), seq![']']);
        },
        Json::Object(es) => {
            lemma_members_text_single_line(es, es.len());
            lemma_concat_no_line_feed(seq!['{'], members_text(es, es.len()));
            lemma_concat_no_line_feed(seq!['{'] + members_text(es, es.len()), seq!['}']);
        },
        _ => {},
    }
}

proof fn lemma_items_text_single_line(items: Seq<Json>, n: nat)
    requires
        items_single_line(items, n),
    ensures
        no_line_feed(items_text(items, n)),
    decreases items, n,
{
    if n > 0 && n <= items.len() {
        lemma_json_text_single_line(items[n - 1]);
        if n > 1 {
            lemma_items_text_single_line(items, (n - 1) as nat);
            lemma_concat_no_line_feed(items_text(items, (n - 1) as nat), seq![',']);
            lemma_concat_no_line_feed(
                items_text(items, (n - 1) as nat) + seq![','],
                json_text(items[n - 1]),
            );
        }
    }
}

proof fn lemma_members_text_single_line(es: Seq<(Seq<char>, Json)>, n: nat)
    requires
        members_single_line(es, n),
    ensures
        no_line_feed(members_text(es, n)),
    decreases es, n,
{
    if n > 0 && n <= es.len() {
        let k = es[n - 1].0;
        let v = es[n - 1].1;
        lemma_json_text_single_line(v);
        lemma_quoted_no_line_feed(k);
        lemma_concat_no_line_feed(quoted(k), seq![':']);
        lemma_concat_no_line_feed(quoted(k) + seq![':'], json_text(v));
        if n > 1 {
            lemma_members_text_single_line(es, (n - 1) as nat);
            let p = members_text(es, (n - 1) as nat);
            lemma_concat_no_line_feed(p, seq![',']);
            lemma_concat_no_line_feed(p + seq![','], quoted(k));
            lemma_concat_no_line_feed(p + seq![','] + quoted(k), seq![':']);
            lemma_concat_no_line_feed(p + seq![','] + quoted(k) + seq![':'], json_text(v));
        }
    }
}

/// Every value of the map is free of line feeds in its held texts.
pub open spec fn values_single_line(m: Map<Seq<char>, Json>) -> bool {
    forall|k: Seq<char>| #[trigger] m.contains_key(k) ==> texts_single_line(m[k])
}

/// The map of a member list has finitely many keys.
pub proof fn lemma_entries_map_finite(es: Seq<(Seq<char>, Json)>)
    ensures
        entries_map(es).dom().finite(),
    decreases es.len(),
{
    if es.len() > 0 {
        lemma_entries_map_finite(es.drop_last());
    }
}

/// The place of key `k` in an ascending list: all keys before it are below `k`,
/// and the key there, if any, is not.
proof fn lemma_find_place(es: Seq<(Seq<char>, Json)>, k: Seq<char>) -> (p: int)
    requires
        keys_ascending(es),
    ensures
        0 <= p <= es.len(),
        forall|j: int| 0 <= j < p ==> chars_lt(#[trigger] es[j].0, k),
        p < es.len() ==> !chars_lt(es[p].0, k),
    decreases es.len(),
{
    if es.len() == 0 {
        0
    } else {
        let pre = es.drop_last();
        lemma_drop_last_ascending(es);
        let q = lemma_find_place(pre, k);
        assert forall|j: int| 0 <= j < q implies chars_lt(#[trigger] es[j].0, k) by {
            assert(pre[j] == es[j]);
        }
        if q < pre.len() {
            assert(pre[q] == es[q]);
            q
        } else if chars_lt(es.last().0, k) {
            es.len() as int
        } else {
            q
        }
    }
}

/// Every map with finitely many keys has an ascending member list.
pub proof fn lemma_canonical_entries_exist(m: Map<Seq<char>, Json>)
    requires
        m.dom().finite(),
    ensures
        keys_ascending(canonical_entries(m)),
        entries_map(canonical_entries(m)) == m,
    decreases m.dom().len(),
{
    if m.dom().len() == 0 {
        let es = Seq::<(Seq<char>, Json)>::empty();
        assert(m.dom() =~= Set::<Seq<char>>::empty());
        assert(entries_map(es) =~= m);
        assert(keys_ascending(es) && entries_map(es) == m);
    } else {
        let k = m.dom().choose();
        let rest = m.remove(k);
        assert(rest.dom() =~= m.dom().remove(k));
        lemma_canonical_entries_exist(rest);
        let es = canonical_entries(rest);
        lemma_entries_map(es);
        let p = lemma_find_place(es, k);
        if p < es.len() {
            assert(entries_map(es).contains_key(es[p].0));
        }
        lemma_place_member(es, p, k, m[k]);
        let es2 = es.insert(p, (k, m[k]));
        assert(entries_map(es2) =~= m);
        assert(keys_ascending(es2) && entries_map(es2) == m);
    }
}

proof fn lemma_items_single_line_all(items: Seq<Json>, n: nat)
    requires
        n <= items.len(),
        forall|i: int| 0 <= i < items.len() ==> texts_single_line(#[trigger] items[i]),
    ensures
        items_single_line(items, n),
    decreases n,
{
    if n > 0 {
        lemma_items_single_line_all(items, (n - 1) as nat);
    }
}

proof fn lemma_members_single_line_all(es: Seq<(Seq<char>, Json)>, n: nat)
    requires
        n <= es.len(),
        forall|i: int| 0 <= i < es.len() ==> texts_single_line(#[trigger] es[i].1),
    ensures
        members_single_line(es, n),
    decreases n,
{
    if n > 0 {
        lemma_members_single_line_all(es, (n - 1) as nat);
    }
}

/// An array is free of line feeds in its held texts when every item is.
pub proof fn lemma_array_single_line(items: Seq<Json>)
    requires
        forall|i: int| 0 <= i < items.len() ==> texts_single_line(#[trigger] items[i]),
    ensures
        texts_single_line(Json::Array(items)),
{
    lemma_items_single_line_all(items, items.len());
}

/// An object is free of line feeds in its held texts when every value is.
pub proof fn lemma_object_single_line(m: Map<Seq<char>, Json>)
    requires
        m.dom().finite(),
        values_single_line(m),
    ensures
        texts_single_line(object_json(m)),
{
    lemma_canonical_entries_exist(m);
    let es = canonical_entries(m);
    lemma_entries_map(es);
    assert forall|i: int| 0 <= i < es.len() implies texts_single_line(#[trigger] es[i].1) by {
        assert(m.contains_key(es[i].0));
    }
    lemma_members_single_line_all(es, es.len());
}

/// The values of the items of a list, one by one.
pub proof fn lemma_items_view(s: Seq<JsonValue>, n: nat)
    requires
        n <= s.len(),
    ensures
        items_view(s, n).len() == n,
        forall|i: int| 0 <= i < n ==> #[trigger] items_view(s, n)[i] == value_view(s[i]),
    decreases n,
{
    if n > 0 {
        lemma_items_view(s, (n - 1) as nat);
    }
}

proof fn lemma_entries_view(s: Seq<(String, JsonValue)>, n: nat)
    requires
        n <= s.len(),
    ensures
        entries_view(s, n).len() == n,
        forall|i: int|
            0 <= i < n ==> #[trigger] entries_view(s, n)[i] == (s[i].0@, value_view(s[i].1)),
    decreases n,
{
    if n > 0 {
        lemma_entries_view(s, (n - 1) as nat);
    }
}

/// In an ascending member list, each member's key is in the map with that
/// member's value, and the map holds no other key.
pub proof fn lemma_entries_map(es: Seq<(Seq<char>, Json)>)
    requires
        keys_ascending(es),
    ensures
        forall|i: int|
            0 <= i < es.len() ==> #[trigger] entries_map(es).contains_key(es[i].0)
                && entries_map(es)[es[i].0] == es[i].1,
        forall|k: Seq<char>|
            #[trigger] entries_map(es).contains_key(k) ==> exists|i: int|
                0 <= i < es.len() && es[i].0 == k,
    decreases es.len(),
{
    if es.len() > 0 {
        let pre = es.drop_last();
        assert(keys_ascending(pre)) by {
            assert forall|i: int, j: int| 0 <= i < j < pre.len() implies chars_lt(
                #[trigger] pre[i].0,
                #[trigger] pre[j].0,
            ) by {
                assert(pre[i] == es[i] && pre[j] == es[j]);
            }
        }
        lemma_entries_map(pre);
        let last = es.last();
        assert forall|i: int| 0 <= i < es.len() implies #[trigger] entries_map(es).contains_key(
            es[i].0,
        ) && entries_map(es)[es[i].0] == es[i].1 by {
            assert(entries_map(es) == entries_map(pre).insert(last.0, last.1));
            if i < es.len() - 1 {
                assert(chars_lt(es[i].0, es[es.len() - 1].0));
                lemma_chars_lt_irreflexive(es[i].0);
                assert(pre[i] == es[i]);
                assert(entries_map(pre).contains_key(pre[i].0));
                assert(es[i].0 != last.0);
            }
        }
        assert forall|k: Seq<char>| #[trigger] entries_map(es).contains_key(k) implies exists|
            i: int,
        | 0 <= i < es.len() && es[i].0 == k by {
            if k == last.0 {
                assert(es[es.len() - 1].0 == k);
            } else {
                assert(entries_map(pre).contains_key(k));
                let i = choose|i: int| 0 <= i < pre.len() && pre[i].0 == k;
                assert(es[i] == pre[i]);
            }
        }
    }
}

/// Dropping the last member of an ascending list removes its key from the map.
proof fn lemma_entries_map_drop_last(es: Seq<(Seq<char>, Json)>)
    requires
        keys_ascending(es),
        es.len() > 0,
    ensures
        !entries_map(es.drop_last()).contains_key(es.last().0),
        entries_map(es.drop_last()) == entries_map(es).remove(es.last().0),
{
    let pre = es.drop_last();
    assert(keys_ascending(pre)) by {
        assert forall|i: int, j: int| 0 <= i < j < pre.len() implies chars_lt(
            #[trigger] pre[i].0,
            #[trigger] pre[j].0,
        ) by {
            assert(pre[i] == es[i] && pre[j] == es[j]);
        }
    }
    lemma_entries_map(pre);
    if entries_map(pre).contains_key(es.last().0) {
        let i = choose|i: int| 0 <= i < pre.len() && pre[i].0 == es.last().0;
        assert(pre[i] == es[i]);
        assert(chars_lt(es[i].0, es[es.len() - 1].0));
        lemma_chars_lt_irreflexive(es[i].0);
    }
    assert(entries_map(pre) =~= entries_map(es).remove(es.last().0));
}

proof fn lemma_drop_last_ascending(es: Seq<(Seq<char>, Json)>)
    requires
        keys_ascending(es),
        es.len() > 0,
    ensures
        keys_ascending(es.drop_last()),
{
    let pre = es.drop_last();
    assert forall|x: int, y: int| 0 <= x < y < pre.len() implies chars_lt(
        #[trigger] pre[x].0,
        #[trigger] pre[y].0,
    ) by {
        assert(pre[x] == es[x] && pre[y] == es[y]);
    }
}

/// Two ascending member lists that describe the same map are the same list.
pub proof fn lemma_ascending_entries_unique(a: Seq<(Seq<char>, Json)>, b: Seq<(Seq<char>, Json)>)
    requires
        keys_ascending(a),
        keys_ascending(b),
        entries_map(a) == entries_map(b),
    ensures
        a == b,
    decreases a.len(),
{
    if a.len() == 0 || b.len() == 0 {
        if b.len() > 0 {
            lemma_entries_map(b);
            assert(entries_map(b).contains_key(b[0].0));
        }
        if a.len() > 0 {
            lemma_entries_map(a);
            assert(entries_map(a).contains_key(a[0].0));
        }
        assert(a =~= b);
    } else {
        let ka = a.last().0;
        let kb = b.last().0;
        assert(ka == kb) by {
            lemma_entries_map(a);
            lemma_entries_map(b);
            assert(entries_map(a).contains_key(a[a.len() - 1].0));
            assert(entries_map(b).contains_key(b[b.len() - 1].0));
            let j = choose|j: int| 0 <= j < b.len() && b[j].0 == ka;
            let i = choose|i: int| 0 <= i < a.len() && a[i].0 == kb;
            if ka != kb {
                assert(j < b.len() - 1);
                assert(i < a.len() - 1);
                assert(chars_lt(b[j].0, b[b.len() - 1].0));
                assert(chars_lt(a[i].0, a[a.len() - 1].0));
                lemma_chars_lt_asymmetric(ka, kb);
            }
        }
        lemma_entries_map_drop_last(a);
        lemma_entries_map_drop_last(b);
        lemma_drop_last_ascending(a);
        lemma_drop_last_ascending(b);
        let pa = a.drop_last();
        let pb = b.drop_last();
        lemma_ascending_entries_unique(pa, pb);
        assert(entries_map(a) == entries_map(pa).insert(ka, a.last().1));
        assert(entries_map(b) == entries_map(pb).insert(kb, b.last().1));
        assert(a.last().1 == entries_map(a)[ka]);
        assert(b.last().1 == entries_map(b)[kb]);
        assert(a =~= pa.push(a.last()));
        assert(b =~= pb.push(b.last()));
    }
}

/// An ascending member list is the canonical member list of its map.
pub proof fn lemma_canonical_entries(es: Seq<(Seq<char>, Json)>)
    requires
        keys_ascending(es),
    ensures
        canonical_entries(entries_map(es)) == es,
{
    let m = entries_map(es);
    let c = canonical_entries(m);
    assert(keys_ascending(c) && entries_map(c) == m);
    lemma_ascending_entries_unique(c, es);
}

/// Setting key `k` in an ascending list at the place `p` that the keys below `k`
/// lead up to keeps the list ascending and sets `k` in its map.
proof fn lemma_place_member(es: Seq<(Seq<char>, Json)>, p: int, k: Seq<char>, v: Json)
    requires
        keys_ascending(es),
        0 <= p <= es.len(),
        forall|j: int| 0 <= j < p ==> chars_lt(#[trigger] es[j].0, k),
        p < es.len() ==> !chars_lt(es[p].0, k),
    ensures
        p < es.len() && es[p].0 == k ==> keys_ascending(es.update(p, (k, v)))
            && entries_map(es.update(p, (k, v))) == entries_map(es).insert(k, v),
        !(p < es.len() && es[p].0 == k) ==> keys_ascending(es.insert(p, (k, v)))
            && entries_map(es.insert(p, (k, v))) == entries_map(es).insert(k, v),
{
    lemma_entries_map(es);
    if p < es.len() && es[p].0 == k {
        let es2 = es.update(p, (k, v));
        assert(keys_ascending(es2)) by {
            assert forall|i: int, j: int| 0 <= i < j < es2.len() implies chars_lt(
                #[trigger] es2[i].0,
                #[trigger] es2[j].0,
            ) by {
                assert(es2[i].0 == es[i].0 && es2[j].0 == es[j].0);
            }
        }
        lemma_entries_map(es2);
        assert forall|x: Seq<char>| #[trigger] entries_map(es2).contains_key(x) <==> entries_map(
            es,
        ).insert(k, v).contains_key(x) by {
            if entries_map(es2).contains_key(x) {
                let i = choose|i: int| 0 <= i < es2.len() && es2[i].0 == x;
                assert(es2[i].0 == es[i].0);
            }
            if entries_map(es).contains_key(x) {
                let i = choose|i: int| 0 <= i < es.len() && es[i].0 == x;
                assert(es2[i].0 == es[i].0);
            }
        }
        assert forall|x: Seq<char>| #[trigger] entries_map(es2).contains_key(x) implies entries_map(
            es2,
        )[x] == entries_map(es).insert(k, v)[x] by {
            let i = choose|i: int| 0 <= i < es2.len() && es2[i].0 == x;
            if i != p {
                assert(es2[i] == es[i]);
                lemma_chars_lt_irreflexive(k);
            }
        }
        assert(entries_map(es2) =~= entries_map(es).insert(k, v));
    } else {
        if p < es.len() {
            lemma_chars_lt_total(es[p].0, k);
        }
        let es2 = es.insert(p, (k, v));
        assert(keys_ascending(es2)) by {
            assert forall|i: int, j: int| 0 <= i < j < es2.len() implies chars_lt(
                #[trigger] es2[i].0,
                #[trigger] es2[j].0,
            ) by {
                if j < p {
                    assert(es2[i] == es[i] && es2[j] == es[j]);
                } else if j == p {
                    assert(es2[i] == es[i]);
                } else if i == p {
                    assert(es2[j] == es[j - 1]);
                    if j - 1 > p {
                        assert(chars_lt(es[p].0, es[j - 1].0));
                        lemma_chars_lt_transitive(k, es[p].0, es[j - 1].0);
                    }
                } else if i < p {
                    assert(es2[i] == es[i] && es2[j] == es[j - 1]);
                } else {
                    assert(es2[i] == es[i - 1] && es2[j] == es[j - 1]);
                }
            }
        }
        lemma_entries_map(es2);
        assert forall|x: Seq<char>| #[trigger] entries_map(es2).contains_key(x) <==> entries_map(
            es,
        ).insert(k, v).contains_key(x) by {
            if entries_map(es2).contains_key(x) {
                let i = choose|i: int| 0 <= i < es2.len() && es2[i].0 == x;
                if i < p {
                    assert(es2[i] == es[i]);
                } else if i > p {
                    assert(es2[i] == es[i - 1]);
                }
            }
            if entries_map(es).contains_key(x) {
                let i = choose|i: int| 0 <= i < es.len() && es[i].0 == x;
                if i < p {
                    assert(es2[i] == es[i]);
                } else {
                    assert(es2[i + 1] == es[i]);
                }
            }
            if x == k {
                assert(es2[p].0 == k);
            }
        }
        assert forall|x: Seq<char>| #[trigger] entries_map(es2).contains_key(x) implies entries_map(
            es2,
        )[x] == entries_map(es).insert(k, v)[x] by {
            let i = choose|i: int| 0 <= i < es2.len() && es2[i].0 == x;
            if i < p {
                assert(es2[i] == es[i]);
                assert(chars_lt(es[i].0, k));
                lemma_chars_lt_irreflexive(k);
            } else if i > p {
                assert(es2[i] == es[i - 1]);
                if i - 1 > p {
                    assert(chars_lt(es[p].0, es[i - 1].0));
                    lemma_chars_lt_transitive(k, es[p].0, es[i - 1].0);
                }
                lemma_chars_lt_irreflexive(k);
            }
        }
        assert(entries_map(es2) =~= entries_map(es).insert(k, v));
    }
}

impl JsonObject {
    /// The members in ascending key order.
    pub closed spec fn ordered(self) -> Seq<(Seq<char>, Json)>
        decreases self, 0nat,
    {
        entries_view(self.entries@, self.entries@.len())
    }

    #[verifier::type_invariant]
    spec fn ascending(self) -> bool {
        keys_ascending(self.ordered())
    }

    /// An object with no member.
    pub fn new() -> (o: JsonObject)
        ensures
            o@ == Map::<Seq<char>, Json>::empty(),
    {
        let o = JsonObject { entries: Vec::new() };
        assert(o.ordered() =~= Seq::<(Seq<char>, Json)>::empty());
        o
    }

    /// The object as a JSON value.
    pub fn into_json(self) -> (v: JsonValue)
        ensures
            v@ == object_json(self@),
    {
        proof {
            use_type_invariant(&self);
            lemma_canonical_entries(self.ordered());
        }
        JsonValue::Object(self)
    }

    /// The compact JSON text of the object: its members in ascending key order.
    pub fn to_json_text(&self) -> (text: String)
        ensures
            text@ == object_text(self@),
    {
        proof {
            use_type_invariant(self);
            lemma_canonical_entries(self.ordered());
        }
        let mut out = String::new();
        write_object(self, &mut out);
        assert(out@ =~= object_text(self@));
        out
    }

    /// Sets the member `key` to `value`, replacing any member with that key.
    pub fn insert(&mut self, key: String, value: JsonValue)
        ensures
            final(self)@ == old(self)@.insert(key@, value@),
    {
        proof {
            use_type_invariant(&*self);
            lemma_entries_view(self.entries@, self.entries@.len());
        }
        let ghost es = self.ordered();
        let n = self.entries.len();
        // Binary search for the place of `key` among the ascending keys.
        let mut p: usize = 0;
        let mut hi: usize = n;
        while p < hi
            invariant
                n == self.entries@.len(),
                es == self.ordered(),
                es.len() == n,
                keys_ascending(es),
                p <= hi <= n,
                forall|j: int| 0 <= j < p ==> chars_lt(#[trigger] es[j].0, key@),
                forall|j: int| hi <= j < n ==> !chars_lt(#[trigger] es[j].0, key@),
                forall|j: int| 0 <= j < n ==> #[trigger] es[j].0 == self.entries@[j].0@,
            decreases hi - p,
        {
            let mid = p + (hi - p) / 2;
            if text_less(self.entries[mid].0.as_str(), key.as_str()) {
                proof {
                    assert forall|j: int| 0 <= j < mid + 1 implies chars_lt(#[trigger] es[j].0, key@) by {
                        if j < mid {
                            assert(chars_lt(es[j].0, es[mid as int].0));
                            lemma_chars_lt_transitive(es[j].0, es[mid as int].0, key@);
                        }
                    }
                }
                p = mid + 1;
            } else {
                proof {
                    assert forall|j: int| mid <= j < n implies !chars_lt(#[trigger] es[j].0, key@) by {
                        if j > mid && chars_lt(es[j].0, key@) {
                            assert(chars_lt(es[mid as int].0, es[j].0));
                            lemma_chars_lt_transitive(es[mid as int].0, es[j].0, key@);
                        }
                    }
                }
                hi = mid;
            }
        }
        let replace = p < n && same_text(self.entries[p].0.as_str(), key.as_str());
        let ghost kv = (key@, value@);
        proof {
            lemma_place_member(es, p as int, key@, value@);
        }
        let mut entries: Vec<(String, JsonValue)> = Vec::new();
        std::mem::swap(&mut entries, &mut self.entries);
        if replace {
            entries.set(p, (key, value));
            proof {
                lemma_entries_view(entries@, entries@.len());
                assert(entries_view(entries@, entries@.len()) =~= es.update(p as int, kv));
            }
        } else {
            entries.insert(p, (key, value));
            proof {
                lemma_entries_view(entries@, entries@.len());
                assert(entries_view(entries@, entries@.len()) =~= es.insert(p as int, kv));
            }
        }
        self.entries = entries;
    }

    /// Sets every member of `other` in this object, `other`'s value winning where
    /// both have a key (as `Map::extend` does).
    pub fn extend(&mut self, other: JsonObject)
        ensures
            final(self)@ == old(self)@.union_prefer_right(other@),
    {
        proof {
            use_type_invariant(&other);
        }
        let ghost target = self@.union_prefer_right(other@);
        let JsonObject { entries: mut rest } = other;
        while rest.len() > 0
            invariant
                keys_ascending(entries_view(rest@, rest@.len())),
                target == self@.union_prefer_right(entries_map(entries_view(rest@, rest@.len()))),
            decreases rest.len(),
        {
            let ghost rv = entries_view(rest@, rest@.len());
            let ghost before = self@;
            let ghost rest_before = rest@;
            let (k, v) = rest.pop().unwrap();
            proof {
                lemma_entries_view(rest@, rest@.len());
                lemma_entries_view(rest_before, rest_before.len());
                assert(rest_before =~= rest@.push((k, v)));
                assert(rv =~= entries_view(rest@, rest@.len()).push((k@, v@)));
                lemma_entries_map_drop_last(rv);
                assert(rv.drop_last() =~= entries_view(rest@, rest@.len()));
                assert(keys_ascending(entries_view(rest@, rest@.len()))) by {
                    let rv2 = entries_view(rest@, rest@.len());
                    assert forall|x: int, y: int| 0 <= x < y < rv2.len() implies chars_lt(
                        #[trigger] rv2[x].0,
                        #[trigger] rv2[y].0,
                    ) by {
                        assert(rv2[x] == rv[x] && rv2[y] == rv[y]);
                    }
                }
            }
            self.insert(k, v);
            proof {
                let m2 = entries_map(entries_view(rest@, rest@.len()));
                assert(before.union_prefer_right(m2.insert(k@, v@)) =~= before.insert(
                    k@,
                    v@,
                ).union_prefer_right(m2));
            }
        }
        proof {
            assert(entries_view(rest@, rest@.len()) =~= Seq::<(Seq<char>, Json)>::empty());
            assert(self@.union_prefer_right(Map::empty()) =~= self@);
        }
    }
}

/// Appends the compact JSON text of `v`.
pub fn write_json(v: &JsonValue, out: &mut String)
    ensures
        final(out)@ == old(out)@ + json_text(v@),
    decreases v,
{
    proof {
        reveal_strlit("null");
        reveal_strlit("true");
        reveal_strlit("false");
        reveal_strlit("[");
        reveal_strlit("]");
        reveal_strlit("{");
        reveal_strlit("}");
        reveal_strlit(",");
        reveal_strlit(":");
    }
    match v {
        JsonValue::Null => {
            out.append("null");
        },
        JsonValue::Bool(b) => {
            if *b {
                out.append("true");
            } else {
                out.append("false");
            }
        },
        JsonValue::Int(i) => {
            push_i64(out, *i);
        },
        JsonValue::UInt(u) => {
            push_u64(out, *u);
        },
        JsonValue::Text(t) => {
            out.append(t.as_str());
        },
        JsonValue::Str(s) => {
            let q = json_string_literal(s.as_str());
            out.append(q.as_str());
        },
        JsonValue::Array(items) => {
            write_array(items, out);
        },
        JsonValue::Object(o) => {
            write_object(o, out);
        },
    }
    assert(final(out)@ =~= old(out)@ + json_text(v@));
}

/// Appends the compact JSON text of the array whose items are `items`.
fn write_array(items: &Vec<JsonValue>, out: &mut String)
    ensures
        final(out)@ == old(out)@ + json_text(Json::Array(items_view(items@, items@.len()))),
    decreases items,
{
    proof {
        reveal_strlit("[");
        reveal_strlit("]");
    }
    let ghost start = out@;
    let ghost iv = items_view(items@, items@.len());
    proof {
        lemma_items_view(items@, items@.len());
    }
    out.append("[");
    let n = items.len();
    let mut i: usize = 0;
    while i < n
        invariant
            n == items@.len(),
            i <= n,
            iv == items_view(items@, items@.len()),
            iv.len() == n,
            forall|j: int| 0 <= j < n ==> #[trigger] iv[j] == value_view(items@[j]),
            out@ == start + seq!['['] + items_text(iv, i as nat),
        decreases n - i,
    {
        let ghost before = out@;
        proof {
            reveal_strlit(",");
        }
        if i > 0 {
            out.append(",");
        }
        assert(decreases_to!(*items => items@[i as int]));
        write_json(&items[i], out);
        proof {
            let t = json_text(iv[i as int]);
            assert(iv[i as int] == items@[i as int]@);
            if i == 0 {
                assert(items_text(iv, 1) == t);
                assert(out@ =~= start + seq!['['] + items_text(iv, (i + 1) as nat));
            } else {
                assert(items_text(iv, (i + 1) as nat) == items_text(iv, i as nat) + seq![',']
                    + t);
                assert(out@ =~= start + seq!['['] + items_text(iv, (i + 1) as nat));
            }
        }
        i = i + 1;
    }
    out.append("]");
    assert(final(out)@ =~= old(out)@ + json_text(Json::Array(items_view(items@, items@.len()))));
}

/// Appends the compact JSON text of the object `o`: its members, in the order held.
fn write_object(o: &JsonObject, out: &mut String)
    ensures
        final(out)@ == old(out)@ + json_text(Json::Object(o.ordered())),
    decreases o,
{
    proof {
        reveal_strlit("{");
        reveal_strlit("}");
    }
    let ghost start = out@;
    let ghost ev = o.ordered();
    proof {
        lemma_entries_view(o.entries@, o.entries@.len());
    }
    out.append("{");
    let n = o.entries.len();
    let mut i: usize = 0;
    while i < n
        invariant
            n == o.entries@.len(),
            i <= n,
            ev == o.ordered(),
            ev.len() == n,
            forall|j: int|
                0 <= j < n ==> #[trigger] ev[j] == (
                    o.entries@[j].0@,
                    value_view(o.entries@[j].1),
                ),
            out@ == start + seq!['{'] + members_text(ev, i as nat),
        decreases n - i,
    {
        let ghost before = out@;
        proof {
            reveal_strlit(",");
            reveal_strlit(":");
        }
        if i > 0 {
            out.append(",");
        }
        let q = json_string_literal(o.entries[i].0.as_str());
        out.append(q.as_str());
        out.append(":");
        assert(decreases_to!(o.entries => o.entries@[i as int]));
        write_json(&o.entries[i].1, out);
        proof {
            assert(ev[i as int] == (o.entries@[i as int].0@, o.entries@[i as int].1@));
            let t = quoted(ev[i as int].0) + seq![':'] + json_text(ev[i as int].1);
            if i == 0 {
                assert(members_text(ev, 1) == t);
                assert(out@ =~= start + seq!['{'] + members_text(ev, (i + 1) as nat));
            } else {
                assert(members_text(ev, (i + 1) as nat) == members_text(ev, i as nat) + seq![',']
                    + t);
                assert(out@ =~= start + seq!['{'] + members_text(ev, (i + 1) as nat));
            }
        }
        i = i + 1;
    }
    out.append("}");
    assert(final(out)@ =~= old(out)@ + json_text(Json::Object(o.ordered())));
}

/// The compact JSON text of `v`.
pub fn json_string(v: &JsonValue) -> (text: String)
    ensures
        text@ == json_text(v@),
{
    let mut out = String::new();
    write_json(v, &mut out);
    assert(out@ =~= json_text(v@));
    out
}

impl View for JsonObject {
    type V = Map<Seq<char>, Json>;

    open spec fn view(&self) -> Map<Seq<char>, Json> {
        entries_map(self.ordered())
    }
}

} // verus!
