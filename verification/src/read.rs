//! Reading fields back from the JSON text they were written as.
use vstd::prelude::*;
use crate::json::{
    canonical_entries, entries_map, json_text, keys_ascending, lemma_ascending_entries_unique,
    lemma_canonical_entries_exist, lemma_entries_map, members_text, no_line_feed, object_text,
    texts_single_line, values_single_line, Json, JsonObject, JsonValue,
};

verus! {

/// The members of the JSON object that `text` holds, as `serde_json` reads it into
/// a map (a later duplicate key winning), each value held as the compact JSON
/// text that `serde_json` writes for it; nothing when `text` is no JSON object.
pub uninterp spec fn read_object(text: Seq<char>) -> Option<Map<Seq<char>, Json>>;

/// The members that a list of keys and value texts describes.
pub open spec fn text_members(ms: Seq<(String, String)>) -> Seq<(Seq<char>, Json)> {
    ms.map_values(|e: (String, String)| (e.0@, Json::Text(e.1@)))
}

/// A value that `serde_json` reads back as the same value: no held text inside,
/// integers within the range of `i64` and `u64`, object members in ascending key
/// order, and arrays and objects nested at most `depth` deep.
pub open spec fn rereadable(j: Json, depth: nat) -> bool
    decreases j, 0nat,
{
    match j {
        Json::Text(_) => false,
        Json::Int(i) => -0x8000_0000_0000_0000 <= i < 0x1_0000_0000_0000_0000,
        Json::Array(items) => depth > 0 && items_rereadable(items, items.len(), (depth - 1) as nat),
        Json::Object(es) => depth > 0 && keys_ascending(es) && members_rereadable(
            es,
            es.len(),
            (depth - 1) as nat,
        ),
        _ => true,
    }
}

/// The first `n` items are rereadable at most `depth` deep.
pub open spec fn items_rereadable(items: Seq<Json>, n: nat, depth: nat) -> bool
    decreases items, n,
{
    if n == 0 || n > items.len() {
        true
    } else {
        items_rereadable(items, (n - 1) as nat, depth) && rereadable(items[n - 1], depth)
    }
}

/// The values of the first `n` members are rereadable at most `depth` deep.
pub open spec fn members_rereadable(es: Seq<(Seq<char>, Json)>, n: nat, depth: nat) -> bool
    decreases es, n,
{
    if n == 0 || n > es.len() {
        true
    } else {
        members_rereadable(es, (n - 1) as nat, depth) && rereadable(es[n - 1].1, depth)
    }
}

/// Fields whose written text `serde_json` reads back as the same fields:
/// finitely many, each value rereadable at most 64 deep.
pub open spec fn rereadable_fields(m: Map<Seq<char>, Json>) -> bool {
    &&& m.dom().finite()
    &&& forall|k: Seq<char>| #[trigger] m.contains_key(k) ==> rereadable(m[k], 64)
}

/// The fields with each value held as its JSON text.
pub open spec fn as_texts(m: Map<Seq<char>, Json>) -> Map<Seq<char>, Json> {
    m.map_values(|v: Json| Json::Text(json_text(v)))
}

/// Two maps with the same keys whose values are written as the same texts.
pub open spec fn same_texts(a: Map<Seq<char>, Json>, b: Map<Seq<char>, Json>) -> bool {
    &&& a.dom() == b.dom()
    &&& forall|k: Seq<char>| #[trigger] a.contains_key(k) ==> json_text(a[k]) == json_text(b[k])
}

/// Calls `serde_json::from_str` into a `serde_json::Map<String, Value>` and writes
/// each value back with `Value`'s `Display` (its compact text). The map is a
/// `BTreeMap` (no `preserve_order` feature), so its members come out in ascending
/// key order. The compact writer escapes line feeds inside strings and writes
/// none elsewhere. A text that the library wrote for rereadable fields reads
/// back as those fields (strings, integers and the member order come back as
/// written), each value held as the text written for it.
#[verifier::external_body]
fn parse_fields(text: &str) -> (r: Option<Vec<(String, String)>>)
    ensures
        r is Some <==> read_object(text@) is Some,
        r matches Some(ms) ==> keys_ascending(text_members(ms@)) && entries_map(text_members(ms@))
            == read_object(text@).unwrap(),
        r matches Some(ms) ==> forall|i: int| 0 <= i < ms@.len() ==> no_line_feed(#[trigger] ms@[i].1@),
        r is None ==> forall|m: Map<Seq<char>, Json>|
            #![trigger object_text(m)]
            !(rereadable_fields(m) && text@ == object_text(m)),
        r is Some ==> forall|m: Map<Seq<char>, Json>|
            #![trigger object_text(m)]
            rereadable_fields(m) && text@ == object_text(m) ==> read_object(text@) == Some(
                as_texts(m),
            ),
{
    match serde_json::from_str::<serde_json::Map<String, serde_json::Value>>(text) {
        Ok(map) => Some(map.into_iter().map(|(key, value)| (key, value.to_string())).collect()),
        Err(_) => None,
    }
}

/// The fields that `text` holds, each value held as its JSON text; nothing when
/// `text` is no JSON object.
pub fn read_fields(text: &str) -> (r: Option<JsonObject>)
    ensures
        r is Some <==> read_object(text@) is Some,
        r matches Some(o) ==> o@ == read_object(text@).unwrap(),
        r matches Some(o) ==> o@.dom().finite() && values_single_line(o@),
        forall|m: Map<Seq<char>, Json>|
            #![trigger object_text(m)]
            rereadable_fields(m) && text@ == object_text(m) ==> (r matches Some(o) && o@ == as_texts(
                m,
            )),
{
    match parse_fields(text) {
        None => None,
        Some(members) => {
            let ghost all = members@;
            let total = members.len();
            let mut rest = members;
            let mut o = JsonObject::new();
            let mut k: usize = 0;
            while rest.len() > 0
                invariant
                    k <= all.len(),
                    all.len() == total,
                    rest@ == all.skip(k as int),
                    o@ == entries_map(text_members(all.take(k as int))),
                decreases rest.len(),
            {
                let (key, value) = rest.remove(0);
                proof {
                    assert((key, value) == all[k as int]);
                    assert(rest@ =~= all.skip(k + 1));
                    assert(text_members(all.take(k + 1)).drop_last() =~= text_members(
                        all.take(k as int),
                    ));
                }
                o.insert(key, JsonValue::Text(value));
                k = k + 1;
            }
            proof {
                assert(all.skip(k as int).len() == 0);
                assert(all.take(k as int) =~= all);
                let es = text_members(all);
                lemma_entries_map(es);
                crate::json::lemma_entries_map_finite(es);
                assert forall|key: Seq<char>| #[trigger] o@.contains_key(key) implies texts_single_line(
                    o@[key],
                ) by {
                    let i = choose|i: int| 0 <= i < es.len() && es[i].0 == key;
                    assert(no_line_feed(all[i].1@));
                }
            }
            Some(o)
        },
    }
}

proof fn lemma_members_text_congruent(
    a: Seq<(Seq<char>, Json)>,
    b: Seq<(Seq<char>, Json)>,
    n: nat,
)
    requires
        a.len() == b.len(),
        n <= a.len(),
        forall|i: int|
            0 <= i < a.len() ==> #[trigger] a[i].0 == b[i].0 && json_text(a[i].1) == json_text(
                b[i].1,
            ),
    ensures
        members_text(a, n) == members_text(b, n),
    decreases n,
{
    if n > 1 {
        lemma_members_text_congruent(a, b, (n - 1) as nat);
        assert(a[n - 1].0 == b[n - 1].0);
    } else if n == 1 {
        assert(a[0].0 == b[0].0);
    }
}

/// Fields written as the same texts, key by key, are written as the same object text.
pub proof fn lemma_same_texts_object_text(a: Map<Seq<char>, Json>, b: Map<Seq<char>, Json>)
    requires
        a.dom().finite(),
        same_texts(a, b),
    ensures
        object_text(a) == object_text(b),
{
    lemma_canonical_entries_exist(a);
    lemma_canonical_entries_exist(b);
    let ea = canonical_entries(a);
    let eb = canonical_entries(b);
    lemma_entries_map(ea);
    let ec = Seq::new(ea.len(), |i: int| (ea[i].0, b[ea[i].0]));
    assert(keys_ascending(ec)) by {
        assert forall|i: int, j: int| 0 <= i < j < ec.len() implies crate::text::chars_lt(
            #[trigger] ec[i].0,
            #[trigger] ec[j].0,
        ) by {
            assert(ec[i].0 == ea[i].0 && ec[j].0 == ea[j].0);
        }
    }
    lemma_entries_map(ec);
    assert forall|k: Seq<char>| #[trigger] entries_map(ec).contains_key(k) <==> b.contains_key(k) by {
        if entries_map(ec).contains_key(k) {
            let i = choose|i: int| 0 <= i < ec.len() && ec[i].0 == k;
            assert(a.contains_key(ea[i].0));
        }
        if b.contains_key(k) {
            assert(a.contains_key(k));
            let i = choose|i: int| 0 <= i < ea.len() && ea[i].0 == k;
            assert(ec[i].0 == k);
        }
    }
    assert forall|k: Seq<char>| #[trigger] entries_map(ec).contains_key(k) implies entries_map(ec)[k]
        == b[k] by {
        let i = choose|i: int| 0 <= i < ec.len() && ec[i].0 == k;
        assert(ec[i] == (ea[i].0, b[ea[i].0]));
    }
    assert(entries_map(ec) =~= b);
    lemma_ascending_entries_unique(ec, eb);
    assert forall|i: int| 0 <= i < ea.len() implies #[trigger] ea[i].0 == ec[i].0 && json_text(ea[i].1)
        == json_text(ec[i].1) by {
        assert(a.contains_key(ea[i].0));
    }
    lemma_members_text_congruent(ea, ec, ea.len());
}

/// Holding each value as its text changes nothing of what is written.
pub proof fn lemma_as_texts_same_texts(m: Map<Seq<char>, Json>)
    ensures
        same_texts(as_texts(m), m),
        m.dom().finite() ==> as_texts(m).dom().finite(),
{
    assert(as_texts(m).dom() =~= m.dom());
}

} // verus!
