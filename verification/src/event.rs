//! One log line per event: the event's fields together with its time, level,
//! target and the span it happened in, as a JSON object.
use vstd::prelude::*;
use crate::fields::{
    apply_records, lemma_records_single_line, records_single_line, ErrorJsonVisitor, FieldRecord,
    FormatError,
};
use crate::read::{read_fields, read_object};
use crate::json::{
    texts_single_line, items_view, lemma_array_single_line,
    lemma_items_view, lemma_json_text_single_line, lemma_object_single_line, no_line_feed,
    object_json, object_text, values_single_line, Json, JsonObject, JsonValue,
};

verus! {

/// A span as the formatter sees it: its name, and the text that its fields were
/// written as.
pub struct SpanRecord {
    pub name: String,
    pub fields: String,
}

/// An event as the formatter sees it.
pub struct EventRecord {
    /// The time of the event, as text.
    pub timestamp: String,
    /// The level, such as `INFO`.
    pub level: String,
    pub target: String,
    /// The records of the event's fields, in order.
    pub fields: Vec<FieldRecord>,
    /// The span the event belongs to, if any: its explicit parent, else the current span.
    pub span: Option<SpanRecord>,
    /// The spans of the current scope from the root down, when there is a current span.
    pub scope: Option<Vec<SpanRecord>>,
}

/// A span named `name` whose fields were written as `text`, as JSON: the fields
/// read back from the text, and the name under `name`; nothing when the text is
/// no JSON object.
pub open spec fn span_fields_json(name: Seq<char>, text: Seq<char>) -> Option<Json> {
    match read_object(text) {
        Some(m) => Some(object_json(m.insert("name"@, Json::Str(name)))),
        None => None,
    }
}

/// A span as JSON.
pub open spec fn span_json(span: SpanRecord) -> Option<Json> {
    span_fields_json(span.name@, span.fields@)
}

/// Every span of the list can be turned into JSON.
pub open spec fn spans_ok(spans: Seq<SpanRecord>) -> bool {
    forall|i: int| 0 <= i < spans.len() ==> (#[trigger] span_json(spans[i])) is Some
}

/// The spans of a scope as a JSON array; an empty array when there is no scope.
pub open spec fn scope_json(scope: Option<Vec<SpanRecord>>) -> Json {
    match scope {
        Some(spans) => Json::Array(spans@.map_values(|s: SpanRecord| span_json(s).unwrap())),
        None => Json::Array(Seq::empty()),
    }
}

/// Whether an event can be formatted: its span, and the spans of its scope,
/// can all be turned into JSON.
pub open spec fn event_ok(e: EventRecord) -> bool {
    match e.span {
        None => true,
        Some(span) => span_json(span) is Some && match e.scope {
            None => true,
            Some(spans) => spans_ok(spans@),
        },
    }
}

/// The members of an event's line: `timestamp` and `level`, then the event's
/// fields (which win over those two), then `target`, then, when the event has a
/// span, `span` and `spans`.
pub open spec fn event_map(e: EventRecord) -> Map<Seq<char>, Json> {
    let base = Map::<Seq<char>, Json>::empty().insert("timestamp"@, Json::Str(e.timestamp@)).insert(
        "level"@,
        Json::Str(e.level@),
    ).union_prefer_right(apply_records(Map::empty(), e.fields@)).insert(
        "target"@,
        Json::Str(e.target@),
    );
    match e.span {
        None => base,
        Some(span) => base.insert("span"@, span_json(span).unwrap()).insert(
            "spans"@,
            scope_json(e.scope),
        ),
    }
}

/// Every line holds `timestamp` and `level`; each is the event's own unless one of
/// the event's field records sets a member of that name, whether or not the
/// event is in a span.
pub proof fn lemma_event_time_and_level(e: EventRecord)
    ensures
        event_map(e).contains_key("timestamp"@),
        event_map(e).contains_key("level"@),
        !apply_records(Map::empty(), e.fields@).contains_key("timestamp"@) ==> event_map(
            e,
        )["timestamp"@] == Json::Str(e.timestamp@),
        !apply_records(Map::empty(), e.fields@).contains_key("level"@) ==> event_map(e)["level"@]
            == Json::Str(e.level@),
{
    reveal_strlit("timestamp");
    reveal_strlit("level");
    reveal_strlit("target");
    reveal_strlit("span");
    reveal_strlit("spans");
    assert("timestamp"@ != "level"@) by {
        assert("timestamp"@[0] != "level"@[0]);
    }
    assert("timestamp"@ != "target"@) by {
        assert("timestamp"@[1] != "target"@[1]);
    }
    assert("timestamp"@ != "span"@) by {
        assert("timestamp"@[0] != "span"@[0]);
    }
    assert("timestamp"@ != "spans"@) by {
        assert("timestamp"@[0] != "spans"@[0]);
    }
    assert("level"@ != "target"@) by {
        assert("level"@[0] != "target"@[0]);
    }
    assert("level"@ != "span"@) by {
        assert("level"@[0] != "span"@[0]);
    }
    assert("level"@ != "spans"@) by {
        assert("level"@[0] != "spans"@[0]);
    }
}

/// Every line names the event's target under `target`; an event in a span names
/// that span under `span` and its scope under `spans`; and every field of the
/// event other than `target`, `span` and `spans` keeps the value it was recorded with.
pub proof fn lemma_event_members(e: EventRecord)
    ensures
        event_map(e).contains_key("target"@),
        event_map(e)["target"@] == Json::Str(e.target@),
        e.span is Some ==> event_map(e).contains_key("span"@) && event_map(e)["span"@]
            == span_json(e.span.unwrap()).unwrap(),
        e.span is Some ==> event_map(e).contains_key("spans"@) && event_map(e)["spans"@]
            == scope_json(e.scope),
        forall|k: Seq<char>|
            #[trigger] apply_records(Map::empty(), e.fields@).contains_key(k) && k != "target"@ && k
                != "span"@ && k != "spans"@ ==> event_map(e).contains_key(k) && event_map(e)[k]
                == apply_records(Map::empty(), e.fields@)[k],
{
    reveal_strlit("target");
    reveal_strlit("span");
    reveal_strlit("spans");
    assert("target"@ != "span"@) by {
        assert("target"@[0] != "span"@[0]);
    }
    assert("target"@ != "spans"@) by {
        assert("target"@[0] != "spans"@[0]);
    }
    assert("span"@ != "spans"@) by {
        assert("span"@.len() != "spans"@.len());
    }
}

/// The fields of a span hold no line feed in their held texts.
pub open spec fn span_single_line(span: SpanRecord) -> bool {
    read_object(span.fields@) matches Some(m) ==> m.dom().finite() && values_single_line(m)
}

/// No held text of an event, of its span or of its scope holds a line feed.
pub open spec fn event_single_line(e: EventRecord) -> bool {
    &&& records_single_line(e.fields@)
    &&& (e.span matches Some(span) ==> span_single_line(span))
    &&& (e.span is Some ==> (e.scope matches Some(spans) ==> forall|i: int|
        0 <= i < spans@.len() ==> span_single_line(#[trigger] spans@[i])))
}

proof fn lemma_span_json_single_line(span: SpanRecord)
    requires
        span_json(span) is Some,
        span_single_line(span),
    ensures
        texts_single_line(span_json(span).unwrap()),
{
    let o = read_object(span.fields@).unwrap();
    let m = o.insert("name"@, Json::Str(span.name@));
    assert(values_single_line(m)) by {
        assert forall|k: Seq<char>| #[trigger] m.contains_key(k) implies texts_single_line(m[k]) by {
            if k != "name"@ {
                assert(o.contains_key(k));
            }
        }
    }
    lemma_object_single_line(m);
}

/// Each event takes exactly one line: the JSON text of its members holds no line
/// feed (when no held text does), and `format_event` ends it with one.
pub proof fn lemma_event_single_line(e: EventRecord)
    requires
        event_ok(e),
        event_single_line(e),
    ensures
        no_line_feed(object_text(event_map(e))),
{
    let empty = Map::<Seq<char>, Json>::empty();
    assert(empty.dom() =~= Set::<Seq<char>>::empty());
    lemma_records_single_line(empty, e.fields@);
    let fm = apply_records(empty, e.fields@);
    let m = event_map(e);
    assert(m.dom().finite()) by {
        let m0 = empty.insert("timestamp"@, Json::Str(e.timestamp@)).insert(
            "level"@,
            Json::Str(e.level@),
        );
        assert(m0.dom().finite());
        assert(m0.union_prefer_right(fm).dom() =~= m0.dom() + fm.dom());
    }
    match e.span {
        Some(span) => {
            lemma_span_json_single_line(span);
            match e.scope {
                Some(spans) => {
                    let items = spans@.map_values(|s: SpanRecord| span_json(s).unwrap());
                    assert forall|i: int| 0 <= i < items.len() implies texts_single_line(
                        #[trigger] items[i],
                    ) by {
                        assert(span_json(spans@[i]) is Some);
                        assert(span_single_line(spans@[i]));
                        lemma_span_json_single_line(spans@[i]);
                    }
                    lemma_array_single_line(items);
                },
                None => {
                    lemma_array_single_line(Seq::empty());
                },
            }
        },
        None => {},
    }
    assert(values_single_line(m)) by {
        assert forall|k: Seq<char>| #[trigger] m.contains_key(k) implies texts_single_line(m[k]) by {
            if fm.contains_key(k) {
                assert(texts_single_line(fm[k]));
            }
        }
    }
    lemma_object_single_line(m);
    lemma_json_text_single_line(object_json(m));
}

/// A span as a JSON object: the fields read back from the text they were
/// written as, and its name under `name`. Fails when that text is no JSON object.
pub fn span_to_json(name: String, fields_text: &str) -> (r: Result<JsonValue, FormatError>)
    ensures
        r is Ok <==> read_object(fields_text@) is Some,
        r matches Ok(v) ==> v@ == span_fields_json(name@, fields_text@).unwrap(),
        r is Ok ==> read_object(fields_text@).unwrap().dom().finite() && values_single_line(
            read_object(fields_text@).unwrap(),
        ),
{
    match read_fields(fields_text) {
        Some(mut fields) => {
            fields.insert("name".to_owned(), JsonValue::Str(name));
            Ok(fields.into_json())
        },
        None => Err(FormatError),
    }
}

/// The spans of a scope as JSON values, root first.
fn spans_to_json(spans: Vec<SpanRecord>) -> (r: Result<Vec<JsonValue>, FormatError>)
    ensures
        r is Ok <==> spans_ok(spans@),
        r matches Ok(items) ==> Json::Array(items_view(items@, items@.len())) == scope_json(
            Some(spans),
        ),
        r is Ok ==> forall|i: int| 0 <= i < spans@.len() ==> span_single_line(#[trigger] spans@[i]),
{
    let ghost all = spans@;
    let total = spans.len();
    let mut rest = spans;
    let mut out: Vec<JsonValue> = Vec::new();
    let mut k: usize = 0;
    let mut ok = true;
    while rest.len() > 0
        invariant_except_break
            ok,
            rest@ == all.skip(k as int),
            out@.len() == k,
            forall|j: int| 0 <= j < k ==> (#[trigger] span_json(all[j])) is Some,
            forall|j: int| 0 <= j < k ==> Some(#[trigger] out@[j]@) == span_json(all[j]),
            forall|j: int| 0 <= j < k ==> span_single_line(#[trigger] all[j]),
        invariant
            k <= all.len(),
            all.len() == total,
        ensures
            !ok ==> !spans_ok(all),
            ok ==> rest@.len() == 0 && rest@ == all.skip(k as int) && out@.len() == k && (forall|
                j: int,
            | 0 <= j < k ==> Some(#[trigger] out@[j]@) == span_json(all[j])) && (forall|j: int|
                0 <= j < k ==> span_single_line(#[trigger] all[j])),
        decreases rest.len(),
    {
        let s = rest.remove(0);
        proof {
            assert(s == all[k as int]);
            assert(rest@ =~= all.skip(k + 1));
        }
        let SpanRecord { name, fields } = s;
        match span_to_json(name, fields.as_str()) {
            Ok(v) => {
                out.push(v);
            },
            Err(_) => {
                assert(span_json(all[k as int]) is None);
                assert(!spans_ok(all));
                ok = false;
                break;
            },
        }
        k = k + 1;
    }
    if !ok {
        return Err(FormatError);
    }
    proof {
        assert(all.skip(k as int).len() == 0);
        lemma_items_view(out@, out@.len());
        assert forall|j: int| 0 <= j < all.len() implies items_view(out@, out@.len())[j] == span_json(
            all[j],
        ).unwrap() by {
            assert(Some(out@[j]@) == span_json(all[j]));
        }
        assert forall|i: int| 0 <= i < all.len() implies (#[trigger] span_json(all[i])) is Some by {
            assert(Some(out@[i]@) == span_json(all[i]));
        }
        assert(spans_ok(all));
        assert(items_view(out@, out@.len()) =~= all.map_values(
            |s: SpanRecord| span_json(s).unwrap(),
        ));
    }
    Ok(out)
}

/// Formats events as one JSON object per line.
#[derive(Debug, Default)]
pub struct ErrorJsonFormat;

impl ErrorJsonFormat {
    /// The line of an event: the JSON text of its members, in ascending key
    /// order, which holds no line feed, and a line feed. Fails when a span's
    /// fields cannot be read back.
    pub fn format_event(&self, event: EventRecord) -> (r: Result<String, FormatError>)
        ensures
            r is Ok <==> event_ok(event),
            r matches Ok(line) ==> line@ == object_text(event_map(event)) + seq!['\n'],
            r is Ok ==> no_line_feed(object_text(event_map(event))),
    {
        let ghost e = event;
        let EventRecord { timestamp, level, target, fields, span, scope } = event;
        let mut event_fields = ErrorJsonVisitor::new();
        event_fields.record_all(fields);
        let mut output = JsonObject::new();
        output.insert("timestamp".to_owned(), JsonValue::Str(timestamp));
        output.insert("level".to_owned(), JsonValue::Str(level));
        output.extend(event_fields.into_object());
        output.insert("target".to_owned(), JsonValue::Str(target));
        match span {
            Some(span) => {
                let SpanRecord { name, fields: span_fields } = span;
                let span_value = span_to_json(name, span_fields.as_str())?;
                output.insert("span".to_owned(), span_value);
                let spans = match scope {
                    Some(scope) => spans_to_json(scope)?,
                    None => Vec::new(),
                };
                proof {
                    assert(span_single_line(e.span.unwrap()));
                    assert(e.scope matches Some(v) ==> forall|i: int|
                        0 <= i < v@.len() ==> span_single_line(#[trigger] v@[i]));
                    lemma_items_view(spans@, spans@.len());
                    if e.scope is None {
                        assert(items_view(spans@, spans@.len()) =~= Seq::<Json>::empty());
                    }
                }
                output.insert("spans".to_owned(), JsonValue::Array(spans));
            },
            None => {},
        }
        let mut line = output.to_json_text();
        proof {
            reveal_strlit("\n");
            lemma_event_single_line(e);
        }
        line.append("\n");
        Ok(line)
    }
}

} // verus!
