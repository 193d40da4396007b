//! The fields of an event or a span: what each kind of record sets, and the
//! JSON text that the fields are written as.
use vstd::prelude::*;
use crate::json::{
    no_line_feed, FloatText,
    items_view, json_text, texts_single_line, lemma_array_single_line, lemma_items_view, object_text,
    values_single_line, Json, JsonObject, JsonValue,
};
use crate::read::{
    as_texts, items_rereadable, lemma_as_texts_same_texts, lemma_same_texts_object_text,
    read_fields, read_object, rereadable, rereadable_fields, same_texts,
};
use crate::text::{has_prefix, lemma_has_prefix_chars, starts_with};

verus! {

/// Formatting could not go on (it stands for `std::fmt::Error`).
#[derive(Debug)]
pub struct FormatError;

/// One recorded field, as a visitor of the fields receives it.
pub enum FieldRecord {
    I64 { name: String, signed: i64 },
    U64 { name: String, unsigned: u64 },
    Bool { name: String, flag: bool },
    Str { name: String, text: String },
    Bytes { name: String, bytes: Vec<u8> },
    /// A floating-point field: the text JSON writes for it, or nothing when it is
    /// not finite (it is then written as `null`).
    Float { name: String, number: Option<FloatText> },
    /// A field recorded by its `Debug` text.
    Debug { name: String, text: String },
    /// A typed error: its message and the messages of its sources, outermost first.
    Error { name: String, message: String, sources: Vec<String> },
}

/// A byte string as a JSON array of its bytes.
pub open spec fn bytes_json(b: Seq<u8>) -> Json {
    Json::Array(b.map_values(|x: u8| Json::Int(x as int)))
}

/// A floating-point field as JSON: its text, or `null` when it is not finite.
pub open spec fn float_json(number: Option<FloatText>) -> Json {
    match number {
        Some(t) => Json::Text(t@),
        None => Json::Null,
    }
}

/// A list of messages as a JSON array of strings.
pub open spec fn messages_json(s: Seq<String>) -> Json {
    Json::Array(s.map_values(|m: String| Json::Str(m@)))
}

/// The key under which a `Debug` field is stored: its name without a leading `r#`.
pub open spec fn debug_key(name: Seq<char>) -> Seq<char> {
    if has_prefix(name, "r#"@) {
        name.skip("r#"@.len() as int)
    } else {
        name
    }
}

/// The key of the source chain of the error field `name`.
pub open spec fn chain_key(name: Seq<char>) -> Seq<char> {
    name + ".chain"@
}

/// What one record does to the fields.
pub open spec fn record_effect(m: Map<Seq<char>, Json>, r: FieldRecord) -> Map<Seq<char>, Json> {
    match r {
        FieldRecord::I64 { name, signed } => m.insert(name@, Json::Int(signed as int)),
        FieldRecord::U64 { name, unsigned } => m.insert(name@, Json::Int(unsigned as int)),
        FieldRecord::Bool { name, flag } => m.insert(name@, Json::Bool(flag)),
        FieldRecord::Str { name, text } => m.insert(name@, Json::Str(text@)),
        FieldRecord::Bytes { name, bytes } => m.insert(name@, bytes_json(bytes@)),
        FieldRecord::Float { name, number } => m.insert(name@, float_json(number)),
        FieldRecord::Debug { name, text } => if has_prefix(name@, "log."@) {
            m
        } else {
            m.insert(debug_key(name@), Json::Str(text@))
        },
        FieldRecord::Error { name, message, sources } => m.insert(
            name@,
            Json::Str(message@),
        ).insert(chain_key(name@), messages_json(sources@)),
    }
}

/// A typed error keeps its message under its name, and under the name followed
/// by `.chain` an array with one string per source, in the order given.
pub proof fn lemma_error_record(
    m: Map<Seq<char>, Json>,
    name: Seq<char>,
    message: Seq<char>,
    sources: Seq<String>,
)
    ensures
        ({
            let r = m.insert(name, Json::Str(message)).insert(chain_key(name), messages_json(sources));
            &&& r.contains_key(name) && r[name] == Json::Str(message)
            &&& r.contains_key(name + ".chain"@)
            &&& r[name + ".chain"@] matches Json::Array(items) && items.len() == sources.len()
                && forall|i: int| 0 <= i < items.len() ==> items[i] == Json::Str(sources[i]@)
        }),
{
    assert((name + ".chain"@).len() != name.len()) by {
        reveal_strlit(".chain");
    }
    assert(name + ".chain"@ != name);
}

/// Recording a typed error field sets exactly its message and its source chain,
/// one string per source in order.
pub proof fn lemma_error_field(m: Map<Seq<char>, Json>, name: String, message: String, sources: Vec<String>)
    ensures
        ({
            let r = record_effect(m, FieldRecord::Error { name, message, sources });
            &&& r.contains_key(name@) && r[name@] == Json::Str(message@)
            &&& r[name@ + ".chain"@] matches Json::Array(items) && items.len() == sources@.len()
                && forall|i: int| 0 <= i < items.len() ==> items[i] == Json::Str(sources@[i]@)
            &&& r.dom() == m.dom().insert(name@).insert(name@ + ".chain"@)
        }),
{
    lemma_error_record(m, name@, message@, sources@);
    let r = record_effect(m, FieldRecord::Error { name, message, sources });
    assert(r.dom() =~= m.dom().insert(name@).insert(name@ + ".chain"@));
}

/// A finite floating-point field is stored, and written, as exactly the text
/// given for it; one that is not finite as `null`.
pub proof fn lemma_float_field(m: Map<Seq<char>, Json>, name: String, number: Option<FloatText>)
    ensures
        ({
            let r = record_effect(m, FieldRecord::Float { name, number });
            &&& r.contains_key(name@)
            &&& number matches Some(t) ==> r[name@] == Json::Text(t@) && json_text(r[name@]) == t@
            &&& number is None ==> r[name@] == Json::Null
            &&& forall|k: Seq<char>| k != name@ ==> r.contains_key(k) == m.contains_key(k)
        }),
{
}

/// A field recorded by its `Debug` text is left out exactly when its name begins
/// with the four characters `log.`.
pub proof fn lemma_debug_dropped(name: Seq<char>)
    ensures
        has_prefix(name, "log."@) <==> (name.len() >= 4 && name[0] == 'l' && name[1] == 'o'
            && name[2] == 'g' && name[3] == '.'),
{
    reveal_strlit("log.");
    lemma_has_prefix_chars(name, "log."@);
    if name.len() >= 4 && name[0] == 'l' && name[1] == 'o' && name[2] == 'g' && name[3] == '.' {
        assert forall|i: int| 0 <= i < 4 implies #[trigger] name[i] == "log."@[i] by {}
    }
    if has_prefix(name, "log."@) {
        assert(name[0] == "log."@[0] && name[1] == "log."@[1] && name[2] == "log."@[2] && name[3]
            == "log."@[3]);
    }
}

/// A field recorded by its `Debug` text is stored under its name with a leading
/// `r#` taken off, and under its name unchanged when the name does not begin
/// with `r#`.
pub proof fn lemma_debug_key(name: Seq<char>)
    ensures
        (name.len() >= 2 && name[0] == 'r' && name[1] == '#') ==> debug_key(name) == name.skip(2),
        !(name.len() >= 2 && name[0] == 'r' && name[1] == '#') ==> debug_key(name) == name,
{
    reveal_strlit("r#");
    lemma_has_prefix_chars(name, "r#"@);
    if name.len() >= 2 && name[0] == 'r' && name[1] == '#' {
        assert forall|i: int| 0 <= i < 2 implies #[trigger] name[i] == "r#"@[i] by {}
    }
    if has_prefix(name, "r#"@) {
        assert(name[0] == "r#"@[0] && name[1] == "r#"@[1]);
    }
}

/// What a list of records does to the fields, applied in order.
pub open spec fn apply_records(m: Map<Seq<char>, Json>, rs: Seq<FieldRecord>) -> Map<
    Seq<char>,
    Json,
>
    decreases rs.len(),
{
    if rs.len() == 0 {
        m
    } else {
        record_effect(apply_records(m, rs.drop_last()), rs.last())
    }
}

/// Recording `a` and then `b` leaves the fields as recording `a` followed by `b`
/// in one go does.
pub proof fn lemma_records_compose(m: Map<Seq<char>, Json>, a: Seq<FieldRecord>, b: Seq<FieldRecord>)
    ensures
        apply_records(m, a + b) == apply_records(apply_records(m, a), b),
    decreases b.len(),
{
    if b.len() == 0 {
        assert(a + b =~= a);
    } else {
        lemma_records_compose(m, a, b.drop_last());
        assert((a + b).drop_last() =~= a + b.drop_last());
        assert((a + b).last() == b.last());
    }
}

/// A record puts no line feed into the fields through a held text.
pub open spec fn record_single_line(r: FieldRecord) -> bool {
    match r {
        FieldRecord::Float { number, .. } => number matches Some(t) ==> no_line_feed(t@),
        _ => true,
    }
}

/// No record of the list puts a line feed into the fields through a held text.
pub open spec fn records_single_line(rs: Seq<FieldRecord>) -> bool {
    forall|i: int| 0 <= i < rs.len() ==> record_single_line(#[trigger] rs[i])
}

/// Recording keeps the fields finite, and free of line feeds in their
/// held texts when the records bring none.
pub proof fn lemma_records_single_line(m: Map<Seq<char>, Json>, rs: Seq<FieldRecord>)
    requires
        m.dom().finite(),
        values_single_line(m),
        records_single_line(rs),
    ensures
        apply_records(m, rs).dom().finite(),
        values_single_line(apply_records(m, rs)),
    decreases rs.len(),
{
    if rs.len() > 0 {
        let pre = rs.drop_last();
        assert(records_single_line(pre)) by {
            assert forall|i: int| 0 <= i < pre.len() implies record_single_line(#[trigger] pre[i]) by {
                assert(pre[i] == rs[i]);
            }
        }
        lemma_records_single_line(m, pre);
        let before = apply_records(m, pre);
        let r = rs.last();
        assert(record_single_line(rs[rs.len() - 1]));
        match r {
            FieldRecord::Bytes { name, bytes } => {
                let items = bytes@.map_values(|x: u8| Json::Int(x as int));
                lemma_array_single_line(items);
            },
            FieldRecord::Error { name, message, sources } => {
                let items = sources@.map_values(|m: String| Json::Str(m@));
                lemma_array_single_line(items);
            },
            _ => {},
        }
        let after = record_effect(before, r);
        assert(values_single_line(after)) by {
            assert forall|k: Seq<char>| #[trigger] after.contains_key(k) implies texts_single_line(
                after[k],
            ) by {
                if before.contains_key(k) {
                    assert(texts_single_line(before[k]));
                }
            }
        }
    }
}

/// No record of the list is a floating-point field.
pub open spec fn records_plain(rs: Seq<FieldRecord>) -> bool {
    forall|i: int| 0 <= i < rs.len() ==> !(#[trigger] rs[i] is Float)
}

/// Recording keeps the fields finite.
pub proof fn lemma_records_finite(m: Map<Seq<char>, Json>, rs: Seq<FieldRecord>)
    requires
        m.dom().finite(),
    ensures
        apply_records(m, rs).dom().finite(),
    decreases rs.len(),
{
    if rs.len() > 0 {
        lemma_records_finite(m, rs.drop_last());
    }
}

/// The same records applied to fields written as the same texts give fields
/// written as the same texts.
pub proof fn lemma_records_same_texts(
    a: Map<Seq<char>, Json>,
    b: Map<Seq<char>, Json>,
    rs: Seq<FieldRecord>,
)
    requires
        same_texts(a, b),
    ensures
        same_texts(apply_records(a, rs), apply_records(b, rs)),
    decreases rs.len(),
{
    if rs.len() > 0 {
        lemma_records_same_texts(a, b, rs.drop_last());
        let pa = apply_records(a, rs.drop_last());
        let pb = apply_records(b, rs.drop_last());
        let na = record_effect(pa, rs.last());
        let nb = record_effect(pb, rs.last());
        assert(na.dom() =~= nb.dom());
        assert forall|k: Seq<char>| #[trigger] na.contains_key(k) implies json_text(na[k]) == json_text(
            nb[k],
        ) by {
            if pa.contains_key(k) {
                assert(json_text(pa[k]) == json_text(pb[k]));
            }
        }
    }
}

proof fn lemma_items_rereadable_all(items: Seq<Json>, n: nat, depth: nat)
    requires
        n <= items.len(),
        forall|i: int| 0 <= i < items.len() ==> rereadable(#[trigger] items[i], depth),
    ensures
        items_rereadable(items, n, depth),
    decreases n,
{
    if n > 0 {
        lemma_items_rereadable_all(items, (n - 1) as nat, depth);
    }
}

/// Records of no floating-point field leave rereadable fields rereadable.
pub proof fn lemma_records_rereadable(m: Map<Seq<char>, Json>, rs: Seq<FieldRecord>)
    requires
        rereadable_fields(m),
        records_plain(rs),
    ensures
        rereadable_fields(apply_records(m, rs)),
    decreases rs.len(),
{
    if rs.len() > 0 {
        let pre = rs.drop_last();
        assert(records_plain(pre)) by {
            assert forall|i: int| 0 <= i < pre.len() implies !(#[trigger] pre[i] is Float) by {
                assert(pre[i] == rs[i]);
            }
        }
        lemma_records_rereadable(m, pre);
        let before = apply_records(m, pre);
        let r = rs.last();
        assert(!(rs[rs.len() - 1] is Float));
        match r {
            FieldRecord::Bytes { name, bytes } => {
                let items = bytes@.map_values(|x: u8| Json::Int(x as int));
                lemma_items_rereadable_all(items, items.len(), 63);
            },
            FieldRecord::Error { name, message, sources } => {
                let items = sources@.map_values(|m: String| Json::Str(m@));
                lemma_items_rereadable_all(items, items.len(), 63);
            },
            _ => {},
        }
        let after = record_effect(before, r);
        assert forall|k: Seq<char>| #[trigger] after.contains_key(k) implies rereadable(after[k], 64) by {
            if before.contains_key(k) {
                assert(rereadable(before[k], 64));
            }
        }
    }
}

/// The fields that records of no floating-point field set can be read
/// back from their text, and recording `first` then `later` sets the fields that
/// recording all of them at once sets. So `add_fields` on the text that
/// `format_fields` wrote for `first` gives the text of `first` followed by `later`.
pub proof fn lemma_late_records_merge(first: Seq<FieldRecord>, later: Seq<FieldRecord>)
    requires
        records_plain(first),
    ensures
        rereadable_fields(apply_records(Map::empty(), first)),
        apply_records(apply_records(Map::empty(), first), later) == apply_records(
            Map::empty(),
            first + later,
        ),
{
    let empty = Map::<Seq<char>, Json>::empty();
    assert(empty.dom() =~= Set::<Seq<char>>::empty());
    lemma_records_rereadable(empty, first);
    lemma_records_compose(empty, first, later);
}

/// Whether a field recorded by its `Debug` text is kept: not when its name
/// begins with `log.`.
pub fn keeps_debug_field(name: &str) -> (keep: bool)
    ensures
        keep == !has_prefix(name@, "log."@),
{
    !starts_with(name, "log.")
}

/// The fields of an event or a span, keyed by field name.
pub struct ErrorJsonVisitor {
    values: JsonObject,
}

impl View for ErrorJsonVisitor {
    type V = Map<Seq<char>, Json>;

    closed spec fn view(&self) -> Map<Seq<char>, Json> {
        self.values@
    }
}

impl ErrorJsonVisitor {
    /// No field yet.
    pub fn new() -> (v: ErrorJsonVisitor)
        ensures
            v@ == Map::<Seq<char>, Json>::empty(),
    {
        ErrorJsonVisitor { values: JsonObject::new() }
    }

    /// The fields of an object written earlier.
    pub fn from_object(values: JsonObject) -> (v: ErrorJsonVisitor)
        ensures
            v@ == values@,
    {
        ErrorJsonVisitor { values }
    }

    /// The fields as a JSON object.
    pub fn into_object(self) -> (o: JsonObject)
        ensures
            o@ == self@,
    {
        self.values
    }

    /// Sets the field `name`.
    pub fn insert(&mut self, name: &str, value: JsonValue)
        ensures
            final(self)@ == old(self)@.insert(name@, value@),
    {
        self.values.insert(name.to_owned(), value);
    }

    pub fn record_i64(&mut self, name: &str, value: i64)
        ensures
            final(self)@ == old(self)@.insert(name@, Json::Int(value as int)),
    {
        self.insert(name, JsonValue::Int(value));
    }

    pub fn record_u64(&mut self, name: &str, value: u64)
        ensures
            final(self)@ == old(self)@.insert(name@, Json::Int(value as int)),
    {
        self.insert(name, JsonValue::UInt(value));
    }

    pub fn record_bool(&mut self, name: &str, value: bool)
        ensures
            final(self)@ == old(self)@.insert(name@, Json::Bool(value)),
    {
        self.insert(name, JsonValue::Bool(value));
    }

    pub fn record_str(&mut self, name: &str, value: &str)
        ensures
            final(self)@ == old(self)@.insert(name@, Json::Str(value@)),
    {
        self.insert(name, JsonValue::Str(value.to_owned()));
    }

    /// Records a floating-point field by the text JSON writes for it, or as `null`
    /// when it is not finite.
    pub fn record_float(&mut self, name: &str, number: Option<FloatText>)
        ensures
            final(self)@ == old(self)@.insert(name@, float_json(number)),
            number matches Some(t) ==> final(self)@[name@] == Json::Text(t@),
            number is None ==> final(self)@[name@] == Json::Null,
    {
        match number {
            Some(t) => self.insert(name, JsonValue::Text(t.into_text())),
            None => self.insert(name, JsonValue::Null),
        }
    }

    /// Records the bytes as an array of numbers.
    pub fn record_bytes(&mut self, name: &str, value: &[u8])
        ensures
            final(self)@ == old(self)@.insert(name@, bytes_json(value@)),
    {
        let mut items: Vec<JsonValue> = Vec::new();
        let n = value.len();
        let mut i: usize = 0;
        while i < n
            invariant
                n == value@.len(),
                i <= n,
                items@.len() == i,
                forall|j: int| 0 <= j < i ==> #[trigger] items@[j] == JsonValue::UInt(value@[j] as u64),
            decreases n - i,
        {
            items.push(JsonValue::UInt(value[i] as u64));
            i = i + 1;
        }
        proof {
            lemma_items_view(items@, items@.len());
            assert(items_view(items@, items@.len()) =~= value@.map_values(|x: u8| Json::Int(x as int)));
        }
        self.insert(name, JsonValue::Array(items));
    }

    /// Records a field by its `Debug` text. A field whose name begins with `log.`
    /// is left out; a leading `r#` is taken off the name.
    pub fn record_debug(&mut self, name: &str, text: String)
        ensures
            has_prefix(name@, "log."@) ==> final(self)@ == old(self)@,
            !has_prefix(name@, "log."@) ==> final(self)@ == old(self)@.insert(
                debug_key(name@),
                Json::Str(text@),
            ),
            !has_prefix(name@, "log."@) && !(name@.len() >= 2 && name@[0] == 'r' && name@[1]
                == '#') ==> final(self)@ == old(self)@.insert(name@, Json::Str(text@)),
    {
        proof {
            lemma_debug_key(name@);
        }
        if !keeps_debug_field(name) {
            return;
        }
        proof {
            reveal_strlit("r#");
        }
        let key = if starts_with(name, "r#") {
            name.substring_char(2, name.unicode_len())
        } else {
            name
        };
        assert(key@ == debug_key(name@));
        self.insert(key, JsonValue::Str(text));
    }

    /// Records a typed error: its message under `name`, and the messages of its
    /// sources, outermost first, as an array under `name` followed by `.chain`.
    pub fn record_error(&mut self, name: &str, message: String, sources: &Vec<String>)
        ensures
            final(self)@ == old(self)@.insert(name@, Json::Str(message@)).insert(
                chain_key(name@),
                messages_json(sources@),
            ),
            final(self)@[name@] == Json::Str(message@),
            final(self)@[name@ + ".chain"@] matches Json::Array(items) && items.len()
                == sources@.len() && forall|i: int|
                0 <= i < items.len() ==> items[i] == Json::Str(sources@[i]@),
    {
        proof {
            lemma_error_record(old(self)@, name@, message@, sources@);
        }
        self.insert(name, JsonValue::Str(message));
        let mut chain: Vec<JsonValue> = Vec::new();
        let n = sources.len();
        let mut i: usize = 0;
        while i < n
            invariant
                n == sources@.len(),
                i <= n,
                chain@.len() == i,
                forall|j: int| 0 <= j < i ==> #[trigger] chain@[j] == JsonValue::Str(sources@[j]),
            decreases n - i,
        {
            chain.push(JsonValue::Str(sources[i].clone()));
            i = i + 1;
        }
        proof {
            lemma_items_view(chain@, chain@.len());
            assert(items_view(chain@, chain@.len()) =~= sources@.map_values(
                |m: String| Json::Str(m@),
            ));
        }
        let mut key = name.to_owned();
        key.append(".chain");
        self.insert(key.as_str(), JsonValue::Array(chain));
    }

    /// Applies one record.
    pub fn record(&mut self, r: FieldRecord)
        ensures
            final(self)@ == record_effect(old(self)@, r),
            record_single_line(r),
    {
        proof {
            if let FieldRecord::Float { number: Some(t), .. } = &r {
                use_type_invariant(t);
            }
        }
        match r {
            FieldRecord::I64 { name, signed } => self.record_i64(name.as_str(), signed),
            FieldRecord::U64 { name, unsigned } => self.record_u64(name.as_str(), unsigned),
            FieldRecord::Bool { name, flag } => self.record_bool(name.as_str(), flag),
            FieldRecord::Str { name, text } => self.record_str(name.as_str(), text.as_str()),
            FieldRecord::Bytes { name, bytes } => self.record_bytes(name.as_str(), bytes.as_slice()),
            FieldRecord::Float { name, number } => self.record_float(name.as_str(), number),
            FieldRecord::Debug { name, text } => self.record_debug(name.as_str(), text),
            FieldRecord::Error { name, message, sources } => self.record_error(
                name.as_str(),
                message,
                &sources,
            ),
        }
    }

    /// Applies the records in order.
    pub fn record_all(&mut self, records: Vec<FieldRecord>)
        ensures
            final(self)@ == apply_records(old(self)@, records@),
            records_single_line(records@),
    {
        let ghost all = records@;
        let ghost start = self@;
        let total = records.len();
        let mut rest = records;
        let mut k: usize = 0;
        while rest.len() > 0
            invariant
                k <= all.len(),
                all.len() == total,
                rest@ == all.skip(k as int),
                self@ == apply_records(start, all.take(k as int)),
                forall|j: int| 0 <= j < k ==> record_single_line(#[trigger] all[j]),
            decreases rest.len(),
        {
            let r = rest.remove(0);
            proof {
                assert(r == all[k as int]);
                assert(all.take(k + 1).drop_last() =~= all.take(k as int));
                assert(rest@ =~= all.skip(k + 1));
            }
            self.record(r);
            k = k + 1;
        }
        proof {
            assert(all.take(k as int) =~= all);
            assert(all.skip(k as int).len() == 0);
        }
    }

    /// The compact JSON text of the fields, in ascending name order.
    pub fn to_json_text(&self) -> (text: String)
        ensures
            text@ == object_text(self@),
    {
        self.values.to_json_text()
    }
}

/// Formats the fields of events and spans as one JSON object.
#[derive(Debug, Default)]
pub struct ErrorJsonFields;

/// The fields that `add_fields` starts from: none when nothing was written yet,
/// else those read back from what was written.
pub open spec fn start_fields(current: Seq<char>) -> Map<Seq<char>, Json> {
    if current.len() == 0 {
        Map::empty()
    } else {
        read_object(current).unwrap()
    }
}

impl ErrorJsonFields {
    /// The JSON text of the fields that the records set.
    pub fn format_fields(&self, records: Vec<FieldRecord>) -> (text: String)
        ensures
            text@ == object_text(apply_records(Map::empty(), records@)),
    {
        let mut visitor = ErrorJsonVisitor::new();
        visitor.record_all(records);
        visitor.to_json_text()
    }

    /// The fields written earlier as the text `current`: none when it is empty,
    /// else those read back from it. Fails when `current` is not empty and is no
    /// JSON object.
    pub fn read_current(&self, current: &str) -> (r: Result<ErrorJsonVisitor, FormatError>)
        ensures
            r is Ok <==> (current@.len() == 0 || read_object(current@) is Some),
            r matches Ok(v) ==> v@ == start_fields(current@) && v@.dom().finite(),
            forall|m: Map<Seq<char>, Json>|
                #![trigger object_text(m)]
                rereadable_fields(m) && current@ == object_text(m) ==> (r matches Ok(v) && v@
                    == as_texts(m)),
    {
        if current.is_empty() {
            let v = ErrorJsonVisitor::new();
            proof {
                assert(v@.dom() =~= Set::<Seq<char>>::empty());
            }
            Ok(v)
        } else {
            match read_fields(current) {
                Some(values) => Ok(ErrorJsonVisitor::from_object(values)),
                None => Err(FormatError),
            }
        }
    }

    /// Adds records to the fields written earlier as the text `current`, and
    /// writes them all. Fails when `current` is not empty and is no JSON object.
    pub fn add_fields(&self, current: &str, records: Vec<FieldRecord>) -> (r: Result<
        String,
        FormatError,
    >)
        ensures
            r is Ok <==> (current@.len() == 0 || read_object(current@) is Some),
            r matches Ok(text) ==> text@ == object_text(
                apply_records(start_fields(current@), records@),
            ),
            forall|m: Map<Seq<char>, Json>|
                #![trigger object_text(m)]
                rereadable_fields(m) && current@ == object_text(m) ==> (r matches Ok(text) && text@
                    == object_text(apply_records(m, records@))),
    {
        let mut visitor = self.read_current(current)?;
        let ghost start = visitor@;
        let ghost rs = records@;
        visitor.record_all(records);
        let text = visitor.to_json_text();
        proof {
            assert forall|m: Map<Seq<char>, Json>|
                #![trigger object_text(m)]
                rereadable_fields(m) && current@ == object_text(m) implies object_text(
                apply_records(start, rs),
            ) == object_text(apply_records(m, rs)) by {
                lemma_as_texts_same_texts(m);
                lemma_records_same_texts(as_texts(m), m, rs);
                lemma_records_finite(as_texts(m), rs);
                lemma_same_texts_object_text(apply_records(as_texts(m), rs), apply_records(m, rs));
            }
        }
        Ok(text)
    }
}

} // verus!
