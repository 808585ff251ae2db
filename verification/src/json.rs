//! JSON values, read for what they hold.
use crate::text::chars_of;
use vstd::prelude::*;

verus! {

/// `serde_json::Value`, a JSON value.
#[verifier::external_type_specification]
#[verifier::external_body]
pub struct ExValue(serde_json::Value);

/// A JSON value: a number has the whole number that it is, where it is one that 64 bits hold, and
/// the text that it is written as; an object has its entries in the order of their keys.
pub ghost enum JsonView {
    Null,
    Bool(bool),
    Number(Option<u64>, Seq<char>),
    Text(Seq<char>),
    Array(Seq<JsonView>),
    Object(Seq<(Seq<char>, JsonView)>),
}

/// What a JSON value holds.
pub uninterp spec fn json_contents(v: serde_json::Value) -> JsonView;

/// The JSON value that some bytes are; nothing for other bytes.
pub uninterp spec fn json_parse(bytes: Seq<u8>) -> Option<JsonView>;

/// `serde_json::from_slice` reads a JSON value; of entries with the same key it keeps one.
#[verifier::external_body]
pub(crate) fn parse_json(bytes: &[u8]) -> (r: Option<serde_json::Value>)
    ensures
        match r {
            Some(v) => json_parse(bytes@) == Some(json_contents(v)),
            None => json_parse(bytes@) is None,
        },
{
    serde_json::from_slice(bytes).ok()
}

/// What some JSON values hold.
pub open spec fn values_of(items: Seq<serde_json::Value>) -> Seq<JsonView> {
    Seq::new(items.len(), |i: int| json_contents(items[i]))
}

/// The keys of some entries, and what their values hold.
pub open spec fn entries_of(entries: Seq<(&String, &serde_json::Value)>) -> Seq<
    (Seq<char>, JsonView),
> {
    Seq::new(entries.len(), |i: int| (entries[i].0@, json_contents(*entries[i].1)))
}

/// `serde_json::Value::is_null` tells null from every other value.
pub assume_specification[ serde_json::Value::is_null ](v: &serde_json::Value) -> (r: bool)
    ensures
        r == (json_contents(*v) is Null),
;

/// `serde_json::Value::as_bool` gives a truth value, and nothing for any other value.
pub assume_specification[ serde_json::Value::as_bool ](v: &serde_json::Value) -> (r: Option<bool>)
    ensures
        match r {
            Some(b) => json_contents(*v) == JsonView::Bool(b),
            None => !(json_contents(*v) is Bool),
        },
;

/// `serde_json::Value::as_u64` gives the whole number that a number is, where 64 bits hold it, and
/// nothing for any other value.
pub assume_specification[ serde_json::Value::as_u64 ](v: &serde_json::Value) -> (r: Option<u64>)
    ensures
        match r {
            Some(n) => json_contents(*v) matches JsonView::Number(Some(m), _) && m == n,
            None => !(json_contents(*v) matches JsonView::Number(Some(_), _)),
        },
;

/// `serde_json::Value::as_str` gives a text, and nothing for any other value.
pub assume_specification<'a>[ serde_json::Value::as_str ](v: &'a serde_json::Value) -> (r: Option<
    &'a str,
>)
    ensures
        match r {
            Some(s) => json_contents(*v) == JsonView::Text(s@),
            None => !(json_contents(*v) is Text),
        },
;

/// `serde_json::Value::as_array` gives the items of an array, and nothing for any other value.
pub assume_specification<'a>[ serde_json::Value::as_array ](v: &'a serde_json::Value) -> (r: Option<
    &'a Vec<serde_json::Value>,
>)
    ensures
        match r {
            Some(items) => json_contents(*v) == JsonView::Array(values_of(items@)),
            None => !(json_contents(*v) is Array),
        },
;

/// `serde_json::Value::as_object` and `serde_json::Map::iter` give the entries of an object, in
/// the order of their keys, and nothing for any other value.
#[verifier::external_body]
pub(crate) fn object_entries(v: &serde_json::Value) -> (r: Option<Vec<(&String, &serde_json::Value)>>)
    ensures
        match r {
            Some(entries) => json_contents(*v) == JsonView::Object(entries_of(entries@)),
            None => !(json_contents(*v) is Object),
        },
{
    v.as_object().map(|m| m.iter().collect())
}

/// Whether two texts are the same.
pub fn same_text(a: &str, b: &str) -> (r: bool)
    ensures
        r == (a@ == b@),
{
    let x: Vec<char> = chars_of(a);
    let y: Vec<char> = chars_of(b);
    if x.len() != y.len() {
        return false;
    }
    let mut i: usize = 0;
    while i < x.len()
        invariant
            i <= x@.len(),
            x@ == a@,
            y@ == b@,
            x@.len() == y@.len(),
            forall|j: int| 0 <= j < i ==> #[trigger] x@[j] == y@[j],
        decreases x@.len() - i,
    {
        if x[i] != y[i] {
            return false;
        }
        i = i + 1;
    }
    assert(x@ =~= y@);
    true
}

/// The value of a key among some entries.
pub open spec fn keyed(entries: Seq<(Seq<char>, JsonView)>, key: Seq<char>) -> Option<JsonView>
    decreases entries.len(),
{
    if entries.len() == 0 {
        None
    } else if entries[0].0 == key {
        Some(entries[0].1)
    } else {
        keyed(entries.skip(1), key)
    }
}

/// The value of a key of an object; any other value has no keys.
pub open spec fn member(v: JsonView, key: Seq<char>) -> Option<JsonView> {
    match v {
        JsonView::Object(entries) => keyed(entries, key),
        _ => None,
    }
}

/// What a value that may be missing holds.
pub open spec fn contents_if_any(v: Option<&serde_json::Value>) -> Option<JsonView> {
    match v {
        Some(v) => Some(json_contents(*v)),
        None => None,
    }
}

/// Finds the value of a key of an object.
pub fn find_member<'a>(v: &'a serde_json::Value, key: &str) -> (r: Option<&'a serde_json::Value>)
    ensures
        contents_if_any(r) == member(json_contents(*v), key@),
{
    let entries: Vec<(&'a String, &'a serde_json::Value)> = match object_entries(v) {
        Some(entries) => entries,
        None => {
            return None;
        },
    };
    let ghost all = entries_of(entries@);
    let mut i: usize = 0;
    assert(all.skip(0) =~= all);
    while i < entries.len()
        invariant
            i <= entries@.len(),
            all == entries_of(entries@),
            json_contents(*v) == JsonView::Object(all),
            keyed(all, key@) == keyed(all.skip(i as int), key@),
        decreases entries@.len() - i,
    {
        assert(all.skip(i as int)[0] == all[i as int]);
        assert(all.skip(i as int).skip(1) =~= all.skip(i + 1));
        if same_text(entries[i].0.as_str(), key) {
            return Some(entries[i].1);
        }
        i = i + 1;
    }
    None
}

/// Whether a value is missing or null.
pub open spec fn is_unset(v: Option<JsonView>) -> bool {
    match v {
        Some(JsonView::Null) | None => true,
        _ => false,
    }
}

/// Whether a value is missing or null.
pub fn unset(v: Option<&serde_json::Value>) -> (r: bool)
    ensures
        r == is_unset(contents_if_any(v)),
{
    match v {
        Some(v) => v.is_null(),
        None => true,
    }
}

/// Whether a value is a given text.
pub fn is_text(v: Option<&serde_json::Value>, s: &str) -> (r: bool)
    ensures
        r == (contents_if_any(v) == Some(JsonView::Text(s@))),
{
    match v {
        Some(v) => match v.as_str() {
            Some(t) => same_text(t, s),
            None => false,
        },
        None => false,
    }
}

/// Whether a value is false.
pub fn is_false(v: Option<&serde_json::Value>) -> (r: bool)
    ensures
        r == (contents_if_any(v) == Some(JsonView::Bool(false))),
{
    match v {
        Some(v) => match v.as_bool() {
            Some(b) => !b,
            None => false,
        },
        None => false,
    }
}

/// The texts of some keys.
pub open spec fn key_texts(keys: Seq<&str>) -> Seq<Seq<char>> {
    Seq::new(keys.len(), |i: int| keys[i]@)
}

/// Whether some entries have no keys but the given ones.
pub open spec fn are_keyed_by(entries: Seq<(Seq<char>, JsonView)>, keys: Seq<Seq<char>>) -> bool {
    forall|i: int| 0 <= i < entries.len() ==> keys.contains((#[trigger] entries[i]).0)
}

/// Whether a value is an object with no keys but the given ones.
pub open spec fn has_only(v: JsonView, keys: Seq<Seq<char>>) -> bool {
    match v {
        JsonView::Object(entries) => are_keyed_by(entries, keys),
        _ => false,
    }
}

/// Whether a value is an object with no keys but the given ones.
pub fn only_keys(v: &serde_json::Value, keys: &[&str]) -> (r: bool)
    ensures
        r == has_only(json_contents(*v), key_texts(keys@)),
{
    let entries: Vec<(&String, &serde_json::Value)> = match object_entries(v) {
        Some(entries) => entries,
        None => {
            return false;
        },
    };
    let ghost all = entries_of(entries@);
    let ghost texts = key_texts(keys@);
    let mut i: usize = 0;
    while i < entries.len()
        invariant
            i <= entries@.len(),
            all == entries_of(entries@),
            texts == key_texts(keys@),
            json_contents(*v) == JsonView::Object(all),
            forall|j: int| 0 <= j < i ==> texts.contains((#[trigger] all[j]).0),
        decreases entries@.len() - i,
    {
        let mut known: bool = false;
        let mut k: usize = 0;
        while k < keys.len() && !known
            invariant
                k <= keys@.len(),
                i < entries@.len(),
                all == entries_of(entries@),
                json_contents(*v) == JsonView::Object(all),
                texts == key_texts(keys@),
                known ==> texts.contains(all[i as int].0),
                !known ==> forall|j: int| 0 <= j < k ==> #[trigger] texts[j] != all[i as int].0,
            decreases
                keys@.len() - k + if known {
                    0int
                } else {
                    1int
                },
        {
            if same_text(entries[i].0.as_str(), keys[k]) {
                assert(texts[k as int] == all[i as int].0);
                known = true;
            } else {
                k = k + 1;
            }
        }
        if !known {
            proof {
                let e = all[i as int];
                assert(!texts.contains(e.0));
                assert(!are_keyed_by(all, texts));
            }
            return false;
        }
        i = i + 1;
    }
    true
}

/// A key has the value of the first entry under it, and none where no entry is under it; only
/// objects have keys.
pub proof fn law_members(entries: Seq<(Seq<char>, JsonView)>, key: Seq<char>, i: int, v: JsonView)
    ensures
        0 <= i < entries.len() && entries[i].0 == key && (forall|j: int|
            0 <= j < i ==> (#[trigger] entries[j]).0 != key) ==> member(
            JsonView::Object(entries),
            key,
        ) == Some(entries[i].1),
        (forall|j: int| 0 <= j < entries.len() ==> (#[trigger] entries[j]).0 != key) ==> member(
            JsonView::Object(entries),
            key,
        ) is None,
        !(v is Object) ==> member(v, key) is None,
    decreases entries.len(),
{
    if entries.len() > 0 {
        let rest = entries.skip(1);
        law_members(rest, key, i - 1, v);
        if 0 < i < entries.len() {
            assert(rest[i - 1] == entries[i]);
        }
        assert(forall|j: int| 0 <= j < rest.len() ==> #[trigger] rest[j] == entries[j + 1]);
        if forall|j: int| 0 <= j < i ==> (#[trigger] entries[j]).0 != key {
            assert forall|j: int| 0 <= j < i - 1 && j < rest.len() implies (#[trigger] rest[j]).0
                != key by {
                assert(entries[j + 1].0 != key);
            }
        }
        if forall|j: int| 0 <= j < entries.len() ==> (#[trigger] entries[j]).0 != key {
            assert forall|j: int| 0 <= j < rest.len() implies (#[trigger] rest[j]).0 != key by {
                assert(entries[j + 1].0 != key);
            }
        }
    }
}

/// A value has only the given keys if it is an object and the key of each of its entries is one of
/// them; it is unset if it is missing or null, and in no other case.
pub proof fn law_only_keys(
    first: Seq<(Seq<char>, JsonView)>,
    e: (Seq<char>, JsonView),
    second: Seq<(Seq<char>, JsonView)>,
    keys: Seq<Seq<char>>,
    v: JsonView,
)
    ensures
        has_only(JsonView::Object(Seq::empty()), keys),
        has_only(JsonView::Object(seq![e]), keys) == (exists|k: int|
            0 <= k < keys.len() && #[trigger] keys[k] == e.0),
        has_only(JsonView::Object(first + second), keys) == (has_only(JsonView::Object(first), keys)
            && has_only(JsonView::Object(second), keys)),
        has_only(v, keys) ==> v is Object,
        is_unset(None),
        is_unset(Some(v)) == (v == JsonView::Null),
{
    assert(seq![e][0] == e);
    let all = first + second;
    if are_keyed_by(first, keys) && are_keyed_by(second, keys) {
        assert forall|i: int| 0 <= i < all.len() implies keys.contains(
            (#[trigger] all[i]).0,
        ) by {
            if i < first.len() {
                assert(all[i] == first[i]);
            } else {
                assert(all[i] == second[i - first.len()]);
            }
        }
    }
    if are_keyed_by(all, keys) {
        assert forall|i: int| 0 <= i < first.len() implies keys.contains(
            (#[trigger] first[i]).0,
        ) by {
            assert(all[i] == first[i]);
        }
        assert forall|i: int| 0 <= i < second.len() implies keys.contains(
            (#[trigger] second[i]).0,
        ) by {
            assert(all[i + first.len()] == second[i]);
        }
    }
}

/// Values, entries and keys are seen as they are, each in its place.
pub proof fn law_values_are_seen(
    items: Seq<serde_json::Value>,
    entries: Seq<(&String, &serde_json::Value)>,
    keys: Seq<&str>,
    v: Option<&serde_json::Value>,
    i: int,
)
    ensures
        values_of(items).len() == items.len(),
        0 <= i < items.len() ==> values_of(items)[i] == json_contents(items[i]),
        entries_of(entries).len() == entries.len(),
        0 <= i < entries.len() ==> entries_of(entries)[i].0 == entries[i].0@ && entries_of(
            entries,
        )[i].1 == json_contents(*entries[i].1),
        key_texts(keys).len() == keys.len(),
        0 <= i < keys.len() ==> key_texts(keys)[i] == keys[i]@,
        v is None ==> contents_if_any(v) is None,
        v matches Some(own) ==> contents_if_any(v) == Some(json_contents(*own)),
{
}

} // verus!
