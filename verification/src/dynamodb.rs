//! Table operations: deriving a table name from a record type's
//! name, stamping and assembling save requests, key lookups, indexed
//! queries and batch inserts as plain request plans, and decoding
//! fetched items. A thin network layer executes the plans; nothing
//! here performs I/O.

use vstd::prelude::*;
use vstd::string::StringExecFns;
use crate::codec::encode_item;
use crate::convert::{spec_entries_from_attr, spec_entries_to_attr, spec_to_attribute, to_attribute};
use crate::errors::AwwsyError;
use crate::query::{build_query, QueryExpression, QueryPredicate};
use crate::text::{str_chars, string_eq_str, string_from_chars};
use crate::values::{AttrModel, AttributeMap, AttributeValue, StructuredValue, ValueModel};

verus! {

/// What `convert_case` turns a name into when asked for snake case;
/// the result depends on the input characters alone.
pub uninterp spec fn snake_of(s: Seq<char>) -> Seq<char>;

/// Relies on convert_case's `Casing::to_case` with `Case::Snake`: a
/// pure function of the input string that rewrites it in
/// lower-snake-case.
#[verifier::external_body]
fn to_snake(s: &str) -> (r: String)
    ensures
        r@ == snake_of(s@),
{
    convert_case::Casing::to_case(&s, convert_case::Case::Snake)
}

/// Relies on chrono's `Utc::now` and `DateTime::to_rfc3339`: the
/// current wall-clock time, rendered as an ISO-8601 timestamp.
/// Nothing can be promised of the clock's reading; `Utc::now`
/// panics if the system clock stands before 1970, an environmental
/// state no precondition can express.
#[verifier::external_body]
fn now_timestamp() -> String {
    chrono::Utc::now().to_rfc3339()
}

/// The position of the first `"::"` in `s`, or `s.len()` if there is
/// none.
pub open spec fn sep_index(s: Seq<char>) -> nat
    decreases s.len(),
{
    if s.len() < 2 {
        s.len()
    } else if s[0] == ':' && s[1] == ':' {
        0
    } else {
        1 + sep_index(s.skip(1))
    }
}

/// The last path segment of a type name: what follows the final
/// `"::"`, or the whole name if it has none.
pub open spec fn last_segment(s: Seq<char>) -> Seq<char>
    decreases s.len(),
{
    let p = sep_index(s);
    if p + 2 <= s.len() {
        last_segment(s.skip(p + 2int))
    } else {
        s
    }
}

/// Append an `s` unless the name already ends in one.
pub open spec fn pluralize(s: Seq<char>) -> Seq<char> {
    if s.len() > 0 && s.last() == 's' {
        s
    } else {
        s + "s"@
    }
}

/// The table name a type name derives: the last path segment,
/// rewritten in snake case, pluralized.
pub open spec fn spec_table_name(entity_name: Seq<char>) -> Seq<char> {
    pluralize(snake_of(last_segment(entity_name)))
}

/// Where the first `"::"` of `s` stands: not before `sep_index(s)`,
/// and at it if there is one at all.
proof fn lemma_sep_index(s: Seq<char>)
    ensures
        sep_index(s) <= s.len(),
        sep_index(s) == s.len() || sep_index(s) + 2 <= s.len(),
        sep_index(s) + 2 <= s.len() ==> s[sep_index(s) as int] == ':' && s[sep_index(s) as int
            + 1] == ':',
        forall|j: int|
            0 <= j < sep_index(s) && j + 1 < s.len() ==> !(#[trigger] s[j] == ':' && s[j + 1]
                == ':'),
    decreases s.len(),
{
    if s.len() >= 2 && !(s[0] == ':' && s[1] == ':') {
        lemma_sep_index(s.skip(1));
        assert(forall|j: int| 0 <= j < s.len() - 1 ==> #[trigger] s.skip(1)[j] == s[j + 1]);
        assert forall|j: int| 0 <= j < sep_index(s) && j + 1 < s.len() implies !(#[trigger] s[j]
            == ':' && s[j + 1] == ':') by {
            if j >= 1 {
                assert(s.skip(1)[j - 1] == s[j]);
                assert(s.skip(1)[j] == s[j + 1]);
                assert(!(s.skip(1)[j - 1] == ':' && s.skip(1)[j] == ':'));
            }
        }
    }
}

/// A position with no separator before it, and one at it unless it
/// is the end, is the first separator's position.
proof fn lemma_sep_index_is(s: Seq<char>, i: int)
    requires
        0 <= i <= s.len(),
        i < s.len() ==> i + 2 <= s.len() && s[i] == ':' && s[i + 1] == ':',
        forall|j: int|
            0 <= j < i && j + 1 < s.len() ==> !(#[trigger] s[j] == ':' && s[j + 1] == ':'),
    ensures
        sep_index(s) == i,
{
    lemma_sep_index(s);
    let p = sep_index(s) as int;
    if p < i {
        assert(p + 2 <= s.len());
        assert(s[p] == ':' && s[p + 1] == ':');
    }
    if p > i && i < s.len() {
        assert(!(s[i] == ':' && s[i + 1] == ':'));
    }
}

/// A suffix with no separator anywhere is its own last segment.
proof fn lemma_last_segment_none(s: Seq<char>)
    requires
        forall|j: int|
            0 <= j < s.len() && j + 1 < s.len() ==> !(#[trigger] s[j] == ':' && s[j + 1] == ':'),
    ensures
        last_segment(s) == s,
{
    lemma_sep_index_is(s, s.len() as int);
}

/// Derive the storage table name from a record type's name: take the
/// last path segment, convert it to lower-snake-case, and append an
/// `s` unless it already ends in one.
#[verifier::loop_isolation(false)]
pub fn table_name_from(entity_name: &str) -> (r: String)
    ensures
        r@ == spec_table_name(entity_name@),
{
    let v = str_chars(entity_name);
    let n = v.len();
    let mut start: usize = 0;
    let mut i: usize = 0;
    proof {
        assert(v@.skip(0) =~= v@);
    }
    while n >= 1 && i < n - 1
        invariant
            start <= i <= n,
            n == v@.len(),
            last_segment(v@) == last_segment(v@.skip(start as int)),
            forall|j: int|
                0 <= j < i - start && j + 1 < n - start ==> !(#[trigger] v@.skip(
                    start as int,
                )[j] == ':' && v@.skip(start as int)[j + 1] == ':'),
        decreases n - i,
    {
        if v[i] == ':' && v[i + 1] == ':' {
            proof {
                let suffix = v@.skip(start as int);
                assert(suffix[i - start] == ':' && suffix[i - start + 1] == ':');
                lemma_sep_index_is(suffix, i - start);
                assert(last_segment(suffix) == last_segment(suffix.skip(i - start + 2)));
                assert(suffix.skip(i - start + 2) =~= v@.skip(i + 2));
            }
            start = i + 2;
            i = i + 2;
        } else {
            proof {
                let suffix = v@.skip(start as int);
                assert(suffix[i - start] == v@[i as int]);
                assert(i + 1 < n ==> suffix[i - start + 1] == v@[i + 1]);
                assert forall|j: int|
                    0 <= j < i + 1 - start && j + 1 < n - start implies !(#[trigger] suffix[j]
                    == ':' && suffix[j + 1] == ':') by {
                    assert(suffix[j] == v@[start + j]);
                    assert(suffix[j + 1] == v@[start + j + 1]);
                }
            }
            i = i + 1;
        }
    }
    proof {
        let suffix = v@.skip(start as int);
        assert forall|j: int|
            0 <= j < suffix.len() && j + 1 < suffix.len() implies !(#[trigger] suffix[j] == ':'
            && suffix[j + 1] == ':') by {
            assert(j < i - start || j + 1 >= suffix.len());
        }
        lemma_last_segment_none(suffix);
    }
    let mut segment: Vec<char> = Vec::new();
    let mut k: usize = start;
    while k < n
        invariant
            start <= k <= n,
            n == v@.len(),
            segment@ =~= v@.subrange(start as int, k as int),
        decreases n - k,
    {
        segment.push(v[k]);
        k = k + 1;
    }
    proof {
        assert(segment@ =~= v@.skip(start as int));
    }
    let segment_str = string_from_chars(&segment);
    let snake = to_snake(segment_str.as_str());
    let sv = str_chars(snake.as_str());
    if sv.len() > 0 {
        let last = sv[sv.len() - 1];
        if last == 's' {
            proof {
                assert(snake@.last() == 's');
            }
            return snake;
        }
    }
    snake.concat("s")
}

/// The position of the first entry named `k`, or `m.len()` if there
/// is none.
pub open spec fn key_index<T>(m: Seq<(Seq<char>, T)>, k: Seq<char>) -> int
    decreases m.len(),
{
    if m.len() == 0 {
        0
    } else if m[0].0 == k {
        0
    } else {
        1 + key_index(m.drop_first(), k)
    }
}

/// The value of the first entry named `k`, if the item has one;
/// earlier entries shadow later ones of the same name.
pub open spec fn key_lookup<T>(m: Seq<(Seq<char>, T)>, k: Seq<char>) -> Option<T> {
    if key_index(m, k) < m.len() {
        Some(m[key_index(m, k)].1)
    } else {
        None
    }
}

/// Replace the first entry named `k`, or append one.
pub open spec fn spec_upsert<T>(
    m: Seq<(Seq<char>, T)>,
    k: Seq<char>,
    v: T,
) -> Seq<(Seq<char>, T)> {
    if key_index(m, k) < m.len() {
        m.update(key_index(m, k), (k, v))
    } else {
        m.push((k, v))
    }
}

/// The first entry named `k` stands at `key_index`, and no earlier
/// entry carries that name.
pub proof fn lemma_key_index<T>(m: Seq<(Seq<char>, T)>, k: Seq<char>)
    ensures
        0 <= key_index(m, k) <= m.len(),
        key_index(m, k) < m.len() ==> m[key_index(m, k)].0 == k,
        forall|j: int| 0 <= j < key_index(m, k) ==> (#[trigger] m[j]).0 != k,
    decreases m.len(),
{
    if m.len() > 0 && m[0].0 != k {
        let rest = m.drop_first();
        lemma_key_index(rest, k);
        assert(forall|j: int| 0 <= j < rest.len() ==> #[trigger] rest[j] == m[j + 1]);
        assert forall|j: int| 0 <= j < key_index(m, k) implies (#[trigger] m[j]).0 != k by {
            if j > 0 {
                assert(rest[j - 1] == m[j]);
                assert(rest[j - 1].0 != k);
            }
        }
    }
}

/// A position whose entry carries the name, with no earlier entry
/// carrying it, is the first such position; and if no entry carries
/// the name the first position is the length.
pub proof fn lemma_key_index_is<T>(m: Seq<(Seq<char>, T)>, k: Seq<char>, i: int)
    requires
        0 <= i <= m.len(),
        i < m.len() ==> m[i].0 == k,
        forall|j: int| 0 <= j < i ==> (#[trigger] m[j]).0 != k,
    ensures
        key_index(m, k) == i,
{
    lemma_key_index(m, k);
    let p = key_index(m, k);
    if p < i {
        assert(m[p].0 != k);
    }
    if p > i && i < m.len() {
        assert(m[i].0 != k);
    }
}

/// Upserting an entry makes it the one that a lookup of its name
/// finds.
pub proof fn lemma_upsert_same<T>(m: Seq<(Seq<char>, T)>, k: Seq<char>, v: T)
    ensures
        key_lookup(spec_upsert(m, k, v), k) == Some(v),
{
    lemma_key_index(m, k);
    let ki = key_index(m, k);
    let u = spec_upsert(m, k, v);
    if ki < m.len() {
        assert forall|j: int| 0 <= j < ki implies (#[trigger] u[j]).0 != k by {
            assert(u[j] == m[j]);
        }
        lemma_key_index_is(u, k, ki);
    } else {
        assert forall|j: int| 0 <= j < m.len() implies (#[trigger] u[j]).0 != k by {
            assert(u[j] == m[j]);
            assert(j < key_index(m, k));
        }
        lemma_key_index_is(u, k, m.len() as int);
    }
}

/// Upserting one name leaves lookups of every other name unchanged.
pub proof fn lemma_upsert_other<T>(
    m: Seq<(Seq<char>, T)>,
    k: Seq<char>,
    v: T,
    other: Seq<char>,
)
    requires
        other != k,
    ensures
        key_lookup(spec_upsert(m, k, v), other) == key_lookup(m, other),
{
    lemma_key_index(m, k);
    lemma_key_index(m, other);
    let ki = key_index(m, k);
    let oi = key_index(m, other);
    let u = spec_upsert(m, k, v);
    if ki < m.len() {
        // an update in place: names elsewhere are untouched
        if oi < m.len() {
            assert(oi != ki);
            assert(u[oi].0 == other);
            assert forall|j: int| 0 <= j < oi implies (#[trigger] u[j]).0 != other by {
                if j == ki {
                    assert(u[j].0 == k);
                } else {
                    assert(u[j] == m[j]);
                }
            }
            lemma_key_index_is(u, other, oi);
        } else {
            assert forall|j: int| 0 <= j < u.len() implies (#[trigger] u[j]).0 != other by {
                if j == ki {
                    assert(u[j].0 == k);
                } else {
                    assert(u[j] == m[j]);
                    assert(j < key_index(m, other));
                }
            }
            lemma_key_index_is(u, other, u.len() as int);
        }
    } else {
        // an appended entry: it carries the wrong name for `other`
        if oi < m.len() {
            assert(u[oi].0 == other);
            assert forall|j: int| 0 <= j < oi implies (#[trigger] u[j]).0 != other by {
                assert(u[j] == m[j]);
            }
            lemma_key_index_is(u, other, oi);
        } else {
            assert forall|j: int| 0 <= j < u.len() implies (#[trigger] u[j]).0 != other by {
                if j < m.len() {
                    assert(u[j] == m[j]);
                    assert(j < key_index(m, other));
                } else {
                    assert(u[j].0 == k);
                }
            }
            lemma_key_index_is(u, other, u.len() as int);
        }
    }
}

/// The position of the first entry of `map` named `key`, or the
/// item's length if there is none.
#[verifier::loop_isolation(false)]
fn find_key(map: &AttributeMap, key: &str) -> (r: usize)
    ensures
        r <= map@.len(),
        r as int == key_index(AttributeValue::attr_entries_model(map@), key@),
{
    let ghost m = AttributeValue::attr_entries_model(map@);
    proof {
        crate::values::lemma_attr_entries_model(map@);
    }
    let n = map.len();
    let mut i: usize = 0;
    while i < n
        invariant
            i <= n,
            forall|j: int| 0 <= j < i ==> (#[trigger] m[j]).0 != key@,
        decreases n - i,
    {
        if string_eq_str(&map[i].0, key) {
            proof {
                assert(m[i as int].0 == key@);
                lemma_key_index_is(m, key@, i as int);
            }
            return i;
        }
        proof {
            assert(m[i as int].0 != key@);
        }
        i = i + 1;
    }
    proof {
        lemma_key_index_is(m, key@, n as int);
    }
    n
}

/// Set the attribute named `key`, replacing the first entry of that
/// name or appending one.
pub fn set_attribute(map: &mut AttributeMap, key: &str, value: AttributeValue)
    ensures
        AttributeValue::attr_entries_model(final (map)@) == spec_upsert(
            AttributeValue::attr_entries_model(old(map)@),
            key@,
            value@,
        ),
{
    let ghost m0 = AttributeValue::attr_entries_model(old(map)@);
    let idx = find_key(map, key);
    proof {
        crate::values::lemma_attr_entries_model(map@);
    }
    if idx < map.len() {
        map.set(idx, (String::from_str(key), value));
        proof {
            crate::values::lemma_attr_entries_model(map@);
            assert(AttributeValue::attr_entries_model(map@) =~= m0.update(
                idx as int,
                (key@, value@),
            ));
        }
    } else {
        map.push((String::from_str(key), value));
        proof {
            crate::values::lemma_attr_entries_model(map@);
            assert(AttributeValue::attr_entries_model(map@) =~= m0.push((key@, value@)));
        }
    }
}

/// An encoded item stamped for saving: both timestamps overwritten
/// with the time of the call.
pub open spec fn spec_save_item(es: Seq<(Seq<char>, AttrModel)>, now: Seq<char>) -> Seq<
    (Seq<char>, AttrModel),
> {
    spec_upsert(spec_upsert(es, "updated_at"@, AttrModel::S(now)), "created_at"@, AttrModel::S(now))
}

/// Saving stamps both `updated_at` and `created_at` with the time of
/// that call, whatever the item held before. In particular a second
/// save does not preserve the first call's creation stamp: the
/// always-overwritten `created_at` is deliberate, preserved
/// behaviour.
pub proof fn lemma_save_overwrites_timestamps(es: Seq<(Seq<char>, AttrModel)>, now: Seq<char>)
    ensures
        key_lookup(spec_save_item(es, now), "created_at"@) == Some(AttrModel::S(now)),
        key_lookup(spec_save_item(es, now), "updated_at"@) == Some(AttrModel::S(now)),
{
    reveal_strlit("created_at");
    reveal_strlit("updated_at");
    assert("created_at"@[0] == 'c');
    assert("updated_at"@[0] == 'u');
    if "created_at"@ == "updated_at"@ {
        assert("created_at"@[0] == "updated_at"@[0]);
        assert(false);
    }
    let inner = spec_upsert(es, "updated_at"@, AttrModel::S(now));
    lemma_upsert_same(inner, "created_at"@, AttrModel::S(now));
    lemma_upsert_same(es, "updated_at"@, AttrModel::S(now));
    lemma_upsert_other(inner, "created_at"@, AttrModel::S(now), "updated_at"@);
}

/// Saving a record twice never preserves the first call's
/// `created_at`: the second call's time wins, whatever the first
/// call wrote.
pub proof fn lemma_second_save_resets_created_at(
    es: Seq<(Seq<char>, AttrModel)>,
    first_time: Seq<char>,
    second_time: Seq<char>,
)
    ensures
        key_lookup(spec_save_item(spec_save_item(es, first_time), second_time), "created_at"@)
            == Some(AttrModel::S(second_time)),
{
    lemma_save_overwrites_timestamps(spec_save_item(es, first_time), second_time);
}

/// Encode a record's structured value and stamp it with the given
/// time, overwriting both `updated_at` and `created_at`.
pub fn save_item(record: &StructuredValue, now: &str) -> (r: Result<AttributeMap, AwwsyError>)
    requires
        record@.wf(),
    ensures
        record@ matches ValueModel::Object(em) ==> (match spec_entries_to_attr(em) {
            Some(es) => r matches Ok(m) && AttributeValue::attr_entries_model(m@)
                == spec_save_item(es, now@),
            None => r matches Err(e) && (e matches AwwsyError::ConversionError(msg) && msg@
                == "unsupported array element"@),
        }),
        !(record@ is Object) ==> (r matches Err(e) && (e matches AwwsyError::SchemaError(msg)
            && msg@ == "record did not serialize to an object"@)),
{
    match encode_item(record) {
        Ok(mut item) => {
            set_attribute(&mut item, "updated_at", AttributeValue::S(String::from_str(now)));
            set_attribute(&mut item, "created_at", AttributeValue::S(String::from_str(now)));
            Ok(item)
        },
        Err(e) => Err(e),
    }
}

/// One put against a table: the stamped item and the table it goes
/// to.
#[derive(Debug, PartialEq, Eq)]
pub struct PutPlan {
    pub table: String,
    pub item: AttributeMap,
}

/// One direct key-value get: the complete primary key, and
/// optionally a projection expression restricting the returned
/// attributes.
#[derive(Debug, PartialEq, Eq)]
pub struct GetPlan {
    pub table: String,
    pub key: AttributeMap,
    pub projection: Option<String>,
}

/// One query against a named secondary index.
#[derive(Debug, PartialEq, Eq)]
pub struct QueryPlan {
    pub table: String,
    pub index: String,
    pub expression: QueryExpression,
}

/// One batch write: every stamped item, all bound for one table.
#[derive(Debug, PartialEq, Eq)]
pub struct BatchPlan {
    pub table: String,
    pub items: Vec<AttributeMap>,
}

/// Assemble the put request that saves a record: encode it and stamp
/// both timestamps with the present moment. The clock's reading
/// cannot be pinned down, but some one time stamps both fields.
pub fn save_plan(record: &StructuredValue, table: &str) -> (r: Result<PutPlan, AwwsyError>)
    requires
        record@.wf(),
    ensures
        record@ matches ValueModel::Object(em) ==> (match spec_entries_to_attr(em) {
            Some(es) => r matches Ok(p) && p.table@ == table@ && (exists|t: Seq<char>|
                AttributeValue::attr_entries_model(p.item@) == #[trigger] spec_save_item(es, t)),
            None => r matches Err(e) && (e matches AwwsyError::ConversionError(msg) && msg@
                == "unsupported array element"@),
        }),
        !(record@ is Object) ==> (r matches Err(e) && (e matches AwwsyError::SchemaError(msg)
            && msg@ == "record did not serialize to an object"@)),
{
    let now = now_timestamp();
    match save_item(record, now.as_str()) {
        Ok(item) => {
            proof {
                if record@ is Object {
                    let em = record@->Object_0;
                    match spec_entries_to_attr(em) {
                        Some(es) => {
                            assert(AttributeValue::attr_entries_model(item@) == spec_save_item(
                                es,
                                now@,
                            ));
                        },
                        None => {},
                    }
                }
            }
            Ok(PutPlan { table: String::from_str(table), item })
        },
        Err(e) => Err(e),
    }
}

/// Assemble the key map of a direct get: every predicate field
/// converted to its attribute, in order. The predicate must supply
/// the complete primary key; what it holds is passed through
/// unchecked, as the store itself rejects an incomplete key.
#[verifier::loop_isolation(false)]
pub fn get_plan(predicate: &QueryPredicate, projection: Option<String>, table: &str) -> (r: Result<
    GetPlan,
    AwwsyError,
>)
    requires
        forall|i: int| 0 <= i < predicate@.len() ==> (#[trigger] predicate@[i].1)@.wf(),
    ensures
        match r {
            Ok(g) => {
                &&& g.table@ == table@
                &&& g.projection == projection
                &&& g.key@.len() == predicate@.len()
                &&& forall|k: int|
                    0 <= k < predicate@.len() ==> (#[trigger] g.key@[k]).0@ == predicate@[k].0@
                        && spec_to_attribute(predicate@[k].1@) == Some(g.key@[k].1@)
            },
            Err(e) => (exists|k: int|
                0 <= k < predicate@.len() && spec_to_attribute(
                    (#[trigger] predicate@[k].1)@,
                ) is None) && (e matches AwwsyError::ConversionError(msg) && msg@
                == "unsupported array element"@),
        },
{
    let mut key: AttributeMap = Vec::new();
    let mut idx: usize = 0;
    while idx < predicate.len()
        invariant
            idx <= predicate@.len(),
            key@.len() == idx,
            forall|k: int|
                0 <= k < idx ==> (#[trigger] key@[k]).0@ == predicate@[k].0@ && spec_to_attribute(
                    predicate@[k].1@,
                ) == Some(key@[k].1@),
        decreases predicate@.len() - idx,
    {
        let pair = &predicate[idx];
        match to_attribute(&pair.1) {
            Ok(a) => {
                key.push((pair.0.clone(), a));
            },
            Err(e) => {
                proof {
                    assert(0 <= idx < predicate@.len() && spec_to_attribute(
                        (predicate@[idx as int].1)@,
                    ) is None);
                }
                return Err(e);
            },
        }
        idx = idx + 1;
    }
    Ok(GetPlan { table: String::from_str(table), key, projection })
}

/// Decode the outcome of a direct get: no item at all is a typed
/// not-found error, never a decode of an empty map; an item decodes
/// back into its structured object.
pub fn decode_get_item(item: Option<AttributeMap>) -> (r: Result<StructuredValue, AwwsyError>)
    ensures
        item is None ==> r == Err::<StructuredValue, AwwsyError>(AwwsyError::NotFound),
        item matches Some(m) ==> (match spec_entries_from_attr(
            AttributeValue::attr_entries_model(m@),
        ) {
            Some(es) => r matches Ok(v) && v@ == ValueModel::Object(es),
            None => r matches Err(e) && (e matches AwwsyError::ConversionError(msg) && msg@
                == "unparsable number"@),
        }),
{
    match item {
        None => Err(AwwsyError::NotFound),
        Some(m) => crate::codec::decode_item(&m),
    }
}

/// Assemble a query against a named secondary index, requesting all
/// attributes: the predicate's placeholder maps and condition text,
/// bound to the index and table.
pub fn query_plan(predicate: &QueryPredicate, index_name: String, table: &str) -> (r: Result<
    QueryPlan,
    AwwsyError,
>)
    requires
        forall|i: int| 0 <= i < predicate@.len() ==> (#[trigger] predicate@[i].1)@.wf(),
    ensures
        match r {
            Ok(qp) => qp.table@ == table@ && qp.index == index_name
                && crate::query::expression_matches(qp.expression, predicate@),
            Err(e) => (exists|k: int|
                0 <= k < predicate@.len() && spec_to_attribute(
                    (#[trigger] predicate@[k].1)@,
                ) is None) && (e matches AwwsyError::ConversionError(msg) && msg@
                == "unsupported array element"@),
        },
{
    match build_query(predicate) {
        Ok(expression) => Ok(
            QueryPlan { table: String::from_str(table), index: index_name, expression },
        ),
        Err(e) => Err(e),
    }
}

/// Every record of the batch encoded and stamped with the one time
/// `t`, item by item.
pub open spec fn batch_stamped(
    records: Seq<StructuredValue>,
    items: Seq<AttributeMap>,
    t: Seq<char>,
) -> bool {
    forall|k: int|
        0 <= k < records.len() ==> ((#[trigger] records[k])@ matches ValueModel::Object(em)
            && spec_entries_to_attr(em) matches Some(es) && AttributeValue::attr_entries_model(
            items[k]@,
        ) == spec_save_item(es, t))
}

/// Some one time stamps every record of the batch: the deliberate
/// consistency choice that a whole batch shares a single timestamp.
pub open spec fn batch_stamped_once(records: Seq<StructuredValue>, items: Seq<AttributeMap>) -> bool {
    exists|t: Seq<char>| #[trigger] batch_stamped(records, items, t)
}

/// Encode and stamp every record of a batch with one shared time.
#[verifier::loop_isolation(false)]
pub fn batch_insert_items(records: &Vec<StructuredValue>, now: &str) -> (r: Result<
    Vec<AttributeMap>,
    AwwsyError,
>)
    requires
        forall|i: int| 0 <= i < records@.len() ==> (#[trigger] records@[i])@.wf(),
    ensures
        match r {
            Ok(items) => items@.len() == records@.len() && batch_stamped(records@, items@, now@),
            Err(e) => (exists|k: int|
                0 <= k < records@.len() && !((#[trigger] records@[k])@ matches ValueModel::Object(
                    em,
                ) && spec_entries_to_attr(em) is Some)) && ((e matches AwwsyError::SchemaError(msg)
                && msg@ == "record did not serialize to an object"@) || (
            e matches AwwsyError::ConversionError(msg2) && msg2@ == "unsupported array element"@)),
        },
{
    let mut items: Vec<AttributeMap> = Vec::new();
    let mut idx: usize = 0;
    while idx < records.len()
        invariant
            idx <= records@.len(),
            items@.len() == idx,
            forall|k: int|
                0 <= k < idx ==> ((#[trigger] records@[k])@ matches ValueModel::Object(em)
                    && spec_entries_to_attr(em) matches Some(es)
                    && AttributeValue::attr_entries_model(items@[k]@) == spec_save_item(es, now@)),
        decreases records@.len() - idx,
    {
        match save_item(&records[idx], now) {
            Ok(item) => {
                items.push(item);
            },
            Err(e) => {
                proof {
                    assert(0 <= idx < records@.len() && !((records@[idx as int])@ matches ValueModel::Object(
                        em,
                    ) && spec_entries_to_attr(em) is Some));
                }
                return Err(e);
            },
        }
        idx = idx + 1;
    }
    Ok(items)
}

/// Assemble one batch write: every record encoded and stamped with
/// the same present moment, grouped under one table. Oversized
/// batches are not chunked here; the store enforces its own ceiling.
pub fn batch_insert_plan(records: &Vec<StructuredValue>, table: &str) -> (r: Result<
    BatchPlan,
    AwwsyError,
>)
    requires
        forall|i: int| 0 <= i < records@.len() ==> (#[trigger] records@[i])@.wf(),
    ensures
        r matches Ok(b) ==> b.table@ == table@,
        r matches Ok(b) ==> b.items@.len() == records@.len(),
        r matches Ok(b) ==> batch_stamped_once(records@, b.items@),
        r matches Err(e) ==> (exists|k: int|
            0 <= k < records@.len() && !((#[trigger] records@[k])@ matches ValueModel::Object(em)
                && spec_entries_to_attr(em) is Some)) && ((e matches AwwsyError::SchemaError(msg)
            && msg@ == "record did not serialize to an object"@) || (
        e matches AwwsyError::ConversionError(msg2) && msg2@ == "unsupported array element"@)),
{
    let now = now_timestamp();
    match batch_insert_items(records, now.as_str()) {
        Ok(items) => {
            let b = BatchPlan { table: String::from_str(table), items };
            proof {
                assert(batch_stamped(records@, b.items@, now@));
                assert(batch_stamped_once(records@, b.items@));
            }
            Ok(b)
        },
        Err(e) => Err(e),
    }
}

/// A record type that persists to a table of the store. The
/// implementor supplies its schema: how the record walks to and from
/// a structured value, and the type's simple name, from which the
/// table name derives. The provided methods assemble the requests
/// that a thin network layer executes.
pub trait Table: Sized {
    /// The mathematical value this record stands for.
    spec fn spec_value(&self) -> ValueModel;

    /// The type's simple name, as a sequence of characters.
    spec fn spec_entity_name() -> Seq<char>;

    /// Which structured values match this type's schema: an object
    /// whose required fields are all present and rightly typed,
    /// looked up by name and in any order.
    spec fn spec_accepts(v: ValueModel) -> bool;

    /// The record value that an accepted structured value decodes
    /// to: the schema's fields in their canonical order, each taken
    /// from the object by name.
    spec fn spec_decoded_value(v: ValueModel) -> ValueModel;

    /// The type's simple name; the table name derives from it.
    fn entity_name() -> (r: String)
        ensures
            r@ == Self::spec_entity_name(),
    ;

    /// Serialize this record to its structured value.
    fn to_value(&self) -> (r: StructuredValue)
        ensures
            r@ == self.spec_value(),
            r@.wf(),
    ;

    /// Rebuild a record from a structured value. Decoding succeeds
    /// exactly on the values the schema accepts; a missing or
    /// mistyped field is a schema error.
    fn from_value(v: &StructuredValue) -> (r: Result<Self, AwwsyError>)
        ensures
            r is Ok <==> Self::spec_accepts(v@),
            r matches Ok(t) ==> t.spec_value() == Self::spec_decoded_value(v@),
            r matches Err(e) ==> e matches AwwsyError::SchemaError(_),
    ;

    /// The storage table this record type persists to: the type's
    /// simple name in snake case, pluralized.
    fn table_name() -> (r: String)
        ensures
            r@ == spec_table_name(Self::spec_entity_name()),
    {
        let name = Self::entity_name();
        table_name_from(name.as_str())
    }

    /// The put request that saves this record, both timestamps
    /// stamped with the present moment.
    fn save_plan(&self) -> (r: Result<PutPlan, AwwsyError>)
        ensures
            self.spec_value() matches ValueModel::Object(em) ==> (match spec_entries_to_attr(em) {
                Some(es) => r matches Ok(p) && p.table@ == spec_table_name(
                    Self::spec_entity_name(),
                ) && (exists|t: Seq<char>|
                    AttributeValue::attr_entries_model(p.item@) == #[trigger] spec_save_item(
                        es,
                        t,
                    )),
                None => r matches Err(e) && (e matches AwwsyError::ConversionError(msg) && msg@
                    == "unsupported array element"@),
            }),
            !(self.spec_value() is Object) ==> (r matches Err(e) && (
            e matches AwwsyError::SchemaError(msg) && msg@
                == "record did not serialize to an object"@)),
    {
        let value = self.to_value();
        let table = Self::table_name();
        save_plan(&value, table.as_str())
    }

    /// The direct key-value get that the predicate describes against
    /// this type's table.
    fn get_plan(predicate: &QueryPredicate, projection: Option<String>) -> (r: Result<
        GetPlan,
        AwwsyError,
    >)
        requires
            forall|i: int| 0 <= i < predicate@.len() ==> (#[trigger] predicate@[i].1)@.wf(),
        ensures
            match r {
                Ok(g) => {
                    &&& g.table@ == spec_table_name(Self::spec_entity_name())
                    &&& g.projection == projection
                    &&& g.key@.len() == predicate@.len()
                    &&& forall|k: int|
                        0 <= k < predicate@.len() ==> (#[trigger] g.key@[k]).0@
                            == predicate@[k].0@ && spec_to_attribute(predicate@[k].1@) == Some(
                            g.key@[k].1@,
                        )
                },
                Err(e) => (exists|k: int|
                    0 <= k < predicate@.len() && spec_to_attribute(
                        (#[trigger] predicate@[k].1)@,
                    ) is None) && (e matches AwwsyError::ConversionError(msg) && msg@
                    == "unsupported array element"@),
            },
    {
        let table = Self::table_name();
        get_plan(predicate, projection, table.as_str())
    }

    /// The query that the predicate describes against a named
    /// secondary index of this type's table.
    fn query_plan(predicate: &QueryPredicate, index_name: String) -> (r: Result<
        QueryPlan,
        AwwsyError,
    >)
        requires
            forall|i: int| 0 <= i < predicate@.len() ==> (#[trigger] predicate@[i].1)@.wf(),
        ensures
            match r {
                Ok(qp) => qp.table@ == spec_table_name(Self::spec_entity_name()) && qp.index
                    == index_name && crate::query::expression_matches(qp.expression, predicate@),
                Err(e) => (exists|k: int|
                    0 <= k < predicate@.len() && spec_to_attribute(
                        (#[trigger] predicate@[k].1)@,
                    ) is None) && (e matches AwwsyError::ConversionError(msg) && msg@
                    == "unsupported array element"@),
            },
    {
        let table = Self::table_name();
        query_plan(predicate, index_name, table.as_str())
    }

    /// Rebuild a record of this type from a fetched item: convert
    /// the attributes back and decode against the schema. An
    /// unparsable number is a conversion error; decoding succeeds
    /// exactly when the schema accepts the converted object.
    fn from_item(m: &AttributeMap) -> (r: Result<Self, AwwsyError>)
        ensures
            spec_entries_from_attr(AttributeValue::attr_entries_model(m@)) is None ==> (
            r matches Err(e) && (e matches AwwsyError::ConversionError(msg) && msg@
                == "unparsable number"@)),
            spec_entries_from_attr(AttributeValue::attr_entries_model(m@)) matches Some(es) ==> (
            r is Ok <==> Self::spec_accepts(ValueModel::Object(es))),
            r matches Ok(t) ==> (spec_entries_from_attr(AttributeValue::attr_entries_model(m@))
                matches Some(es) && t.spec_value() == Self::spec_decoded_value(
                ValueModel::Object(es),
            )),
            r matches Err(e) ==> (e matches AwwsyError::ConversionError(_)
                || e matches AwwsyError::SchemaError(_)),
    {
        match crate::codec::decode_item(m) {
            Ok(v) => Self::from_value(&v),
            Err(e) => Err(e),
        }
    }

    /// Rebuild a record of this type from the outcome of a direct
    /// get. No item at all is a typed not-found error — and only
    /// that is: a present item never yields one, it decodes as
    /// [`Table::from_item`] does.
    fn from_get_item(item: Option<AttributeMap>) -> (r: Result<Self, AwwsyError>)
        ensures
            item is None ==> (r matches Err(e) && e == AwwsyError::NotFound),
            r matches Err(e) && e == AwwsyError::NotFound ==> item is None,
            item matches Some(m) ==> (spec_entries_from_attr(
                AttributeValue::attr_entries_model(m@),
            ) is None ==> (r matches Err(e) && (e matches AwwsyError::ConversionError(msg) && msg@
                == "unparsable number"@))),
            item matches Some(m) ==> (spec_entries_from_attr(
                AttributeValue::attr_entries_model(m@),
            ) matches Some(es) ==> (r is Ok <==> Self::spec_accepts(ValueModel::Object(es)))),
            r matches Ok(t) ==> (item matches Some(m) && (spec_entries_from_attr(
                AttributeValue::attr_entries_model(m@),
            ) matches Some(es) && t.spec_value() == Self::spec_decoded_value(
                ValueModel::Object(es),
            ))),
    {
        match item {
            None => Err(AwwsyError::NotFound),
            Some(m) => Self::from_item(&m),
        }
    }
}

} // verus!
