//! A ready-made record type: a user profile that persists to the
//! `user_profiles` table. It shows how a record supplies its schema
//! to the table operations, and it exercises every field shape the
//! codec round-trips: booleans, numbers, strings, number arrays and
//! string arrays, plus the two timestamp fields that saving stamps.

use vstd::prelude::*;
use vstd::string::StringExecFns;
use crate::convert::{
    lemma_round_trippable_entries, round_trippable, spec_entries_from_attr, spec_entries_to_attr,
};
use crate::codec::lemma_codec_round_trip;
use crate::dynamodb::{key_index, key_lookup, lemma_key_index, lemma_key_index_is, Table};
use crate::errors::AwwsyError;
use crate::text::string_eq_str;
use crate::values::{
    lemma_entries_model, lemma_entries_wf, lemma_items_model, lemma_items_wf, Decimal,
    StructuredValue, ValueModel,
};

verus! {

/// A user profile record.
#[derive(Debug, Clone, PartialEq, Eq)]
pub struct UserProfile {
    pub pk: String,
    pub sk: String,
    pub active: bool,
    pub age: u32,
    pub scores: Vec<u32>,
    pub tags: Vec<String>,
    pub created_at: String,
    pub updated_at: String,
}

/// The number model of an unsigned 32-bit value: a plain integer
/// decimal.
pub open spec fn spec_u32_number(n: u32) -> ValueModel {
    ValueModel::Number(Decimal { neg: false, mantissa: n as u64, scale: 0 })
}

/// Whether a value is a number that coerces into a `u32`: a
/// nonnegative integer decimal no larger than `u32::MAX`.
pub open spec fn is_u32_number(v: ValueModel) -> bool {
    v matches ValueModel::Number(d) && !d.neg && d.scale == 0 && d.mantissa <= u32::MAX
}

/// Whether every element coerces into a `u32`.
pub open spec fn all_u32_numbers(items: Seq<ValueModel>) -> bool {
    forall|i: int| 0 <= i < items.len() ==> is_u32_number(#[trigger] items[i])
}

/// Whether every element is a string.
pub open spec fn all_text_values(items: Seq<ValueModel>) -> bool {
    forall|i: int| 0 <= i < items.len() ==> (#[trigger] items[i]) is Text
}

/// The models of a score list, element by element.
pub open spec fn spec_scores_model(scores: Seq<u32>) -> Seq<ValueModel> {
    Seq::new(scores.len(), |i: int| spec_u32_number(scores[i]))
}

/// The models of a tag list, element by element.
pub open spec fn spec_tags_model(tags: Seq<String>) -> Seq<ValueModel> {
    Seq::new(tags.len(), |i: int| ValueModel::Text(tags[i]@))
}

/// The error a value that does not match the schema decodes to.
fn schema_error() -> (r: AwwsyError)
    ensures
        r matches AwwsyError::SchemaError(m) && m@ == "missing or mistyped field"@,
{
    AwwsyError::SchemaError(String::from_str("missing or mistyped field"))
}

/// The position of the first entry named `key`, or the object's
/// length if there is none.
#[verifier::loop_isolation(false)]
fn find_field(entries: &Vec<(String, StructuredValue)>, key: &str) -> (r: usize)
    ensures
        r <= entries@.len(),
        r as int == key_index(StructuredValue::entries_model(entries@), key@),
{
    let ghost em = StructuredValue::entries_model(entries@);
    proof {
        lemma_entries_model(entries@);
    }
    let n = entries.len();
    let mut i: usize = 0;
    while i < n
        invariant
            i <= n,
            n == entries@.len(),
            em.len() == n,
            forall|j: int| 0 <= j < i ==> (#[trigger] em[j]).0 != key@,
        decreases n - i,
    {
        if string_eq_str(&entries[i].0, key) {
            proof {
                assert(em[i as int].0 == key@);
                lemma_key_index_is(em, key@, i as int);
            }
            return i;
        }
        proof {
            assert(em[i as int].0 != key@);
        }
        i = i + 1;
    }
    proof {
        lemma_key_index_is(em, key@, n as int);
    }
    n
}

impl Table for UserProfile {
    open spec fn spec_value(&self) -> ValueModel {
        ValueModel::Object(
            seq![
                ("pk"@, ValueModel::Text(self.pk@)),
                ("sk"@, ValueModel::Text(self.sk@)),
                ("active"@, ValueModel::Bool(self.active)),
                ("age"@, spec_u32_number(self.age)),
                ("scores"@, ValueModel::Array(spec_scores_model(self.scores@))),
                ("tags"@, ValueModel::Array(spec_tags_model(self.tags@))),
                ("created_at"@, ValueModel::Text(self.created_at@)),
                ("updated_at"@, ValueModel::Text(self.updated_at@)),
            ],
        )
    }

    open spec fn spec_entity_name() -> Seq<char> {
        "UserProfile"@
    }

    open spec fn spec_accepts(v: ValueModel) -> bool {
        &&& v is Object
        &&& (key_lookup(v->Object_0, "pk"@) matches Some(f) && f is Text)
        &&& (key_lookup(v->Object_0, "sk"@) matches Some(f) && f is Text)
        &&& (key_lookup(v->Object_0, "active"@) matches Some(f) && f is Bool)
        &&& (key_lookup(v->Object_0, "age"@) matches Some(f) && is_u32_number(f))
        &&& (key_lookup(v->Object_0, "scores"@) matches Some(f) && (f matches ValueModel::Array(
            items,
        ) && all_u32_numbers(items)))
        &&& (key_lookup(v->Object_0, "tags"@) matches Some(f) && (f matches ValueModel::Array(
            items,
        ) && all_text_values(items)))
        &&& (key_lookup(v->Object_0, "created_at"@) matches Some(f) && f is Text)
        &&& (key_lookup(v->Object_0, "updated_at"@) matches Some(f) && f is Text)
    }

    open spec fn spec_decoded_value(v: ValueModel) -> ValueModel {
        let entries = v->Object_0;
        ValueModel::Object(
            seq![
                ("pk"@, key_lookup(entries, "pk"@)->Some_0),
                ("sk"@, key_lookup(entries, "sk"@)->Some_0),
                ("active"@, key_lookup(entries, "active"@)->Some_0),
                ("age"@, key_lookup(entries, "age"@)->Some_0),
                ("scores"@, key_lookup(entries, "scores"@)->Some_0),
                ("tags"@, key_lookup(entries, "tags"@)->Some_0),
                ("created_at"@, key_lookup(entries, "created_at"@)->Some_0),
                ("updated_at"@, key_lookup(entries, "updated_at"@)->Some_0),
            ],
        )
    }

    fn entity_name() -> (r: String) {
        String::from_str("UserProfile")
    }

    #[verifier::loop_isolation(false)]
    fn to_value(&self) -> (r: StructuredValue) {
        let mut score_items: Vec<StructuredValue> = Vec::new();
        let mut i: usize = 0;
        while i < self.scores.len()
            invariant
                i <= self.scores@.len(),
                score_items@.len() == i,
                forall|k: int|
                    0 <= k < i ==> (#[trigger] score_items@[k]) == StructuredValue::Number(
                        Decimal { neg: false, mantissa: self.scores@[k] as u64, scale: 0 },
                    ),
            decreases self.scores@.len() - i,
        {
            score_items.push(StructuredValue::Number(Decimal::from_u64(self.scores[i] as u64)));
            i = i + 1;
        }
        let mut tag_items: Vec<StructuredValue> = Vec::new();
        let mut j: usize = 0;
        while j < self.tags.len()
            invariant
                j <= self.tags@.len(),
                tag_items@.len() == j,
                forall|k: int|
                    0 <= k < j ==> (#[trigger] tag_items@[k]) == StructuredValue::Text(
                        self.tags@[k],
                    ),
            decreases self.tags@.len() - j,
        {
            tag_items.push(StructuredValue::Text(self.tags[j].clone()));
            j = j + 1;
        }
        let ghost sv = score_items@;
        let ghost tv = tag_items@;
        let mut entries: Vec<(String, StructuredValue)> = Vec::new();
        entries.push((String::from_str("pk"), StructuredValue::Text(self.pk.clone())));
        entries.push((String::from_str("sk"), StructuredValue::Text(self.sk.clone())));
        entries.push((String::from_str("active"), StructuredValue::Bool(self.active)));
        entries.push(
            (String::from_str("age"), StructuredValue::Number(Decimal::from_u64(self.age as u64))),
        );
        entries.push((String::from_str("scores"), StructuredValue::Array(score_items)));
        entries.push((String::from_str("tags"), StructuredValue::Array(tag_items)));
        entries.push(
            (String::from_str("created_at"), StructuredValue::Text(self.created_at.clone())),
        );
        entries.push(
            (String::from_str("updated_at"), StructuredValue::Text(self.updated_at.clone())),
        );
        let r = StructuredValue::Object(entries);
        proof {
            let em = StructuredValue::entries_model(r->Object_0@);
            lemma_entries_model(r->Object_0@);
            lemma_items_model(sv);
            lemma_items_model(tv);
            assert(StructuredValue::items_model(sv) =~= spec_scores_model(self.scores@));
            assert(StructuredValue::items_model(tv) =~= spec_tags_model(self.tags@));
            assert(em =~= self.spec_value()->Object_0);
            lemma_items_wf(StructuredValue::items_model(sv));
            lemma_items_wf(StructuredValue::items_model(tv));
            lemma_entries_wf(em);
            assert(r@.wf());
        }
        r
    }

    #[verifier::loop_isolation(false)]
    fn from_value(v: &StructuredValue) -> (r: Result<Self, AwwsyError>) {
        let entries = match v {
            StructuredValue::Object(entries) => entries,
            _ => {
                return Err(schema_error());
            },
        };
        let ghost em = StructuredValue::entries_model(entries@);
        proof {
            lemma_entries_model(entries@);
            assert(v@ == ValueModel::Object(em));
            lemma_key_index(em, "pk"@);
            lemma_key_index(em, "sk"@);
            lemma_key_index(em, "active"@);
            lemma_key_index(em, "age"@);
            lemma_key_index(em, "scores"@);
            lemma_key_index(em, "tags"@);
            lemma_key_index(em, "created_at"@);
            lemma_key_index(em, "updated_at"@);
        }
        let n = entries.len();
        let i_pk = find_field(entries, "pk");
        if i_pk == n {
            return Err(schema_error());
        }
        let pk = match &entries[i_pk].1 {
            StructuredValue::Text(s) => s.clone(),
            _ => {
                return Err(schema_error());
            },
        };
        let i_sk = find_field(entries, "sk");
        if i_sk == n {
            return Err(schema_error());
        }
        let sk = match &entries[i_sk].1 {
            StructuredValue::Text(s) => s.clone(),
            _ => {
                return Err(schema_error());
            },
        };
        let i_active = find_field(entries, "active");
        if i_active == n {
            return Err(schema_error());
        }
        let active = match &entries[i_active].1 {
            StructuredValue::Bool(b) => *b,
            _ => {
                return Err(schema_error());
            },
        };
        let i_age = find_field(entries, "age");
        if i_age == n {
            return Err(schema_error());
        }
        let age = match &entries[i_age].1 {
            StructuredValue::Number(d) => {
                if d.neg || d.scale != 0 || d.mantissa > u32::MAX as u64 {
                    return Err(schema_error());
                }
                d.mantissa as u32
            },
            _ => {
                return Err(schema_error());
            },
        };
        let i_scores = find_field(entries, "scores");
        if i_scores == n {
            return Err(schema_error());
        }
        let score_items = match &entries[i_scores].1 {
            StructuredValue::Array(items) => items,
            _ => {
                return Err(schema_error());
            },
        };
        proof {
            lemma_items_model(score_items@);
        }
        let mut scores: Vec<u32> = Vec::new();
        let mut i: usize = 0;
        while i < score_items.len()
            invariant
                i <= score_items@.len(),
                scores@.len() == i,
                forall|k: int|
                    0 <= k < i ==> #[trigger] score_items@[k] == StructuredValue::Number(
                        Decimal { neg: false, mantissa: scores@[k] as u64, scale: 0 },
                    ),
            decreases score_items@.len() - i,
        {
            match &score_items[i] {
                StructuredValue::Number(d) => {
                    if d.neg || d.scale != 0 || d.mantissa > u32::MAX as u64 {
                        proof {
                            assert(StructuredValue::items_model(score_items@)[i as int]
                                == score_items@[i as int].model());
                            assert(!is_u32_number(
                                StructuredValue::items_model(score_items@)[i as int],
                            ));
                        }
                        return Err(schema_error());
                    }
                    scores.push(d.mantissa as u32);
                },
                _ => {
                    proof {
                        assert(StructuredValue::items_model(score_items@)[i as int]
                            == score_items@[i as int].model());
                        assert(!is_u32_number(
                            StructuredValue::items_model(score_items@)[i as int],
                        ));
                    }
                    return Err(schema_error());
                },
            }
            i = i + 1;
        }
        let i_tags = find_field(entries, "tags");
        if i_tags == n {
            return Err(schema_error());
        }
        let tag_items = match &entries[i_tags].1 {
            StructuredValue::Array(items) => items,
            _ => {
                return Err(schema_error());
            },
        };
        proof {
            lemma_items_model(tag_items@);
        }
        let mut tags: Vec<String> = Vec::new();
        let mut j: usize = 0;
        while j < tag_items.len()
            invariant
                j <= tag_items@.len(),
                tags@.len() == j,
                forall|k: int|
                    0 <= k < j ==> #[trigger] tag_items@[k] == StructuredValue::Text(tags@[k]),
            decreases tag_items@.len() - j,
        {
            match &tag_items[j] {
                StructuredValue::Text(s) => {
                    tags.push(s.clone());
                },
                _ => {
                    proof {
                        assert(StructuredValue::items_model(tag_items@)[j as int]
                            == tag_items@[j as int].model());
                        assert(!(StructuredValue::items_model(tag_items@)[j as int] is Text));
                    }
                    return Err(schema_error());
                },
            }
            j = j + 1;
        }
        let i_created = find_field(entries, "created_at");
        if i_created == n {
            return Err(schema_error());
        }
        let created_at = match &entries[i_created].1 {
            StructuredValue::Text(s) => s.clone(),
            _ => {
                return Err(schema_error());
            },
        };
        let i_updated = find_field(entries, "updated_at");
        if i_updated == n {
            return Err(schema_error());
        }
        let updated_at = match &entries[i_updated].1 {
            StructuredValue::Text(s) => s.clone(),
            _ => {
                return Err(schema_error());
            },
        };
        let t = UserProfile { pk, sk, active, age, scores, tags, created_at, updated_at };
        proof {
            assert(StructuredValue::items_model(score_items@) =~= spec_scores_model(t.scores@));
            assert(StructuredValue::items_model(tag_items@) =~= spec_tags_model(t.tags@));
            assert(key_lookup(em, "scores"@)->Some_0 == ValueModel::Array(
                StructuredValue::items_model(score_items@),
            ));
            assert(key_lookup(em, "tags"@)->Some_0 == ValueModel::Array(
                StructuredValue::items_model(tag_items@),
            ));
            assert(Self::spec_accepts(v@));
            assert(t.spec_value()->Object_0 =~= Self::spec_decoded_value(v@)->Object_0);
            assert(t.spec_value() == Self::spec_decoded_value(v@));
        }
        Ok(t)
    }
}

/// Two character sequences that differ in length or in their first
/// character are different.
proof fn lemma_chars_ne(a: Seq<char>, b: Seq<char>)
    requires
        a.len() != b.len() || (a.len() > 0 && b.len() > 0 && a[0] != b[0]),
    ensures
        a != b,
{
    if a == b {
        assert(a.len() == b.len());
        if a.len() > 0 {
            assert(a[0] == b[0]);
        }
    }
}

/// The profile's eight field names are pairwise distinct.
proof fn lemma_field_names_distinct()
    ensures
        "pk"@ != "sk"@,
        "pk"@ != "active"@,
        "pk"@ != "age"@,
        "pk"@ != "scores"@,
        "pk"@ != "tags"@,
        "pk"@ != "created_at"@,
        "pk"@ != "updated_at"@,
        "sk"@ != "active"@,
        "sk"@ != "age"@,
        "sk"@ != "scores"@,
        "sk"@ != "tags"@,
        "sk"@ != "created_at"@,
        "sk"@ != "updated_at"@,
        "active"@ != "age"@,
        "active"@ != "scores"@,
        "active"@ != "tags"@,
        "active"@ != "created_at"@,
        "active"@ != "updated_at"@,
        "age"@ != "scores"@,
        "age"@ != "tags"@,
        "age"@ != "created_at"@,
        "age"@ != "updated_at"@,
        "scores"@ != "tags"@,
        "scores"@ != "created_at"@,
        "scores"@ != "updated_at"@,
        "tags"@ != "created_at"@,
        "tags"@ != "updated_at"@,
        "created_at"@ != "updated_at"@,
{
    reveal_strlit("pk");
    reveal_strlit("sk");
    reveal_strlit("active");
    reveal_strlit("age");
    reveal_strlit("scores");
    reveal_strlit("tags");
    reveal_strlit("created_at");
    reveal_strlit("updated_at");
    lemma_chars_ne("pk"@, "sk"@);
    lemma_chars_ne("pk"@, "active"@);
    lemma_chars_ne("pk"@, "age"@);
    lemma_chars_ne("pk"@, "scores"@);
    lemma_chars_ne("pk"@, "tags"@);
    lemma_chars_ne("pk"@, "created_at"@);
    lemma_chars_ne("pk"@, "updated_at"@);
    lemma_chars_ne("sk"@, "active"@);
    lemma_chars_ne("sk"@, "age"@);
    lemma_chars_ne("sk"@, "scores"@);
    lemma_chars_ne("sk"@, "tags"@);
    lemma_chars_ne("sk"@, "created_at"@);
    lemma_chars_ne("sk"@, "updated_at"@);
    lemma_chars_ne("active"@, "age"@);
    lemma_chars_ne("active"@, "scores"@);
    lemma_chars_ne("active"@, "tags"@);
    lemma_chars_ne("active"@, "created_at"@);
    lemma_chars_ne("active"@, "updated_at"@);
    lemma_chars_ne("age"@, "scores"@);
    lemma_chars_ne("age"@, "tags"@);
    lemma_chars_ne("age"@, "created_at"@);
    lemma_chars_ne("age"@, "updated_at"@);
    lemma_chars_ne("scores"@, "tags"@);
    lemma_chars_ne("scores"@, "created_at"@);
    lemma_chars_ne("scores"@, "updated_at"@);
    lemma_chars_ne("tags"@, "created_at"@);
    lemma_chars_ne("tags"@, "updated_at"@);
    lemma_chars_ne("created_at"@, "updated_at"@);
}

/// Decoding a profile reads its object only as a key-to-value
/// mapping: two objects whose by-name lookups agree on every name —
/// whatever order their entries stand in — are accepted alike, and
/// when accepted they decode to the same record value.
pub proof fn lemma_profile_decode_by_name(a: ValueModel, b: ValueModel)
    requires
        a is Object,
        b is Object,
        forall|k: Seq<char>| #[trigger] key_lookup(a->Object_0, k) == key_lookup(b->Object_0, k),
    ensures
        UserProfile::spec_accepts(a) == UserProfile::spec_accepts(b),
        UserProfile::spec_accepts(a) ==> UserProfile::spec_decoded_value(a)
            == UserProfile::spec_decoded_value(b),
{
    assert(key_lookup(a->Object_0, "pk"@) == key_lookup(b->Object_0, "pk"@));
    assert(key_lookup(a->Object_0, "sk"@) == key_lookup(b->Object_0, "sk"@));
    assert(key_lookup(a->Object_0, "active"@) == key_lookup(b->Object_0, "active"@));
    assert(key_lookup(a->Object_0, "age"@) == key_lookup(b->Object_0, "age"@));
    assert(key_lookup(a->Object_0, "scores"@) == key_lookup(b->Object_0, "scores"@));
    assert(key_lookup(a->Object_0, "tags"@) == key_lookup(b->Object_0, "tags"@));
    assert(key_lookup(a->Object_0, "created_at"@) == key_lookup(b->Object_0, "created_at"@));
    assert(key_lookup(a->Object_0, "updated_at"@) == key_lookup(b->Object_0, "updated_at"@));
    if UserProfile::spec_accepts(a) {
        assert(UserProfile::spec_decoded_value(a)->Object_0 =~= UserProfile::spec_decoded_value(
            b,
        )->Object_0);
    }
}

/// A profile round-trips at the record level: its structured value
/// survives the codec (its fields are booleans, numbers, strings, a
/// number array and a string array), the schema accepts that value,
/// and decoding it by name yields the value itself back. With the
/// contracts of `encode_item`, `decode_item` and `from_value`,
/// decoding an encoded profile gives back a record whose value is
/// exactly the original's.
pub proof fn lemma_profile_round_trip(p: UserProfile)
    ensures
        p.spec_value() is Object,
        round_trippable(p.spec_value()),
        spec_entries_to_attr(p.spec_value()->Object_0) matches Some(es) && spec_entries_from_attr(
            es,
        ) == Some(p.spec_value()->Object_0),
        UserProfile::spec_accepts(p.spec_value()),
        UserProfile::spec_decoded_value(p.spec_value()) == p.spec_value(),
{
    let entries = p.spec_value()->Object_0;
    lemma_round_trippable_entries(entries);
    assert forall|k: int| 0 <= k < entries.len() implies round_trippable(
        (#[trigger] entries[k]).1,
    ) by {
        if k == 4 {
            assert(entries[4].1 == ValueModel::Array(spec_scores_model(p.scores@)));
            assert(forall|i: int|
                0 <= i < p.scores@.len() ==> #[trigger] spec_scores_model(p.scores@)[i]
                    == spec_u32_number(p.scores@[i]));
            assert(forall|i: int|
                0 <= i < spec_scores_model(p.scores@).len() ==> ((#[trigger] spec_scores_model(
                    p.scores@,
                )[i]) matches ValueModel::Number(d) && d.wf()));
        } else if k == 5 {
            assert(entries[5].1 == ValueModel::Array(spec_tags_model(p.tags@)));
            assert(forall|i: int|
                0 <= i < spec_tags_model(p.tags@).len() ==> (#[trigger] spec_tags_model(
                    p.tags@,
                )[i]) is Text);
        }
    }
    assert(round_trippable(p.spec_value()));
    lemma_codec_round_trip(p.spec_value());
    // the schema accepts the canonical object: each field stands at
    // its canonical position, and no other name shadows it
    lemma_field_names_distinct();
    lemma_key_index_is(entries, "pk"@, 0);
    lemma_key_index_is(entries, "sk"@, 1);
    lemma_key_index_is(entries, "active"@, 2);
    lemma_key_index_is(entries, "age"@, 3);
    lemma_key_index_is(entries, "scores"@, 4);
    lemma_key_index_is(entries, "tags"@, 5);
    lemma_key_index_is(entries, "created_at"@, 6);
    lemma_key_index_is(entries, "updated_at"@, 7);
    assert(forall|i: int|
        0 <= i < p.scores@.len() ==> is_u32_number(#[trigger] spec_scores_model(p.scores@)[i]));
    assert(UserProfile::spec_accepts(p.spec_value()));
    assert(UserProfile::spec_decoded_value(p.spec_value())->Object_0 =~= entries);
}

} // verus!
