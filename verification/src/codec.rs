//! The record codec: serializing a record's structured value to an
//! attribute map and assembling one back from a fetched item.
//!
//! Only the top level is required to be an object; nested structures
//! stay nested as map and set attributes inside the item.

use vstd::prelude::*;
use vstd::string::StringExecFns;
use crate::convert::{
    from_attribute, lemma_entries_from_attr, lemma_entries_round_trip, lemma_entries_to_attr,
    round_trippable, spec_entries_from_attr, spec_entries_to_attr, spec_from_attribute,
    spec_to_attribute, to_attribute,
};
use crate::errors::AwwsyError;
use crate::values::{
    lemma_attr_entries_model, lemma_entries_model, lemma_entries_wf, AttributeMap, AttributeValue,
    StructuredValue, ValueModel,
};

verus! {

/// Serialize a record's structured value into an attribute map.
/// The value must be an object; anything else is a schema error, and
/// an unsupported array element inside is a conversion error.
#[verifier::loop_isolation(false)]
pub fn encode_item(v: &StructuredValue) -> (r: Result<AttributeMap, AwwsyError>)
    requires
        v@.wf(),
    ensures
        v@ matches ValueModel::Object(em) ==> (match spec_entries_to_attr(em) {
            Some(es) => r matches Ok(m) && AttributeValue::attr_entries_model(m@) == es,
            None => r matches Err(e) && (e matches AwwsyError::ConversionError(msg) && msg@
                == "unsupported array element"@),
        }),
        !(v@ is Object) ==> (r matches Err(e) && (e matches AwwsyError::SchemaError(msg) && msg@
            == "record did not serialize to an object"@)),
{
    match v {
        StructuredValue::Object(entries) => {
            let ghost em = StructuredValue::entries_model(entries@);
            proof {
                lemma_entries_model(entries@);
                lemma_entries_wf(em);
                assert(v@ == ValueModel::Object(em));
            }
            let mut out: Vec<(String, AttributeValue)> = Vec::new();
            let mut idx: usize = 0;
            while idx < entries.len()
                invariant
                    idx <= entries@.len(),
                    out@.len() == idx,
                    forall|k: int|
                        0 <= k < idx ==> spec_to_attribute(em[k].1) == Some(
                            (#[trigger] out@[k].1)@,
                        ),
                    forall|k: int| 0 <= k < idx ==> (#[trigger] out@[k].0)@ == em[k].0,
                decreases entries@.len() - idx,
            {
                proof {
                    assert(em[idx as int] == (
                        entries@[idx as int].0@,
                        entries@[idx as int].1.model(),
                    ));
                    assert(em[idx as int].1.wf());
                }
                let pair = &entries[idx];
                match to_attribute(&pair.1) {
                    Ok(a) => {
                        out.push((pair.0.clone(), a));
                    },
                    Err(e) => {
                        proof {
                            assert(spec_to_attribute(em[idx as int].1) is None);
                            lemma_entries_to_attr(em);
                        }
                        return Err(e);
                    },
                }
                idx = idx + 1;
            }
            proof {
                assert forall|k: int| 0 <= k < em.len() implies spec_to_attribute(
                    #[trigger] em[k].1,
                ) is Some by {
                    assert(spec_to_attribute(em[k].1) == Some(out@[k].1@));
                }
                lemma_entries_to_attr(em);
                assert(spec_entries_to_attr(em) is Some);
                lemma_attr_entries_model(out@);
                let es = spec_entries_to_attr(em)->Some_0;
                assert(es.len() == em.len());
                assert(out@.len() == em.len());
                assert forall|k: int| 0 <= k < es.len() implies es[k]
                    == AttributeValue::attr_entries_model(out@)[k] by {
                    assert(es[k] == (em[k].0, spec_to_attribute(em[k].1)->Some_0));
                    assert(AttributeValue::attr_entries_model(out@)[k] == (
                        out@[k].0@,
                        out@[k].1.model(),
                    ));
                    assert(spec_to_attribute(em[k].1) == Some(out@[k].1@));
                    assert(out@[k].0@ == em[k].0);
                }
                assert(es =~= AttributeValue::attr_entries_model(out@));
            }
            Ok(out)
        },
        StructuredValue::Null => Err(
            AwwsyError::SchemaError(String::from_str("record did not serialize to an object")),
        ),
        StructuredValue::Bool(_) => Err(
            AwwsyError::SchemaError(String::from_str("record did not serialize to an object")),
        ),
        StructuredValue::Number(_) => Err(
            AwwsyError::SchemaError(String::from_str("record did not serialize to an object")),
        ),
        StructuredValue::Text(_) => Err(
            AwwsyError::SchemaError(String::from_str("record did not serialize to an object")),
        ),
        StructuredValue::Array(_) => Err(
            AwwsyError::SchemaError(String::from_str("record did not serialize to an object")),
        ),
    }
}

/// Assemble the structured object that a fetched item stands for,
/// converting every attribute back. An unparsable number string
/// anywhere inside is a conversion error.
#[verifier::loop_isolation(false)]
pub fn decode_item(m: &AttributeMap) -> (r: Result<StructuredValue, AwwsyError>)
    ensures
        match spec_entries_from_attr(AttributeValue::attr_entries_model(m@)) {
            Some(es) => r matches Ok(v) && v@ == ValueModel::Object(es),
            None => r matches Err(e) && (e matches AwwsyError::ConversionError(msg) && msg@
                == "unparsable number"@),
        },
{
    let ghost em = AttributeValue::attr_entries_model(m@);
    proof {
        lemma_attr_entries_model(m@);
    }
    let mut out: Vec<(String, StructuredValue)> = Vec::new();
    let mut idx: usize = 0;
    while idx < m.len()
        invariant
            idx <= m@.len(),
            out@.len() == idx,
            forall|k: int|
                0 <= k < idx ==> spec_from_attribute(em[k].1) == Some((#[trigger] out@[k].1)@),
            forall|k: int| 0 <= k < idx ==> (#[trigger] out@[k].0)@ == em[k].0,
        decreases m@.len() - idx,
    {
        proof {
            assert(em[idx as int] == (m@[idx as int].0@, m@[idx as int].1.model()));
        }
        let pair = &m[idx];
        match from_attribute(&pair.1) {
            Ok(value) => {
                out.push((pair.0.clone(), value));
            },
            Err(e) => {
                proof {
                    assert(spec_from_attribute(em[idx as int].1) is None);
                    lemma_entries_from_attr(em);
                }
                return Err(e);
            },
        }
        idx = idx + 1;
    }
    proof {
        assert forall|k: int| 0 <= k < em.len() implies spec_from_attribute(
            #[trigger] em[k].1,
        ) is Some by {
            assert(spec_from_attribute(em[k].1) == Some(out@[k].1@));
        }
        lemma_entries_from_attr(em);
        assert(spec_entries_from_attr(em) is Some);
        lemma_entries_model(out@);
        let es = spec_entries_from_attr(em)->Some_0;
        assert(es.len() == em.len());
        assert(out@.len() == em.len());
        assert forall|k: int| 0 <= k < es.len() implies es[k] == StructuredValue::entries_model(
            out@,
        )[k] by {
            assert(es[k] == (em[k].0, spec_from_attribute(em[k].1)->Some_0));
            assert(StructuredValue::entries_model(out@)[k] == (out@[k].0@, out@[k].1.model()));
            assert(spec_from_attribute(em[k].1) == Some(out@[k].1@));
            assert(out@[k].0@ == em[k].0);
        }
        assert(es =~= StructuredValue::entries_model(out@));
    }
    Ok(StructuredValue::Object(out))
}

/// Round trip of the record codec: for any object value whose fields
/// are limited to booleans, well-formed numbers, strings, nested such
/// objects, all-number arrays and all-string arrays, encoding and
/// then decoding yields the value unchanged. Together with the
/// contracts of [`encode_item`] and [`decode_item`], decoding an
/// encoded record gives back exactly the record's object.
pub proof fn lemma_codec_round_trip(v: ValueModel)
    requires
        round_trippable(v),
        v is Object,
    ensures
        spec_entries_to_attr(v->Object_0) matches Some(es) && spec_entries_from_attr(es) == Some(
            v->Object_0,
        ),
{
    lemma_entries_round_trip(v->Object_0);
}

} // verus!
