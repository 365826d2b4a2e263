//! The query builder: translating a partial-key equality predicate
//! into a condition expression with placeholder substitution.
//!
//! Each field yields a name placeholder `#field`, a value placeholder
//! `:field`, and the clause `#field = :field`; clauses are joined
//! with `" AND "`. Only equality and conjunction are supported. An
//! empty predicate yields an empty condition text, which the store
//! rejects: callers must treat that as an error before issuing a
//! query.

use vstd::prelude::*;
use vstd::string::StringExecFns;
use crate::convert::{spec_to_attribute, to_attribute};
use crate::errors::AwwsyError;
use crate::values::{AttributeMap, StructuredValue};

verus! {

/// A field-equality condition set: field names mapped to the values
/// they must equal.
pub type QueryPredicate = Vec<(String, StructuredValue)>;

/// The three parallel structures a predicate translates into.
#[derive(Debug, PartialEq, Eq)]
pub struct QueryExpression {
    /// Name placeholders: `#field` mapped to the field name itself.
    pub names: Vec<(String, String)>,
    /// Value placeholders: `:field` mapped to the converted value.
    pub values: AttributeMap,
    /// The equality clauses joined with `" AND "`.
    pub condition: String,
}

/// The field names of a predicate, in order.
pub open spec fn pred_fields(p: Seq<(String, StructuredValue)>) -> Seq<Seq<char>> {
    Seq::new(p.len(), |i: int| p[i].0@)
}

/// The name placeholder of a field.
pub open spec fn name_placeholder(field: Seq<char>) -> Seq<char> {
    "#"@ + field
}

/// The value placeholder of a field.
pub open spec fn value_placeholder(field: Seq<char>) -> Seq<char> {
    ":"@ + field
}

/// The equality clause of a field.
pub open spec fn equality_clause(field: Seq<char>) -> Seq<char> {
    name_placeholder(field) + " = "@ + value_placeholder(field)
}

/// The equality clauses of the fields, joined with `" AND "`.
pub open spec fn spec_condition(fields: Seq<Seq<char>>) -> Seq<char>
    decreases fields.len(),
{
    if fields.len() == 0 {
        Seq::empty()
    } else if fields.len() == 1 {
        equality_clause(fields[0])
    } else {
        spec_condition(fields.drop_last()) + " AND "@ + equality_clause(fields.last())
    }
}

/// What a correctly built expression looks like for a predicate:
/// name and value placeholders listed field by field, the values
/// converted, and the condition text the joined clauses.
pub open spec fn expression_matches(q: QueryExpression, p: Seq<(String, StructuredValue)>) -> bool {
    let fields = pred_fields(p);
    &&& q.names@.len() == p.len()
    &&& q.values@.len() == p.len()
    &&& forall|k: int|
        0 <= k < p.len() ==> (#[trigger] q.names@[k]).0@ == name_placeholder(fields[k])
            && q.names@[k].1@ == fields[k]
    &&& forall|k: int|
        0 <= k < p.len() ==> (#[trigger] q.values@[k]).0@ == value_placeholder(fields[k])
            && spec_to_attribute(p[k].1@) == Some(q.values@[k].1@)
    &&& q.condition@ == spec_condition(fields)
}

/// Translate a predicate into its placeholder maps and condition
/// text. Fails exactly when some value of the predicate cannot be
/// converted to an attribute.
#[verifier::loop_isolation(false)]
pub fn build_query(predicate: &QueryPredicate) -> (r: Result<QueryExpression, AwwsyError>)
    requires
        forall|i: int| 0 <= i < predicate@.len() ==> (#[trigger] predicate@[i].1)@.wf(),
    ensures
        match r {
            Ok(q) => expression_matches(q, predicate@),
            Err(e) => (exists|k: int|
                0 <= k < predicate@.len() && spec_to_attribute(
                    (#[trigger] predicate@[k].1)@,
                ) is None) && (e matches AwwsyError::ConversionError(msg) && msg@
                == "unsupported array element"@),
        },
{
    let ghost fields = pred_fields(predicate@);
    let mut names: Vec<(String, String)> = Vec::new();
    let mut values: AttributeMap = Vec::new();
    let mut condition = String::new();
    let mut idx: usize = 0;
    while idx < predicate.len()
        invariant
            idx <= predicate@.len(),
            names@.len() == idx,
            values@.len() == idx,
            forall|k: int|
                0 <= k < idx ==> (#[trigger] names@[k]).0@ == name_placeholder(fields[k])
                    && names@[k].1@ == fields[k],
            forall|k: int|
                0 <= k < idx ==> (#[trigger] values@[k]).0@ == value_placeholder(fields[k])
                    && spec_to_attribute(predicate@[k].1@) == Some(values@[k].1@),
            condition@ == spec_condition(fields.take(idx as int)),
        decreases predicate@.len() - idx,
    {
        let pair = &predicate[idx];
        let attribute = match to_attribute(&pair.1) {
            Ok(a) => a,
            Err(e) => {
                proof {
                    assert(0 <= idx < predicate@.len() && spec_to_attribute(
                        (predicate@[idx as int].1)@,
                    ) is None);
                }
                return Err(e);
            },
        };
        let nph = String::from_str("#").concat(pair.0.as_str());
        let vph = String::from_str(":").concat(pair.0.as_str());
        proof {
            assert(fields[idx as int] == predicate@[idx as int].0@);
            assert(fields.take(idx + 1).drop_last() =~= fields.take(idx as int));
            assert(fields.take(idx + 1).last() == fields[idx as int]);
        }
        if idx > 0 {
            condition.append(" AND ");
        }
        condition.append(nph.as_str());
        condition.append(" = ");
        condition.append(vph.as_str());
        proof {
            assert(condition@ =~= spec_condition(fields.take(idx + 1)));
        }
        names.push((nph, pair.0.clone()));
        values.push((vph, attribute));
        idx = idx + 1;
    }
    proof {
        assert(fields.take(predicate@.len() as int) =~= fields);
    }
    Ok(QueryExpression { names, values, condition })
}

} // verus!
