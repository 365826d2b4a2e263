//! The value converter: the bidirectional mapping between a
//! structured value and the store's typed attribute representation.
//!
//! Arrays are flattened homogeneously: every element must be a number
//! or a string; whichever kind is in the strict majority names the
//! set that is emitted, and elements of the other kind are dropped.
//! That loss is deliberate, documented behaviour. An array element of
//! any other shape fails the conversion rather than corrupting data.

use vstd::prelude::*;
use vstd::string::StringExecFns;
use crate::errors::AwwsyError;
use crate::numbers::{parse_decimal, render_decimal, spec_parse_decimal, spec_render_decimal};
use crate::values::{
    lemma_attr_entries_model, lemma_entries_model, lemma_entries_wf, lemma_items_model,
    lemma_items_wf, string_seq_model, AttrModel, AttributeValue, StructuredValue, ValueModel,
};

verus! {

/// Whether every array element is a number or a string.
pub open spec fn all_scalar(items: Seq<ValueModel>) -> bool {
    forall|i: int|
        0 <= i < items.len() ==> (#[trigger] items[i]) is Number || items[i] is Text
}

/// How many elements of `items` are numbers.
pub open spec fn num_count(items: Seq<ValueModel>) -> int
    decreases items.len(),
{
    if items.len() == 0 {
        0
    } else {
        num_count(items.drop_last()) + if items.last() is Number {
            1int
        } else {
            0int
        }
    }
}

/// How many elements of `items` are strings.
pub open spec fn str_count(items: Seq<ValueModel>) -> int
    decreases items.len(),
{
    if items.len() == 0 {
        0
    } else {
        str_count(items.drop_last()) + if items.last() is Text {
            1int
        } else {
            0int
        }
    }
}

/// The decimal strings of the number elements of `items`, in order.
pub open spec fn render_numbers(items: Seq<ValueModel>) -> Seq<Seq<char>>
    decreases items.len(),
{
    if items.len() == 0 {
        Seq::empty()
    } else {
        render_numbers(items.drop_last()) + match items.last() {
            ValueModel::Number(d) => seq![spec_render_decimal(d)],
            _ => Seq::empty(),
        }
    }
}

/// The string elements of `items`, in order.
pub open spec fn texts_of(items: Seq<ValueModel>) -> Seq<Seq<char>>
    decreases items.len(),
{
    if items.len() == 0 {
        Seq::empty()
    } else {
        texts_of(items.drop_last()) + match items.last() {
            ValueModel::Text(s) => seq![s],
            _ => Seq::empty(),
        }
    }
}

/// The attribute that a structured value converts to: null, booleans
/// and strings map directly, a number becomes its decimal string, an
/// object becomes a map entry by entry, and an array of scalars
/// becomes a number set when numbers are in the strict majority and a
/// string set otherwise. An array with any other element converts to
/// nothing.
pub open spec fn spec_to_attribute(v: ValueModel) -> Option<AttrModel>
    decreases v, 1int,
{
    match v {
        ValueModel::Null => Some(AttrModel::Null(true)),
        ValueModel::Bool(b) => Some(AttrModel::Bool(b)),
        ValueModel::Number(d) => Some(AttrModel::N(spec_render_decimal(d))),
        ValueModel::Text(s) => Some(AttrModel::S(s)),
        ValueModel::Object(entries) => {
            proof {
                assert(decreases_to!(v => entries));
            }
            match spec_entries_to_attr(entries) {
                Some(es) => Some(AttrModel::M(es)),
                None => None,
            }
        },
        ValueModel::Array(items) => {
            if !all_scalar(items) {
                None
            } else if num_count(items) > str_count(items) {
                Some(AttrModel::Ns(render_numbers(items)))
            } else {
                Some(AttrModel::Ss(texts_of(items)))
            }
        },
    }
}

/// The attribute entries that object entries convert to, in order;
/// nothing if any single entry converts to nothing.
pub open spec fn spec_entries_to_attr(entries: Seq<(Seq<char>, ValueModel)>) -> Option<
    Seq<(Seq<char>, AttrModel)>,
>
    decreases entries, 0int,
{
    if entries.len() == 0 {
        Some(Seq::empty())
    } else {
        proof {
            assert(decreases_to!(entries => entries[0]));
            assert(decreases_to!(entries[0] => entries[0].1));
        }
        match spec_to_attribute(entries[0].1) {
            Some(a) => match spec_entries_to_attr(entries.drop_first()) {
                Some(rest) => Some(seq![(entries[0].0, a)] + rest),
                None => None,
            },
            None => None,
        }
    }
}

/// The structured value that an attribute converts back to: the
/// inverse of [`spec_to_attribute`]. A number set becomes an array of
/// numbers and a string set an array of strings; an unparsable number
/// string converts to nothing.
pub open spec fn spec_from_attribute(a: AttrModel) -> Option<ValueModel>
    decreases a, 1int,
{
    match a {
        AttrModel::Null(_) => Some(ValueModel::Null),
        AttrModel::Bool(b) => Some(ValueModel::Bool(b)),
        AttrModel::N(s) => match spec_parse_decimal(s) {
            Some(d) => Some(ValueModel::Number(d)),
            None => None,
        },
        AttrModel::S(s) => Some(ValueModel::Text(s)),
        AttrModel::Ss(items) => Some(
            ValueModel::Array(items.map_values(|s: Seq<char>| ValueModel::Text(s))),
        ),
        AttrModel::Ns(items) => match spec_parse_numbers(items) {
            Some(nums) => Some(ValueModel::Array(nums)),
            None => None,
        },
        AttrModel::M(entries) => {
            proof {
                assert(decreases_to!(a => entries));
            }
            match spec_entries_from_attr(entries) {
                Some(es) => Some(ValueModel::Object(es)),
                None => None,
            }
        },
    }
}

/// The numbers that a sequence of decimal strings parses to, in
/// order; nothing if any single string is unparsable.
pub open spec fn spec_parse_numbers(items: Seq<Seq<char>>) -> Option<Seq<ValueModel>>
    decreases items.len(),
{
    if items.len() == 0 {
        Some(Seq::empty())
    } else {
        match spec_parse_decimal(items[0]) {
            Some(d) => match spec_parse_numbers(items.drop_first()) {
                Some(rest) => Some(seq![ValueModel::Number(d)] + rest),
                None => None,
            },
            None => None,
        }
    }
}

/// The object entries that attribute entries convert back to, in
/// order; nothing if any single entry converts to nothing.
pub open spec fn spec_entries_from_attr(entries: Seq<(Seq<char>, AttrModel)>) -> Option<
    Seq<(Seq<char>, ValueModel)>,
>
    decreases entries, 0int,
{
    if entries.len() == 0 {
        Some(Seq::empty())
    } else {
        proof {
            assert(decreases_to!(entries => entries[0]));
            assert(decreases_to!(entries[0] => entries[0].1));
        }
        match spec_from_attribute(entries[0].1) {
            Some(v) => match spec_entries_from_attr(entries.drop_first()) {
                Some(rest) => Some(seq![(entries[0].0, v)] + rest),
                None => None,
            },
            None => None,
        }
    }
}

/// Entry conversion succeeds exactly when every entry's value
/// converts, and then works entry by entry.
pub proof fn lemma_entries_to_attr(entries: Seq<(Seq<char>, ValueModel)>)
    ensures
        spec_entries_to_attr(entries) is Some <==> (forall|k: int|
            0 <= k < entries.len() ==> spec_to_attribute(#[trigger] entries[k].1) is Some),
        spec_entries_to_attr(entries) matches Some(es) ==> es.len() == entries.len() && (forall|
            k: int,
        |
            0 <= k < entries.len() ==> #[trigger] es[k] == (
                entries[k].0,
                spec_to_attribute(entries[k].1)->Some_0,
            )),
    decreases entries.len(),
{
    if entries.len() > 0 {
        let rest = entries.drop_first();
        lemma_entries_to_attr(rest);
        assert(forall|k: int| 0 <= k < rest.len() ==> #[trigger] rest[k] == entries[k + 1]);
        if spec_entries_to_attr(entries) is Some {
            assert(spec_to_attribute(entries[0].1) is Some);
            assert(spec_entries_to_attr(rest) is Some);
            assert forall|k: int| 0 <= k < entries.len() implies spec_to_attribute(
                #[trigger] entries[k].1,
            ) is Some by {
                if k > 0 {
                    assert(rest[k - 1] == entries[k]);
                    assert(spec_to_attribute(rest[k - 1].1) is Some);
                }
            }
        }
        if forall|k: int|
            0 <= k < entries.len() ==> spec_to_attribute(#[trigger] entries[k].1) is Some {
            assert(spec_to_attribute(entries[0].1) is Some);
            assert forall|k: int| 0 <= k < rest.len() implies spec_to_attribute(
                #[trigger] rest[k].1,
            ) is Some by {
                assert(rest[k] == entries[k + 1]);
                assert(spec_to_attribute(entries[k + 1].1) is Some);
            }
            assert(spec_entries_to_attr(rest) is Some);
        }
        match spec_entries_to_attr(entries) {
            None => {},
            Some(es) => {
            let rs = spec_entries_to_attr(rest)->Some_0;
            assert(es == seq![(entries[0].0, spec_to_attribute(entries[0].1)->Some_0)] + rs);
            assert forall|k: int| 0 <= k < entries.len() implies #[trigger] es[k] == (
                entries[k].0,
                spec_to_attribute(entries[k].1)->Some_0,
            ) by {
                if k > 0 {
                    assert(es[k] == rs[k - 1]);
                    assert(rest[k - 1] == entries[k]);
                }
            }
            },
        }
    }
}

/// Entry back-conversion succeeds exactly when every entry's value
/// converts back, and then works entry by entry.
pub proof fn lemma_entries_from_attr(entries: Seq<(Seq<char>, AttrModel)>)
    ensures
        spec_entries_from_attr(entries) is Some <==> (forall|k: int|
            0 <= k < entries.len() ==> spec_from_attribute(#[trigger] entries[k].1) is Some),
        spec_entries_from_attr(entries) matches Some(es) ==> es.len() == entries.len() && (forall|
            k: int,
        |
            0 <= k < entries.len() ==> #[trigger] es[k] == (
                entries[k].0,
                spec_from_attribute(entries[k].1)->Some_0,
            )),
    decreases entries.len(),
{
    if entries.len() > 0 {
        let rest = entries.drop_first();
        lemma_entries_from_attr(rest);
        assert(forall|k: int| 0 <= k < rest.len() ==> #[trigger] rest[k] == entries[k + 1]);
        if spec_entries_from_attr(entries) is Some {
            assert(spec_from_attribute(entries[0].1) is Some);
            assert(spec_entries_from_attr(rest) is Some);
            assert forall|k: int| 0 <= k < entries.len() implies spec_from_attribute(
                #[trigger] entries[k].1,
            ) is Some by {
                if k > 0 {
                    assert(rest[k - 1] == entries[k]);
                    assert(spec_from_attribute(rest[k - 1].1) is Some);
                }
            }
        }
        if forall|k: int|
            0 <= k < entries.len() ==> spec_from_attribute(#[trigger] entries[k].1) is Some {
            assert(spec_from_attribute(entries[0].1) is Some);
            assert forall|k: int| 0 <= k < rest.len() implies spec_from_attribute(
                #[trigger] rest[k].1,
            ) is Some by {
                assert(rest[k] == entries[k + 1]);
                assert(spec_from_attribute(entries[k + 1].1) is Some);
            }
            assert(spec_entries_from_attr(rest) is Some);
        }
        match spec_entries_from_attr(entries) {
            None => {},
            Some(es) => {
            let rs = spec_entries_from_attr(rest)->Some_0;
            assert(es == seq![(entries[0].0, spec_from_attribute(entries[0].1)->Some_0)] + rs);
            assert forall|k: int| 0 <= k < entries.len() implies #[trigger] es[k] == (
                entries[k].0,
                spec_from_attribute(entries[k].1)->Some_0,
            ) by {
                if k > 0 {
                    assert(es[k] == rs[k - 1]);
                    assert(rest[k - 1] == entries[k]);
                }
            }
            },
        }
    }
}

/// Number-list parsing succeeds exactly when every string parses, and
/// then works string by string.
pub proof fn lemma_parse_numbers(items: Seq<Seq<char>>)
    ensures
        spec_parse_numbers(items) is Some <==> (forall|k: int|
            0 <= k < items.len() ==> spec_parse_decimal(#[trigger] items[k]) is Some),
        spec_parse_numbers(items) matches Some(nums) ==> nums.len() == items.len() && (forall|
            k: int,
        |
            0 <= k < items.len() ==> #[trigger] nums[k] == ValueModel::Number(
                spec_parse_decimal(items[k])->Some_0,
            )),
    decreases items.len(),
{
    if items.len() > 0 {
        let rest = items.drop_first();
        lemma_parse_numbers(rest);
        assert(forall|k: int| 0 <= k < rest.len() ==> #[trigger] rest[k] == items[k + 1]);
        if spec_parse_numbers(items) is Some {
            assert(spec_parse_decimal(items[0]) is Some);
            assert(spec_parse_numbers(rest) is Some);
            assert forall|k: int| 0 <= k < items.len() implies spec_parse_decimal(
                #[trigger] items[k],
            ) is Some by {
                if k > 0 {
                    assert(rest[k - 1] == items[k]);
                    assert(spec_parse_decimal(rest[k - 1]) is Some);
                }
            }
        }
        if forall|k: int| 0 <= k < items.len() ==> spec_parse_decimal(#[trigger] items[k]) is Some {
            assert(spec_parse_decimal(items[0]) is Some);
            assert forall|k: int| 0 <= k < rest.len() implies spec_parse_decimal(
                #[trigger] rest[k],
            ) is Some by {
                assert(rest[k] == items[k + 1]);
                assert(spec_parse_decimal(items[k + 1]) is Some);
            }
            assert(spec_parse_numbers(rest) is Some);
        }
        match spec_parse_numbers(items) {
            None => {},
            Some(nums) => {
            let rs = spec_parse_numbers(rest)->Some_0;
            assert(nums == seq![ValueModel::Number(spec_parse_decimal(items[0])->Some_0)] + rs);
            assert forall|k: int| 0 <= k < items.len() implies #[trigger] nums[k]
                == ValueModel::Number(spec_parse_decimal(items[k])->Some_0) by {
                if k > 0 {
                    assert(nums[k] == rs[k - 1]);
                    assert(rest[k - 1] == items[k]);
                }
            }
            },
        }
    }
}

/// Whatever converts back from an attribute is well formed: every
/// decimal a parse produces leaves the room the renderer asks for.
/// A caller may therefore convert a decoded value to an attribute
/// again without further checks.
pub proof fn lemma_from_attribute_wf(a: AttrModel)
    ensures
        spec_from_attribute(a) matches Some(v) ==> v.wf(),
    decreases a, 1int,
{
    match a {
        AttrModel::Null(_) => {},
        AttrModel::Bool(_) => {},
        AttrModel::S(_) => {},
        AttrModel::N(_) => {},
        AttrModel::Ss(items) => {
            let mapped = items.map_values(|s: Seq<char>| ValueModel::Text(s));
            crate::values::lemma_items_wf(mapped);
            assert(forall|i: int| 0 <= i < mapped.len() ==> (#[trigger] mapped[i]).wf());
        },
        AttrModel::Ns(items) => {
            match spec_parse_numbers(items) {
                None => {},
                Some(nums) => {
                    lemma_parse_numbers(items);
                    crate::values::lemma_items_wf(nums);
                    assert forall|i: int| 0 <= i < nums.len() implies (#[trigger] nums[i]).wf() by {
                        assert(nums[i] == ValueModel::Number(spec_parse_decimal(items[i])->Some_0));
                        assert(spec_parse_decimal(items[i]) is Some);
                    }
                },
            }
        },
        AttrModel::M(entries) => {
            assert(decreases_to!(a => entries));
            lemma_entries_from_attr_wf(entries);
        },
    }
}

/// Whatever entries convert back from attribute entries are well
/// formed, entry by entry.
pub proof fn lemma_entries_from_attr_wf(entries: Seq<(Seq<char>, AttrModel)>)
    ensures
        spec_entries_from_attr(entries) matches Some(es) ==> ValueModel::entries_wf(es),
    decreases entries, 0int,
{
    if entries.len() > 0 {
        assert(decreases_to!(entries => entries[0]));
        assert(decreases_to!(entries[0] => entries[0].1));
        lemma_from_attribute_wf(entries[0].1);
        lemma_entries_from_attr_wf(entries.drop_first());
        match spec_entries_from_attr(entries) {
            None => {},
            Some(es) => {
                let v0 = spec_from_attribute(entries[0].1)->Some_0;
                let rest = spec_entries_from_attr(entries.drop_first())->Some_0;
                assert(es == seq![(entries[0].0, v0)] + rest);
                assert(es[0].1 == v0);
                assert(es.drop_first() =~= rest);
                assert(ValueModel::entries_wf(es));
            },
        }
    }
}

/// Values guaranteed to survive the trip to the attribute format and
/// back: nulls, booleans, well-formed numbers, strings, arrays whose
/// elements are all numbers or all strings, and objects of such
/// values. Arrays mixing the two kinds are flattened lossily and give
/// no such guarantee.
pub open spec fn round_trippable(v: ValueModel) -> bool
    decreases v, 1int,
{
    match v {
        ValueModel::Null => true,
        ValueModel::Bool(_) => true,
        ValueModel::Number(d) => d.wf(),
        ValueModel::Text(_) => true,
        ValueModel::Object(entries) => {
            proof {
                assert(decreases_to!(v => entries));
            }
            round_trippable_entries(entries)
        },
        ValueModel::Array(items) => (forall|i: int|
            0 <= i < items.len() ==> ((#[trigger] items[i]) matches ValueModel::Number(d)
                && d.wf())) || (forall|i: int|
            0 <= i < items.len() ==> (#[trigger] items[i]) is Text),
    }
}

/// Every entry's value survives the round trip.
pub open spec fn round_trippable_entries(entries: Seq<(Seq<char>, ValueModel)>) -> bool
    decreases entries, 0int,
{
    if entries.len() == 0 {
        true
    } else {
        proof {
            assert(decreases_to!(entries => entries[0]));
            assert(decreases_to!(entries[0] => entries[0].1));
        }
        round_trippable(entries[0].1) && round_trippable_entries(entries.drop_first())
    }
}

/// `round_trippable_entries` holds exactly when every entry's value
/// is round-trippable.
pub proof fn lemma_round_trippable_entries(entries: Seq<(Seq<char>, ValueModel)>)
    ensures
        round_trippable_entries(entries) <==> (forall|k: int|
            0 <= k < entries.len() ==> round_trippable((#[trigger] entries[k]).1)),
    decreases entries.len(),
{
    if entries.len() > 0 {
        let rest = entries.drop_first();
        lemma_round_trippable_entries(rest);
        assert(forall|k: int| 0 <= k < rest.len() ==> #[trigger] rest[k] == entries[k + 1]);
        if round_trippable_entries(entries) {
            assert forall|k: int| 0 <= k < entries.len() implies round_trippable(
                (#[trigger] entries[k]).1,
            ) by {
                if k > 0 {
                    assert(rest[k - 1] == entries[k]);
                    assert(round_trippable(rest[k - 1].1));
                }
            }
        }
        if forall|k: int| 0 <= k < entries.len() ==> round_trippable((#[trigger] entries[k]).1) {
            assert forall|k: int| 0 <= k < rest.len() implies round_trippable(
                (#[trigger] rest[k]).1,
            ) by {
                assert(rest[k] == entries[k + 1]);
                assert(round_trippable(entries[k + 1].1));
            }
        }
    }
}

/// In an all-number array every element counts as a number, and its
/// set representation renders each element in order.
proof fn lemma_array_all_numbers(items: Seq<ValueModel>)
    requires
        forall|i: int| 0 <= i < items.len() ==> (#[trigger] items[i]) is Number,
    ensures
        num_count(items) == items.len(),
        str_count(items) == 0,
        render_numbers(items).len() == items.len(),
        forall|k: int|
            0 <= k < items.len() ==> #[trigger] render_numbers(items)[k] == spec_render_decimal(
                items[k]->Number_0,
            ),
    decreases items.len(),
{
    if items.len() > 0 {
        let head = items.drop_last();
        assert(forall|i: int| 0 <= i < head.len() ==> #[trigger] head[i] == items[i]);
        lemma_array_all_numbers(head);
        assert(items.last() is Number);
        assert(render_numbers(items) == render_numbers(head) + seq![
            spec_render_decimal(items.last()->Number_0),
        ]);
    }
}

/// In an all-string array every element counts as a string, and its
/// set representation keeps each element in order.
proof fn lemma_array_all_texts(items: Seq<ValueModel>)
    requires
        forall|i: int| 0 <= i < items.len() ==> (#[trigger] items[i]) is Text,
    ensures
        num_count(items) == 0,
        str_count(items) == items.len(),
        texts_of(items).len() == items.len(),
        forall|k: int|
            0 <= k < items.len() ==> #[trigger] texts_of(items)[k] == items[k]->Text_0,
    decreases items.len(),
{
    if items.len() > 0 {
        let head = items.drop_last();
        assert(forall|i: int| 0 <= i < head.len() ==> #[trigger] head[i] == items[i]);
        lemma_array_all_texts(head);
        assert(items.last() is Text);
        assert(texts_of(items) == texts_of(head) + seq![items.last()->Text_0]);
    }
}

/// Round trip of the value converter: converting a round-trippable
/// value to its attribute and back yields the value unchanged.
pub proof fn lemma_value_round_trip(v: ValueModel)
    requires
        round_trippable(v),
    ensures
        spec_to_attribute(v) matches Some(a) && spec_from_attribute(a) == Some(v),
    decreases v, 1int,
{
    match v {
        ValueModel::Null => {},
        ValueModel::Bool(_) => {},
        ValueModel::Text(_) => {},
        ValueModel::Number(d) => {
            crate::numbers::lemma_parse_render_decimal(d);
        },
        ValueModel::Object(entries) => {
            assert(decreases_to!(v => entries));
            lemma_entries_round_trip(entries);
        },
        ValueModel::Array(items) => {
            if items.len() == 0 {
                assert(all_scalar(items));
                assert(spec_to_attribute(v) == Some(AttrModel::Ss(texts_of(items))));
                assert(texts_of(items) == Seq::<Seq<char>>::empty());
                let mapped = texts_of(items).map_values(|s: Seq<char>| ValueModel::Text(s));
                assert(mapped =~= items);
            } else if forall|i: int|
                0 <= i < items.len() ==> ((#[trigger] items[i]) matches ValueModel::Number(d)
                    && d.wf()) {
                assert(forall|i: int| 0 <= i < items.len() ==> (#[trigger] items[i]) is Number);
                lemma_array_all_numbers(items);
                assert(all_scalar(items));
                assert(num_count(items) > str_count(items));
                let rendered = render_numbers(items);
                assert(spec_to_attribute(v) == Some(AttrModel::Ns(rendered)));
                assert forall|k: int| 0 <= k < rendered.len() implies spec_parse_decimal(
                    #[trigger] rendered[k],
                ) == Some(items[k]->Number_0) by {
                    assert((items[k] matches ValueModel::Number(d) && d.wf()));
                    crate::numbers::lemma_parse_render_decimal(items[k]->Number_0);
                }
                lemma_parse_numbers(rendered);
                assert(spec_parse_numbers(rendered) is Some);
                let nums = spec_parse_numbers(rendered)->Some_0;
                assert forall|k: int| 0 <= k < nums.len() implies nums[k] == items[k] by {
                    assert(nums[k] == ValueModel::Number(spec_parse_decimal(rendered[k])->Some_0));
                    assert(spec_parse_decimal(rendered[k]) == Some(items[k]->Number_0));
                }
                assert(nums =~= items);
            } else {
                assert(forall|i: int| 0 <= i < items.len() ==> (#[trigger] items[i]) is Text);
                lemma_array_all_texts(items);
                assert(all_scalar(items));
                assert(num_count(items) <= str_count(items));
                let texts = texts_of(items);
                assert(spec_to_attribute(v) == Some(AttrModel::Ss(texts)));
                let mapped = texts.map_values(|s: Seq<char>| ValueModel::Text(s));
                assert forall|k: int| 0 <= k < mapped.len() implies mapped[k] == items[k] by {
                    assert(mapped[k] == ValueModel::Text(texts[k]));
                    assert(texts[k] == items[k]->Text_0);
                }
                assert(mapped =~= items);
            }
        },
    }
}

/// Round trip of object entries: converting every entry to its
/// attribute and back yields the entries unchanged.
pub proof fn lemma_entries_round_trip(entries: Seq<(Seq<char>, ValueModel)>)
    requires
        round_trippable_entries(entries),
    ensures
        spec_entries_to_attr(entries) matches Some(es) && spec_entries_from_attr(es) == Some(
            entries,
        ),
    decreases entries, 0int,
{
    if entries.len() > 0 {
        assert(decreases_to!(entries => entries[0]));
        assert(decreases_to!(entries[0] => entries[0].1));
        lemma_value_round_trip(entries[0].1);
        lemma_entries_round_trip(entries.drop_first());
        let a0 = spec_to_attribute(entries[0].1)->Some_0;
        let rest_es = spec_entries_to_attr(entries.drop_first())->Some_0;
        let es = seq![(entries[0].0, a0)] + rest_es;
        assert(spec_entries_to_attr(entries) == Some(es));
        assert(es[0] == (entries[0].0, a0));
        assert(es.drop_first() =~= rest_es);
        let v0 = spec_from_attribute(a0)->Some_0;
        assert(v0 == entries[0].1);
        let rest_vs = spec_entries_from_attr(rest_es)->Some_0;
        assert(rest_vs == entries.drop_first());
        assert(spec_entries_from_attr(es) == Some(seq![(es[0].0, v0)] + rest_vs));
        assert(seq![(es[0].0, v0)] + rest_vs =~= entries);
    }
}

/// Convert a structured value to its wire attribute. Fails exactly
/// when an array somewhere inside holds an element that is neither a
/// number nor a string.
#[verifier::loop_isolation(false)]
pub fn to_attribute(v: &StructuredValue) -> (r: Result<AttributeValue, AwwsyError>)
    requires
        v@.wf(),
    ensures
        match r {
            Ok(a) => spec_to_attribute(v@) == Some(a@),
            Err(e) => spec_to_attribute(v@) is None && (e matches AwwsyError::ConversionError(m)
                && m@ == "unsupported array element"@),
        },
    decreases *v,
{
    match v {
        StructuredValue::Null => Ok(AttributeValue::Null(true)),
        StructuredValue::Bool(b) => Ok(AttributeValue::Bool(*b)),
        StructuredValue::Number(d) => Ok(AttributeValue::N(render_decimal(d))),
        StructuredValue::Text(s) => Ok(AttributeValue::S(s.clone())),
        StructuredValue::Object(entries) => {
            let ghost em = StructuredValue::entries_model(entries@);
            proof {
                lemma_entries_model(entries@);
                lemma_entries_wf(em);
                assert(v@ == ValueModel::Object(em));
            }
            let mut out: Vec<(String, AttributeValue)> = Vec::new();
            let mut idx: usize = 0;
            while idx < entries.len()
                invariant
                    idx <= entries@.len(),
                    out@.len() == idx,
                    forall|k: int|
                        0 <= k < idx ==> spec_to_attribute(em[k].1) == Some(
                            (#[trigger] out@[k].1)@,
                        ),
                    forall|k: int| 0 <= k < idx ==> (#[trigger] out@[k].0)@ == em[k].0,
                decreases entries@.len() - idx,
            {
                proof {
                    assert(decreases_to!(*v => *entries));
                    assert(decreases_to!(*entries => entries@));
                    assert(decreases_to!(entries@ => entries@[idx as int]));
                    assert(decreases_to!(entries@[idx as int] => entries@[idx as int].1));
                    assert(em[idx as int] == (entries@[idx as int].0@, entries@[idx as int].1.model()));
                    assert(em[idx as int].1.wf());
                }
                let pair = &entries[idx];
                match to_attribute(&pair.1) {
                    Ok(a) => {
                        out.push((pair.0.clone(), a));
                    },
                    Err(e) => {
                        proof {
                            assert(spec_to_attribute(em[idx as int].1) is None);
                            lemma_entries_to_attr(em);
                        }
                        return Err(e);
                    },
                }
                idx = idx + 1;
            }
            proof {
                assert forall|k: int| 0 <= k < em.len() implies spec_to_attribute(
                    #[trigger] em[k].1,
                ) is Some by {
                    assert(spec_to_attribute(em[k].1) == Some(out@[k].1@));
                }
                lemma_entries_to_attr(em);
                assert(spec_entries_to_attr(em) is Some);
                lemma_attr_entries_model(out@);
                let es = spec_entries_to_attr(em)->Some_0;
                assert(es.len() == em.len());
                assert(out@.len() == em.len());
                assert forall|k: int| 0 <= k < es.len() implies es[k]
                    == AttributeValue::attr_entries_model(out@)[k] by {
                    assert(es[k] == (em[k].0, spec_to_attribute(em[k].1)->Some_0));
                    assert(AttributeValue::attr_entries_model(out@)[k] == (
                        out@[k].0@,
                        out@[k].1.model(),
                    ));
                    assert(spec_to_attribute(em[k].1) == Some(out@[k].1@));
                    assert(out@[k].0@ == em[k].0);
                }
                assert(es =~= AttributeValue::attr_entries_model(out@));
            }
            Ok(AttributeValue::M(out))
        },
        StructuredValue::Array(items) => {
            let ghost im = StructuredValue::items_model(items@);
            proof {
                lemma_items_model(items@);
                lemma_items_wf(im);
                assert(v@ == ValueModel::Array(im));
            }
            let mut nums: Vec<String> = Vec::new();
            let mut strs: Vec<String> = Vec::new();
            let mut idx: usize = 0;
            while idx < items.len()
                invariant
                    idx <= items@.len(),
                    all_scalar(im.take(idx as int)),
                    num_count(im.take(idx as int)) == nums@.len(),
                    str_count(im.take(idx as int)) == strs@.len(),
                    string_seq_model(nums@) =~= render_numbers(im.take(idx as int)),
                    string_seq_model(strs@) =~= texts_of(im.take(idx as int)),
                decreases items@.len() - idx,
            {
                proof {
                    assert(im[idx as int] == items@[idx as int].model());
                    assert(im[idx as int].wf());
                    assert(im.take(idx + 1).drop_last() =~= im.take(idx as int));
                    assert(im.take(idx + 1).last() == im[idx as int]);
                }
                let item = &items[idx];
                match item {
                    StructuredValue::Number(d) => {
                        let rendered = render_decimal(d);
                        nums.push(rendered);
                        proof {
                            assert(string_seq_model(nums@) =~= render_numbers(
                                im.take(idx + 1),
                            ));
                            assert(string_seq_model(strs@) =~= texts_of(im.take(idx + 1)));
                        }
                    },
                    StructuredValue::Text(s) => {
                        strs.push(s.clone());
                        proof {
                            assert(string_seq_model(nums@) =~= render_numbers(
                                im.take(idx + 1),
                            ));
                            assert(string_seq_model(strs@) =~= texts_of(im.take(idx + 1)));
                        }
                    },
                    _ => {
                        proof {
                            assert(!(im[idx as int] is Number || im[idx as int] is Text));
                            assert(!all_scalar(im));
                        }
                        return Err(
                            AwwsyError::ConversionError(
                                String::from_str("unsupported array element"),
                            ),
                        );
                    },
                }
                idx = idx + 1;
            }
            proof {
                assert(im.take(items@.len() as int) =~= im);
            }
            if nums.len() > strs.len() {
                Ok(AttributeValue::Ns(nums))
            } else {
                Ok(AttributeValue::Ss(strs))
            }
        },
    }
}

/// Convert a wire attribute back to a structured value. Fails exactly
/// when a number string somewhere inside does not parse as a decimal.
#[verifier::loop_isolation(false)]
pub fn from_attribute(a: &AttributeValue) -> (r: Result<StructuredValue, AwwsyError>)
    ensures
        match r {
            Ok(v) => spec_from_attribute(a@) == Some(v@),
            Err(e) => spec_from_attribute(a@) is None && (e matches AwwsyError::ConversionError(m)
                && m@ == "unparsable number"@),
        },
    decreases *a,
{
    match a {
        AttributeValue::Null(_) => Ok(StructuredValue::Null),
        AttributeValue::Bool(b) => Ok(StructuredValue::Bool(*b)),
        AttributeValue::N(s) => match parse_decimal(s.as_str()) {
            Ok(d) => Ok(StructuredValue::Number(d)),
            Err(e) => Err(e),
        },
        AttributeValue::S(s) => Ok(StructuredValue::Text(s.clone())),
        AttributeValue::Ss(items) => {
            let mut out: Vec<StructuredValue> = Vec::new();
            let mut idx: usize = 0;
            while idx < items.len()
                invariant
                    idx <= items@.len(),
                    out@.len() == idx,
                    forall|k: int|
                        0 <= k < idx ==> (#[trigger] out@[k]) == StructuredValue::Text(
                            items@[k],
                        ),
                decreases items@.len() - idx,
            {
                out.push(StructuredValue::Text(items[idx].clone()));
                idx = idx + 1;
            }
            proof {
                lemma_items_model(out@);
                let mapped = string_seq_model(items@).map_values(
                    |s: Seq<char>| ValueModel::Text(s),
                );
                assert(StructuredValue::items_model(out@) =~= mapped);
            }
            Ok(StructuredValue::Array(out))
        },
        AttributeValue::Ns(items) => {
            let ghost strings = string_seq_model(items@);
            let mut out: Vec<StructuredValue> = Vec::new();
            let mut idx: usize = 0;
            while idx < items.len()
                invariant
                    idx <= items@.len(),
                    out@.len() == idx,
                    forall|k: int|
                        0 <= k < idx ==> spec_parse_decimal(strings[k]) is Some && (
                        #[trigger] out@[k]) == StructuredValue::Number(
                            spec_parse_decimal(strings[k])->Some_0,
                        ),
                decreases items@.len() - idx,
            {
                match parse_decimal(items[idx].as_str()) {
                    Ok(d) => {
                        out.push(StructuredValue::Number(d));
                    },
                    Err(e) => {
                        proof {
                            assert(spec_parse_decimal(strings[idx as int]) is None);
                            lemma_parse_numbers(strings);
                        }
                        return Err(e);
                    },
                }
                idx = idx + 1;
            }
            proof {
                assert forall|k: int| 0 <= k < strings.len() implies spec_parse_decimal(
                    #[trigger] strings[k],
                ) is Some by {
                    assert(out@[k] == StructuredValue::Number(
                        spec_parse_decimal(strings[k])->Some_0,
                    ));
                }
                lemma_parse_numbers(strings);
                assert(spec_parse_numbers(strings) is Some);
                lemma_items_model(out@);
                let nums = spec_parse_numbers(strings)->Some_0;
                assert(nums.len() == strings.len());
                assert(out@.len() == strings.len());
                assert forall|k: int| 0 <= k < nums.len() implies StructuredValue::items_model(
                    out@,
                )[k] == nums[k] by {
                    assert(StructuredValue::items_model(out@)[k] == out@[k].model());
                    assert(out@[k] == StructuredValue::Number(
                        spec_parse_decimal(strings[k])->Some_0,
                    ));
                    assert(nums[k] == ValueModel::Number(spec_parse_decimal(strings[k])->Some_0));
                }
                assert(StructuredValue::items_model(out@) =~= nums);
            }
            Ok(StructuredValue::Array(out))
        },
        AttributeValue::M(entries) => {
            let ghost em = AttributeValue::attr_entries_model(entries@);
            proof {
                lemma_attr_entries_model(entries@);
                assert(a@ == AttrModel::M(em));
            }
            let mut out: Vec<(String, StructuredValue)> = Vec::new();
            let mut idx: usize = 0;
            while idx < entries.len()
                invariant
                    idx <= entries@.len(),
                    out@.len() == idx,
                    forall|k: int|
                        0 <= k < idx ==> spec_from_attribute(em[k].1) == Some(
                            (#[trigger] out@[k].1)@,
                        ),
                    forall|k: int| 0 <= k < idx ==> (#[trigger] out@[k].0)@ == em[k].0,
                decreases entries@.len() - idx,
            {
                proof {
                    assert(decreases_to!(*a => *entries));
                    assert(decreases_to!(*entries => entries@));
                    assert(decreases_to!(entries@ => entries@[idx as int]));
                    assert(decreases_to!(entries@[idx as int] => entries@[idx as int].1));
                    assert(em[idx as int] == (entries@[idx as int].0@, entries@[idx as int].1.model()));
                }
                let pair = &entries[idx];
                match from_attribute(&pair.1) {
                    Ok(value) => {
                        out.push((pair.0.clone(), value));
                    },
                    Err(e) => {
                        proof {
                            assert(spec_from_attribute(em[idx as int].1) is None);
                            lemma_entries_from_attr(em);
                        }
                        return Err(e);
                    },
                }
                idx = idx + 1;
            }
            proof {
                assert forall|k: int| 0 <= k < em.len() implies spec_from_attribute(
                    #[trigger] em[k].1,
                ) is Some by {
                    assert(spec_from_attribute(em[k].1) == Some(out@[k].1@));
                }
                lemma_entries_from_attr(em);
                assert(spec_entries_from_attr(em) is Some);
                lemma_entries_model(out@);
                let es = spec_entries_from_attr(em)->Some_0;
                assert(es.len() == em.len());
                assert(out@.len() == em.len());
                assert forall|k: int| 0 <= k < es.len() implies es[k]
                    == StructuredValue::entries_model(out@)[k] by {
                    assert(es[k] == (em[k].0, spec_from_attribute(em[k].1)->Some_0));
                    assert(StructuredValue::entries_model(out@)[k] == (
                        out@[k].0@,
                        out@[k].1.model(),
                    ));
                    assert(spec_from_attribute(em[k].1) == Some(out@[k].1@));
                    assert(out@[k].0@ == em[k].0);
                }
                assert(es =~= StructuredValue::entries_model(out@));
            }
            Ok(StructuredValue::Object(out))
        },
    }
}

} // verus!
