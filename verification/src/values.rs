//! The two value representations that the marshalling layer converts
//! between: the generic structured value an application record
//! serializes into, and the typed attribute representation that the
//! store understands on the wire.

use vstd::prelude::*;

verus! {

/// An exact decimal number: `(-1)^neg * mantissa * 10^(-scale)`.
///
/// The store has no native numeric type, so numbers travel as decimal
/// strings; this type holds exactly what such a string can carry.
#[derive(Clone, Copy, Debug, PartialEq, Eq, Structural)]
pub struct Decimal {
    /// True for a negative number.
    pub neg: bool,
    /// The significant digits, read as one integer.
    pub mantissa: u64,
    /// How many of the mantissa's digits lie behind the decimal point.
    pub scale: usize,
}

impl Decimal {
    /// Rendering pads the digits to `scale + 1` places, so the scale
    /// must leave room for that width to be a `usize`.
    pub open spec fn wf(self) -> bool {
        self.scale < usize::MAX
    }

    /// The integer `n`, written as a decimal with no fractional part.
    pub fn from_u64(n: u64) -> (r: Decimal)
        ensures
            r == (Decimal { neg: false, mantissa: n, scale: 0 }),
            r.wf(),
    {
        Decimal { neg: false, mantissa: n, scale: 0 }
    }
}

/// The mathematical shape of a structured value, used by every
/// contract of this crate.
pub enum ValueModel {
    Null,
    Bool(bool),
    Number(Decimal),
    Text(Seq<char>),
    Object(Seq<(Seq<char>, ValueModel)>),
    Array(Seq<ValueModel>),
}

/// The mathematical shape of a wire attribute.
pub enum AttrModel {
    Null(bool),
    Bool(bool),
    N(Seq<char>),
    S(Seq<char>),
    Ss(Seq<Seq<char>>),
    Ns(Seq<Seq<char>>),
    M(Seq<(Seq<char>, AttrModel)>),
}

/// A generic structured value: what an application record serializes
/// to and from. Objects keep their entries in insertion order.
#[derive(Debug, PartialEq, Eq)]
pub enum StructuredValue {
    Null,
    Bool(bool),
    Number(Decimal),
    Text(String),
    Object(Vec<(String, StructuredValue)>),
    Array(Vec<StructuredValue>),
}

/// A typed attribute as the store's wire protocol represents it:
/// null, boolean, number-as-string, string, string set, number set,
/// or a nested map. There is no binary variant.
#[derive(Debug, PartialEq, Eq)]
pub enum AttributeValue {
    Null(bool),
    Bool(bool),
    N(String),
    S(String),
    Ss(Vec<String>),
    Ns(Vec<String>),
    M(Vec<(String, AttributeValue)>),
}

/// One persisted item: attribute names mapped to attribute values.
/// The vector itself carries its entries in whatever order they were
/// built, and nothing rules out a repeated name; every lookup and
/// update in this crate goes by name and takes the first entry of
/// that name, so earlier entries shadow later duplicates and the
/// order of distinct names carries no meaning.
pub type AttributeMap = Vec<(String, AttributeValue)>;

impl StructuredValue {
    /// The mathematical value this structured value stands for.
    pub open spec fn model(self) -> ValueModel
        decreases self, 1int,
    {
        match self {
            StructuredValue::Null => ValueModel::Null,
            StructuredValue::Bool(b) => ValueModel::Bool(b),
            StructuredValue::Number(d) => ValueModel::Number(d),
            StructuredValue::Text(s) => ValueModel::Text(s@),
            StructuredValue::Object(entries) => {
                proof {
                    assert(decreases_to!(self => entries));
                    assert(decreases_to!(entries => entries@));
                }
                ValueModel::Object(Self::entries_model(entries@))
            },
            StructuredValue::Array(items) => {
                proof {
                    assert(decreases_to!(self => items));
                    assert(decreases_to!(items => items@));
                }
                ValueModel::Array(Self::items_model(items@))
            },
        }
    }

    /// The models of a sequence of object entries, in order.
    pub open spec fn entries_model(entries: Seq<(String, StructuredValue)>) -> Seq<
        (Seq<char>, ValueModel),
    >
        decreases entries, 0int,
    {
        if entries.len() == 0 {
            Seq::empty()
        } else {
            proof {
                assert(decreases_to!(entries => entries[0]));
                assert(decreases_to!(entries[0] => entries[0].1));
            }
            seq![(entries[0].0@, entries[0].1.model())] + Self::entries_model(
                entries.drop_first(),
            )
        }
    }

    /// The models of a sequence of array items, in order.
    pub open spec fn items_model(items: Seq<StructuredValue>) -> Seq<ValueModel>
        decreases items, 0int,
    {
        if items.len() == 0 {
            Seq::empty()
        } else {
            proof {
                assert(decreases_to!(items => items[0]));
            }
            seq![items[0].model()] + Self::items_model(items.drop_first())
        }
    }
}

impl View for StructuredValue {
    type V = ValueModel;

    open spec fn view(&self) -> ValueModel {
        self.model()
    }
}

impl AttributeValue {
    /// The mathematical value this attribute stands for.
    pub open spec fn model(self) -> AttrModel
        decreases self, 1int,
    {
        match self {
            AttributeValue::Null(b) => AttrModel::Null(b),
            AttributeValue::Bool(b) => AttrModel::Bool(b),
            AttributeValue::N(s) => AttrModel::N(s@),
            AttributeValue::S(s) => AttrModel::S(s@),
            AttributeValue::Ss(items) => AttrModel::Ss(string_seq_model(items@)),
            AttributeValue::Ns(items) => AttrModel::Ns(string_seq_model(items@)),
            AttributeValue::M(entries) => {
                proof {
                    assert(decreases_to!(self => entries));
                    assert(decreases_to!(entries => entries@));
                }
                AttrModel::M(Self::attr_entries_model(entries@))
            },
        }
    }

    /// The models of a sequence of map entries, in order.
    pub open spec fn attr_entries_model(entries: Seq<(String, AttributeValue)>) -> Seq<
        (Seq<char>, AttrModel),
    >
        decreases entries, 0int,
    {
        if entries.len() == 0 {
            Seq::empty()
        } else {
            proof {
                assert(decreases_to!(entries => entries[0]));
                assert(decreases_to!(entries[0] => entries[0].1));
            }
            seq![(entries[0].0@, entries[0].1.model())] + Self::attr_entries_model(
                entries.drop_first(),
            )
        }
    }
}

/// The views of a sequence of strings, in order.
pub open spec fn string_seq_model(items: Seq<String>) -> Seq<Seq<char>> {
    Seq::new(items.len(), |i: int| items[i]@)
}

impl View for AttributeValue {
    type V = AttrModel;

    open spec fn view(&self) -> AttrModel {
        self.model()
    }
}

impl ValueModel {
    /// Every decimal inside the value leaves room for rendering.
    pub open spec fn wf(self) -> bool
        decreases self, 1int,
    {
        match self {
            ValueModel::Null => true,
            ValueModel::Bool(_) => true,
            ValueModel::Number(d) => d.wf(),
            ValueModel::Text(_) => true,
            ValueModel::Object(entries) => {
                proof {
                    assert(decreases_to!(self => entries));
                }
                Self::entries_wf(entries)
            },
            ValueModel::Array(items) => {
                proof {
                    assert(decreases_to!(self => items));
                }
                Self::items_wf(items)
            },
        }
    }

    /// Every value of the entry sequence is well formed.
    pub open spec fn entries_wf(entries: Seq<(Seq<char>, ValueModel)>) -> bool
        decreases entries, 0int,
    {
        if entries.len() == 0 {
            true
        } else {
            proof {
                assert(decreases_to!(entries => entries[0]));
                assert(decreases_to!(entries[0] => entries[0].1));
            }
            entries[0].1.wf() && Self::entries_wf(entries.drop_first())
        }
    }

    /// Every item of the sequence is well formed.
    pub open spec fn items_wf(items: Seq<ValueModel>) -> bool
        decreases items, 0int,
    {
        if items.len() == 0 {
            true
        } else {
            proof {
                assert(decreases_to!(items => items[0]));
            }
            items[0].wf() && Self::items_wf(items.drop_first())
        }
    }
}

/// `items_model` maps the item sequence elementwise.
pub proof fn lemma_items_model(items: Seq<StructuredValue>)
    ensures
        StructuredValue::items_model(items).len() == items.len(),
        forall|i: int|
            0 <= i < items.len() ==> #[trigger] StructuredValue::items_model(items)[i]
                == items[i].model(),
    decreases items.len(),
{
    if items.len() > 0 {
        lemma_items_model(items.drop_first());
    }
}

/// `entries_model` maps the entry sequence elementwise.
pub proof fn lemma_entries_model(entries: Seq<(String, StructuredValue)>)
    ensures
        StructuredValue::entries_model(entries).len() == entries.len(),
        forall|i: int|
            0 <= i < entries.len() ==> #[trigger] StructuredValue::entries_model(entries)[i] == (
            entries[i].0@,
            entries[i].1.model(),
            ),
    decreases entries.len(),
{
    if entries.len() > 0 {
        lemma_entries_model(entries.drop_first());
    }
}

/// `attr_entries_model` maps the entry sequence elementwise.
pub proof fn lemma_attr_entries_model(entries: Seq<(String, AttributeValue)>)
    ensures
        AttributeValue::attr_entries_model(entries).len() == entries.len(),
        forall|i: int|
            0 <= i < entries.len() ==> #[trigger] AttributeValue::attr_entries_model(entries)[i]
                == (entries[i].0@, entries[i].1.model()),
    decreases entries.len(),
{
    if entries.len() > 0 {
        lemma_attr_entries_model(entries.drop_first());
    }
}

/// `entries_wf` holds exactly when every entry's value is well formed.
pub proof fn lemma_entries_wf(entries: Seq<(Seq<char>, ValueModel)>)
    ensures
        ValueModel::entries_wf(entries) <==> (forall|i: int|
            0 <= i < entries.len() ==> (#[trigger] entries[i]).1.wf()),
    decreases entries.len(),
{
    if entries.len() > 0 {
        lemma_entries_wf(entries.drop_first());
        assert forall|i: int|
            0 <= i < entries.len() && ValueModel::entries_wf(entries) implies (#[trigger] entries[i]).1.wf() by {
            if i > 0 {
                assert(entries.drop_first()[i - 1] == entries[i]);
            }
        }
        if forall|i: int| 0 <= i < entries.len() ==> (#[trigger] entries[i]).1.wf() {
            assert forall|i: int|
                0 <= i < entries.drop_first().len() implies (#[trigger] entries.drop_first()[i]).1.wf() by {
                assert(entries.drop_first()[i] == entries[i + 1]);
            }
        }
    }
}

/// `items_wf` holds exactly when every item is well formed.
pub proof fn lemma_items_wf(items: Seq<ValueModel>)
    ensures
        ValueModel::items_wf(items) <==> (forall|i: int|
            0 <= i < items.len() ==> (#[trigger] items[i]).wf()),
    decreases items.len(),
{
    if items.len() > 0 {
        lemma_items_wf(items.drop_first());
        assert forall|i: int|
            0 <= i < items.len() && ValueModel::items_wf(items) implies (#[trigger] items[i]).wf() by {
            if i > 0 {
                assert(items.drop_first()[i - 1] == items[i]);
            }
        }
        if forall|i: int| 0 <= i < items.len() ==> (#[trigger] items[i]).wf() {
            assert forall|i: int|
                0 <= i < items.drop_first().len() implies (#[trigger] items.drop_first()[i]).wf() by {
                assert(items.drop_first()[i] == items[i + 1]);
            }
        }
    }
}

} // verus!
