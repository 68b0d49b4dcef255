//! Modeled values: the validated leaves of a settings document, and the
//! raw inputs they are built from.
use vstd::prelude::*;

use crate::address::{
    address_list_of, ipv4_octets, lemma_address_round_trip, AddressList, AddressListView, Ipv4Address,
};
use crate::bounded::{decimal_text, integer_outcome, lemma_integer_round_trip, BoundedInteger};
use crate::error::{ValidationError, ValueKind, Violation};
use crate::oci_defaults::{lemma_capability_round_trip, OciDefaultsCapability, OciDefaultsResourceLimitType};
use crate::text::{copy_text, join_texts, joined};

verus! {

/// A raw input as it arrives: one scalar, or a list of scalars.
#[derive(Debug)]
pub enum RawValue {
    Scalar(String),
    List(Vec<String>),
}

pub enum RawView {
    Scalar(Seq<char>),
    List(Seq<Seq<char>>),
}

impl View for RawValue {
    type V = RawView;

    open spec fn view(&self) -> RawView {
        match self {
            RawValue::Scalar(s) => RawView::Scalar(s@),
            RawValue::List(l) => RawView::List(l@.map_values(|s: String| s@)),
        }
    }
}

/// A value that passed validation for its kind.
#[derive(Debug)]
pub enum ModeledValue {
    Capability(OciDefaultsCapability),
    ResourceLimit(OciDefaultsResourceLimitType),
    Integer(BoundedInteger),
    Address(Ipv4Address),
    Addresses(AddressList),
}

pub enum ValueView {
    Capability(OciDefaultsCapability),
    ResourceLimit(OciDefaultsResourceLimitType),
    Integer(BoundedInteger),
    Address(Ipv4Address),
    Addresses(AddressListView),
}

impl View for ModeledValue {
    type V = ValueView;

    open spec fn view(&self) -> ValueView {
        match self {
            ModeledValue::Capability(c) => ValueView::Capability(*c),
            ModeledValue::ResourceLimit(l) => ValueView::ResourceLimit(*l),
            ModeledValue::Integer(b) => ValueView::Integer(*b),
            ModeledValue::Address(a) => ValueView::Address(*a),
            ModeledValue::Addresses(l) => ValueView::Addresses(l@),
        }
    }
}

/// Whether `v` is the value of kind `kind` that the raw input `raw` stands
/// for.
pub open spec fn accepts(kind: ValueKind, raw: RawView, v: ValueView) -> bool {
    match (kind, raw, v) {
        (ValueKind::Capability, RawView::Scalar(s), ValueView::Capability(c)) => c.token() == s,
        (ValueKind::ResourceLimit, RawView::Scalar(s), ValueView::ResourceLimit(l)) => l.token() == s,
        (ValueKind::Integer { min, max }, RawView::Scalar(s), ValueView::Integer(b)) => {
            &&& b.wf()
            &&& integer_outcome(s, min as int, max as int) == Ok::<int, Violation>(b.value_spec())
            &&& b.min_spec() == min
            &&& b.max_spec() == max
        },
        (ValueKind::Address, RawView::Scalar(s), ValueView::Address(a)) => ipv4_octets(s) == Some(a.octets_spec()),
        (ValueKind::AddressList, raw, ValueView::Addresses(l)) => {
            &&& address_list_of(raw) == Some(l.elements())
            &&& (l is Single <==> raw is Scalar)
        },
        _ => false,
    }
}

/// Whether `e` truly reports why `raw` is not a value of kind `kind`: it
/// names the kind, keeps the offending input (for a list of the wrong
/// shape, the whole list joined with commas) and names the rule broken.
pub open spec fn validation_error_fits(kind: ValueKind, raw: RawView, e: ValidationError) -> bool {
    &&& e.kind == kind
    &&& match raw {
        RawView::Scalar(s) => {
            &&& e.input@ == s
            &&& match kind {
                ValueKind::Capability => e.violation == Violation::UnknownToken,
                ValueKind::ResourceLimit => e.violation == Violation::UnknownToken,
                ValueKind::Integer { min, max } => integer_outcome(s, min as int, max as int) == Err::<int, Violation>(
                    e.violation,
                ),
                ValueKind::Address => e.violation == Violation::MalformedAddress,
                ValueKind::AddressList => e.violation == Violation::MalformedAddress,
            }
        },
        RawView::List(ss) => match kind {
            ValueKind::AddressList => {
                &&& e.violation == Violation::MalformedAddress
                &&& exists|i: int| 0 <= i < ss.len() && #[trigger] ss[i] == e.input@ && ipv4_octets(ss[i]) is None
            },
            _ => e.violation == Violation::UnsupportedShape && e.input@ == joined(ss, ','),
        },
    }
}

/// The canonical raw form of a value: its token, its decimal digits, its
/// dotted quad, or for an address list the dotted quads in the shape it was
/// given in.
pub open spec fn canonical_view(v: ValueView) -> RawView {
    match v {
        ValueView::Capability(c) => RawView::Scalar(c.token()),
        ValueView::ResourceLimit(l) => RawView::Scalar(l.token()),
        ValueView::Integer(b) => RawView::Scalar(decimal_text(b.value_spec())),
        ValueView::Address(a) => RawView::Scalar(a.text()),
        ValueView::Addresses(AddressListView::Single(a)) => RawView::Scalar(a.text()),
        ValueView::Addresses(AddressListView::List(l)) => RawView::List(l.map_values(|a: Ipv4Address| a.text())),
    }
}

proof fn lemma_octets_determine(a: Ipv4Address, b: Ipv4Address)
    requires
        a.octets_spec() == b.octets_spec(),
    ensures
        a == b,
{
    assert(a.octets_spec()[0] == b.octets_spec()[0]);
    assert(a.octets_spec()[1] == b.octets_spec()[1]);
    assert(a.octets_spec()[2] == b.octets_spec()[2]);
    assert(a.octets_spec()[3] == b.octets_spec()[3]);
}

/// Building a value from its canonical form gives the same value back, and
/// no other: for every kind, a value accepted from some raw input is
/// accepted from its canonical form, which accepts nothing else.
pub proof fn lemma_canonical_round_trip(kind: ValueKind, raw: RawView, v: ValueView)
    requires
        accepts(kind, raw, v),
    ensures
        accepts(kind, canonical_view(v), v),
        forall|w: ValueView| #[trigger] accepts(kind, canonical_view(v), w) ==> w == v,
{
    match v {
        ValueView::Capability(c) => {
            lemma_capability_round_trip(c);
        },
        ValueView::ResourceLimit(l) => {
            l.lemma_round_trip();
        },
        ValueView::Integer(b) => {
            lemma_integer_round_trip(b.value_spec(), b.min_spec(), b.max_spec());
            assert forall|w: ValueView| #[trigger] accepts(kind, canonical_view(v), w) implies w == v by {
                if let ValueView::Integer(b2) = w {
                    b.lemma_determined(b2);
                }
            }
        },
        ValueView::Address(a) => {
            lemma_address_round_trip(a);
            assert forall|w: ValueView| #[trigger] accepts(kind, canonical_view(v), w) implies w == v by {
                if let ValueView::Address(a2) = w {
                    lemma_octets_determine(a, a2);
                }
            }
        },
        ValueView::Addresses(AddressListView::Single(a)) => {
            lemma_address_round_trip(a);
            assert forall|w: ValueView| #[trigger] accepts(kind, canonical_view(v), w) implies w == v by {
                if let ValueView::Addresses(AddressListView::Single(a2)) = w {
                    assert(seq![a2.octets_spec()][0] == seq![a.octets_spec()][0]);
                    lemma_octets_determine(a, a2);
                }
            }
        },
        ValueView::Addresses(AddressListView::List(l)) => {
            let texts = l.map_values(|a: Ipv4Address| a.text());
            assert forall|i: int| 0 <= i < texts.len() implies (#[trigger] ipv4_octets(texts[i])) == Some(l[i].octets_spec()) by {
                lemma_address_round_trip(l[i]);
            }
            assert(Seq::new(texts.len(), |i: int| ipv4_octets(texts[i])->Some_0) =~= l.map_values(|a: Ipv4Address| a.octets_spec()));
            assert forall|w: ValueView| #[trigger] accepts(kind, canonical_view(v), w) implies w == v by {
                if let ValueView::Addresses(AddressListView::List(l2)) = w {
                    let e1 = l.map_values(|a: Ipv4Address| a.octets_spec());
                    let e2 = l2.map_values(|a: Ipv4Address| a.octets_spec());
                    assert(e1 == e2);
                    assert forall|i: int| 0 <= i < l.len() implies l[i] == l2[i] by {
                        assert(e1[i] == e2[i]);
                        lemma_octets_determine(l[i], l2[i]);
                    }
                    assert(l =~= l2);
                }
            }
        },
    }
}

impl ModeledValue {
    /// The canonical raw form of the value.
    pub fn canonical(&self) -> (r: RawValue)
        ensures
            r@ == canonical_view(self@),
    {
        match self {
            ModeledValue::Capability(c) => RawValue::Scalar(c.to_string()),
            ModeledValue::ResourceLimit(l) => RawValue::Scalar(l.to_string()),
            ModeledValue::Integer(b) => RawValue::Scalar(b.to_string()),
            ModeledValue::Address(a) => RawValue::Scalar(a.to_string()),
            ModeledValue::Addresses(AddressList::Single(a)) => RawValue::Scalar(a.to_string()),
            ModeledValue::Addresses(AddressList::List(l)) => {
                let mut out: Vec<String> = Vec::new();
                let mut i: usize = 0;
                while i < l.len()
                    invariant
                        i <= l@.len(),
                        out@.len() == i,
                        forall|j: int| 0 <= j < i ==> (#[trigger] out@[j])@ == l@[j].text(),
                    decreases l@.len() - i,
                {
                    out.push(l[i].to_string());
                    i = i + 1;
                }
                let r = RawValue::List(out);
                assert(r@ =~= canonical_view(self@)) by {
                    assert(out@.map_values(|s: String| s@) =~= l@.map_values(|a: Ipv4Address| a.text()));
                }
                r
            },
        }
    }

    /// Validates `raw` as a value of kind `kind`. The error names the kind,
    /// the offending input and the rule it broke.
    pub fn from_raw(kind: ValueKind, raw: &RawValue) -> (r: Result<ModeledValue, ValidationError>)
        ensures
            match r {
                Ok(v) => accepts(kind, raw@, v@),
                Err(e) => {
                    &&& forall|v: ValueView| !accepts(kind, raw@, v)
                    &&& validation_error_fits(kind, raw@, e)
                },
            },
    {
        match raw {
            RawValue::Scalar(s) => match kind {
                ValueKind::Capability => match OciDefaultsCapability::parse(s.as_str()) {
                    Ok(c) => Ok(ModeledValue::Capability(c)),
                    Err(e) => Err(e),
                },
                ValueKind::ResourceLimit => match OciDefaultsResourceLimitType::parse(s.as_str()) {
                    Ok(l) => Ok(ModeledValue::ResourceLimit(l)),
                    Err(e) => Err(e),
                },
                ValueKind::Integer { min, max } => match BoundedInteger::new(s.as_str(), min, max) {
                    Ok(b) => Ok(ModeledValue::Integer(b)),
                    Err(e) => Err(e),
                },
                ValueKind::Address => match Ipv4Address::parse(s.as_str()) {
                    Ok(a) => Ok(ModeledValue::Address(a)),
                    Err(e) => Err(e),
                },
                ValueKind::AddressList => match AddressList::from_raw(raw) {
                    Ok(l) => Ok(ModeledValue::Addresses(l)),
                    Err(e) => Err(e),
                },
            },
            RawValue::List(items) => match kind {
                ValueKind::AddressList => match AddressList::from_raw(raw) {
                    Ok(l) => Ok(ModeledValue::Addresses(l)),
                    Err(e) => Err(e),
                },
                _ => Err(ValidationError { kind, input: join_texts(items, ','), violation: Violation::UnsupportedShape }),
            },
        }
    }

    /// An exact copy of the value.
    pub fn duplicate(&self) -> (r: ModeledValue)
        ensures
            r@ == self@,
    {
        match self {
            ModeledValue::Capability(c) => ModeledValue::Capability(*c),
            ModeledValue::ResourceLimit(l) => ModeledValue::ResourceLimit(*l),
            ModeledValue::Integer(b) => ModeledValue::Integer(*b),
            ModeledValue::Address(a) => ModeledValue::Address(*a),
            ModeledValue::Addresses(l) => ModeledValue::Addresses(l.duplicate()),
        }
    }
}

} // verus!
