//! IPv4 addresses in dotted-quad form, and the address list that takes
//! either one address or a list of them.
use vstd::prelude::*;

use crate::bounded::{digit_char, digit_value, is_digit, lemma_digit_char, natural_text, push_natural};
use crate::error::{ValidationError, ValueKind, Violation};
use crate::text::{copy_text, push_char};
use crate::values::{RawValue, RawView};

verus! {

/// Where a left-to-right reading of a dotted quad stands: the octets read
/// so far, and the value and digit count of the one being read.
pub struct DottedScan {
    pub parts: Seq<int>,
    pub current: int,
    pub digits: int,
}

pub open spec fn scan_start() -> DottedScan {
    DottedScan { parts: Seq::empty(), current: 0, digits: 0 }
}

/// One character of a dotted quad. An octet is one to three digits without
/// a leading zero and at most 255; at most three dots separate them.
pub open spec fn scan_step(st: DottedScan, c: char) -> Option<DottedScan> {
    if is_digit(c) {
        if st.digits > 0 && st.current == 0 {
            None
        } else if st.current * 10 + digit_value(c) > 255 {
            None
        } else {
            Some(DottedScan { parts: st.parts, current: st.current * 10 + digit_value(c), digits: st.digits + 1 })
        }
    } else if c == '.' {
        if st.digits == 0 || st.parts.len() >= 3 {
            None
        } else {
            Some(DottedScan { parts: st.parts.push(st.current), current: 0, digits: 0 })
        }
    } else {
        None
    }
}

pub open spec fn scan(s: Seq<char>) -> Option<DottedScan>
    decreases s.len(),
{
    if s.len() == 0 {
        Some(scan_start())
    } else {
        match scan(s.drop_last()) {
            Some(st) => scan_step(st, s.last()),
            None => None,
        }
    }
}

/// The four octets that the dotted quad `s` denotes, if it is one.
pub open spec fn ipv4_octets(s: Seq<char>) -> Option<Seq<int>> {
    match scan(s) {
        Some(st) => if st.digits > 0 && st.parts.len() == 3 {
            Some(st.parts.push(st.current))
        } else {
            None
        },
        None => None,
    }
}

/// An IPv4 address `a.b.c.d`.
#[derive(Debug, Clone, Copy, PartialEq, Eq, Structural)]
pub struct Ipv4Address {
    pub a: u8,
    pub b: u8,
    pub c: u8,
    pub d: u8,
}

impl Ipv4Address {
    pub open spec fn octets_spec(self) -> Seq<int> {
        seq![self.a as int, self.b as int, self.c as int, self.d as int]
    }

    /// The canonical dotted-quad form.
    pub open spec fn text(self) -> Seq<char> {
        natural_text(self.a as nat).push('.') + natural_text(self.b as nat) + seq!['.']
            + natural_text(self.c as nat) + seq!['.'] + natural_text(self.d as nat)
    }

    /// Reads a dotted quad such as `10.0.0.1`.
    pub fn parse(input: &str) -> (r: Result<Ipv4Address, ValidationError>)
        ensures
            match r {
                Ok(a) => ipv4_octets(input@) == Some(a.octets_spec()),
                Err(e) => {
                    &&& ipv4_octets(input@) is None
                    &&& e.kind == ValueKind::Address
                    &&& e.input@ == input@
                    &&& e.violation == Violation::MalformedAddress
                },
            },
    {
        let n = input.unicode_len();
        let mut parts: Vec<u8> = Vec::new();
        let mut current: u32 = 0;
        let mut digits: usize = 0;
        let mut i: usize = 0;
        assert(input@.take(0) =~= Seq::<char>::empty());
        assert(parts@.map_values(|b: u8| b as int) =~= Seq::<int>::empty());
        while i < n
            invariant
                n == input@.len(),
                i <= n,
                digits <= i,
                current <= 255,
                parts@.len() <= 3,
                scan(input@.take(i as int)) == Some(
                    DottedScan { parts: parts@.map_values(|b: u8| b as int), current: current as int, digits: digits as int },
                ),
            decreases n - i,
        {
            let c = input.get_char(i);
            assert(input@.take(i + 1).drop_last() == input@.take(i as int));
            assert(input@.take(i + 1).last() == c);
            let ghost prev = parts@;
            if '0' <= c && c <= '9' {
                let d = c as u32 - '0' as u32;
                if (digits > 0 && current == 0) || current * 10 + d > 255 {
                    proof {
                        lemma_scan_fails_on(input@, i as int + 1);
                    }
                    return Err(ValidationError { kind: ValueKind::Address, input: String::from_str(input), violation: Violation::MalformedAddress });
                }
                current = current * 10 + d;
                digits = digits + 1;
            } else if c == '.' {
                if digits == 0 || parts.len() >= 3 {
                    proof {
                        lemma_scan_fails_on(input@, i as int + 1);
                    }
                    return Err(ValidationError { kind: ValueKind::Address, input: String::from_str(input), violation: Violation::MalformedAddress });
                }
                parts.push(current as u8);
                assert(parts@.map_values(|b: u8| b as int) =~= prev.map_values(|b: u8| b as int).push(current as int));
                current = 0;
                digits = 0;
            } else {
                proof {
                    lemma_scan_fails_on(input@, i as int + 1);
                }
                return Err(ValidationError { kind: ValueKind::Address, input: String::from_str(input), violation: Violation::MalformedAddress });
            }
            i = i + 1;
        }
        assert(input@.take(n as int) == input@);
        if digits == 0 || parts.len() != 3 {
            return Err(ValidationError { kind: ValueKind::Address, input: String::from_str(input), violation: Violation::MalformedAddress });
        }
        let a = Ipv4Address { a: parts[0], b: parts[1], c: parts[2], d: current as u8 };
        assert(a.octets_spec() =~= parts@.map_values(|b: u8| b as int).push(current as int));
        Ok(a)
    }

    /// The canonical dotted-quad form, e.g. `10.0.0.1`.
    pub fn to_string(&self) -> (r: String)
        ensures
            r@ == self.text(),
    {
        let mut out = String::new();
        push_natural(&mut out, self.a as u64);
        push_char(&mut out, '.');
        push_natural(&mut out, self.b as u64);
        push_char(&mut out, '.');
        push_natural(&mut out, self.c as u64);
        push_char(&mut out, '.');
        push_natural(&mut out, self.d as u64);
        assert(out@ =~= self.text());
        out
    }
}

/// Once a prefix fails to scan, the whole input does.
proof fn lemma_scan_fails_on(s: Seq<char>, k: int)
    requires
        0 <= k <= s.len(),
        scan(s.take(k)) is None,
    ensures
        ipv4_octets(s) is None,
    decreases s.len() - k,
{
    if k < s.len() {
        assert(s.take(k + 1).drop_last() == s.take(k));
        lemma_scan_fails_on(s, k + 1);
    } else {
        assert(s.take(k) == s);
    }
}

proof fn lemma_scan_octet(p: Seq<char>, parts: Seq<int>, n: nat)
    requires
        scan(p) == Some(DottedScan { parts, current: 0, digits: 0 }),
        n <= 255,
    ensures
        scan(p + natural_text(n)) == Some(DottedScan { parts, current: n as int, digits: natural_text(n).len() as int }),
    decreases n,
{
    lemma_digit_char(n as int % 10);
    if n < 10 {
        assert(p + natural_text(n) == p.push(digit_char(n as int)));
        assert(p.push(digit_char(n as int)).drop_last() == p);
    } else {
        lemma_scan_octet(p, parts, n / 10);
        let q = p + natural_text(n / 10);
        assert(p + natural_text(n) == q.push(digit_char(n as int % 10)));
        assert(q.push(digit_char(n as int % 10)).drop_last() == q);
    }
}

proof fn lemma_scan_dot(p: Seq<char>, st: DottedScan)
    requires
        scan(p) == Some(st),
        st.digits > 0,
        st.parts.len() < 3,
    ensures
        scan(p.push('.')) == Some(DottedScan { parts: st.parts.push(st.current), current: 0, digits: 0 }),
{
    assert(p.push('.').drop_last() == p);
}

/// Reading the canonical form of an address gives its octets back.
pub proof fn lemma_address_round_trip(x: Ipv4Address)
    ensures
        ipv4_octets(x.text()) == Some(x.octets_spec()),
{
    let e = Seq::<char>::empty();
    let ta = natural_text(x.a as nat);
    let tb = natural_text(x.b as nat);
    let tc = natural_text(x.c as nat);
    let td = natural_text(x.d as nat);
    crate::bounded::lemma_natural_text(x.a as nat);
    crate::bounded::lemma_natural_text(x.b as nat);
    crate::bounded::lemma_natural_text(x.c as nat);
    crate::bounded::lemma_natural_text(x.d as nat);
    assert(scan(e) == Some(scan_start()));
    lemma_scan_octet(e, Seq::empty(), x.a as nat);
    assert(e + ta == ta);
    let s1 = ta.push('.');
    lemma_scan_dot(ta, DottedScan { parts: Seq::empty(), current: x.a as int, digits: ta.len() as int });
    assert(Seq::<int>::empty().push(x.a as int) == seq![x.a as int]);
    lemma_scan_octet(s1, seq![x.a as int], x.b as nat);
    let s2 = s1 + tb;
    lemma_scan_dot(s2, DottedScan { parts: seq![x.a as int], current: x.b as int, digits: tb.len() as int });
    let s3 = s2.push('.');
    assert(s2 + seq!['.'] == s3);
    assert(seq![x.a as int].push(x.b as int) == seq![x.a as int, x.b as int]);
    lemma_scan_octet(s3, seq![x.a as int, x.b as int], x.c as nat);
    let s4 = s3 + tc;
    lemma_scan_dot(s4, DottedScan { parts: seq![x.a as int, x.b as int], current: x.c as int, digits: tc.len() as int });
    let s5 = s4.push('.');
    assert(s4 + seq!['.'] == s5);
    assert(seq![x.a as int, x.b as int].push(x.c as int) == seq![x.a as int, x.b as int, x.c as int]);
    lemma_scan_octet(s5, seq![x.a as int, x.b as int, x.c as int], x.d as nat);
    assert(s5 + td == x.text());
    assert(seq![x.a as int, x.b as int, x.c as int].push(x.d as int) == x.octets_spec());
}

/// The addresses a raw input stands for, as octet sequences: one for a
/// scalar, one per element in order for a list; `None` where an input is
/// not a dotted quad.
pub open spec fn address_list_of(raw: RawView) -> Option<Seq<Seq<int>>> {
    match raw {
        RawView::Scalar(s) => match ipv4_octets(s) {
            Some(o) => Some(seq![o]),
            None => None,
        },
        RawView::List(ss) => if forall|i: int| 0 <= i < ss.len() ==> (#[trigger] ipv4_octets(ss[i])) is Some {
            Some(Seq::new(ss.len(), |i: int| ipv4_octets(ss[i])->Some_0))
        } else {
            None
        },
    }
}

/// One address or a list of them, as written.
#[derive(Debug)]
pub enum AddressList {
    Single(Ipv4Address),
    List(Vec<Ipv4Address>),
}

pub enum AddressListView {
    Single(Ipv4Address),
    List(Seq<Ipv4Address>),
}

impl AddressListView {
    /// The addresses in order, whichever the shape.
    pub open spec fn elements(self) -> Seq<Seq<int>> {
        match self {
            AddressListView::Single(a) => seq![a.octets_spec()],
            AddressListView::List(v) => v.map_values(|a: Ipv4Address| a.octets_spec()),
        }
    }
}

impl View for AddressList {
    type V = AddressListView;

    open spec fn view(&self) -> AddressListView {
        match self {
            AddressList::Single(a) => AddressListView::Single(*a),
            AddressList::List(v) => AddressListView::List(v@),
        }
    }
}

impl AddressList {
    /// Reads a scalar as a single address and a list as a list of
    /// addresses; the empty list is a list of none. The error names the
    /// first element that is not a dotted quad.
    pub fn from_raw(raw: &RawValue) -> (r: Result<AddressList, ValidationError>)
        ensures
            match r {
                Ok(l) => {
                    &&& address_list_of(raw@) == Some(l@.elements())
                    &&& (l is Single <==> raw@ is Scalar)
                },
                Err(e) => {
                    &&& address_list_of(raw@) is None
                    &&& e.kind == ValueKind::AddressList
                    &&& e.violation == Violation::MalformedAddress
                    &&& match raw@ {
                        RawView::Scalar(s) => e.input@ == s,
                        RawView::List(ss) => exists|i: int|
                            0 <= i < ss.len() && #[trigger] ss[i] == e.input@ && ipv4_octets(ss[i]) is None,
                    }
                },
            },
    {
        match raw {
            RawValue::Scalar(s) => match Ipv4Address::parse(s.as_str()) {
                Ok(a) => Ok(AddressList::Single(a)),
                Err(_) => Err(ValidationError { kind: ValueKind::AddressList, input: copy_text(s), violation: Violation::MalformedAddress }),
            },
            RawValue::List(items) => {
                let ghost ss = items@.map_values(|s: String| s@);
                let mut out: Vec<Ipv4Address> = Vec::new();
                let mut i: usize = 0;
                while i < items.len()
                    invariant
                        ss == items@.map_values(|s: String| s@),
                        raw@ == RawView::List(ss),
                        i <= items@.len(),
                        out@.len() == i,
                        forall|j: int| 0 <= j < i ==> ipv4_octets(#[trigger] ss[j]) == Some(out@[j].octets_spec()),
                    decreases items@.len() - i,
                {
                    match Ipv4Address::parse(items[i].as_str()) {
                        Ok(a) => out.push(a),
                        Err(_) => {
                            assert(ss[i as int] == items@[i as int]@);
                            assert(ipv4_octets(ss[i as int]) is None);
                            assert(raw@ == RawView::List(ss));
                            return Err(ValidationError { kind: ValueKind::AddressList, input: copy_text(&items[i]), violation: Violation::MalformedAddress });
                        },
                    }
                    i = i + 1;
                }
                let l = AddressList::List(out);
                assert(l@.elements() =~= Seq::new(ss.len(), |i: int| ipv4_octets(ss[i])->Some_0));
                Ok(l)
            },
        }
    }

    /// The addresses in order: the one address of a scalar, or the
    /// elements of a list.
    pub fn addresses(&self) -> (r: Vec<Ipv4Address>)
        ensures
            r@.map_values(|a: Ipv4Address| a.octets_spec()) == self@.elements(),
    {
        match self {
            AddressList::Single(a) => {
                let r = vec![*a];
                assert(r@.map_values(|a: Ipv4Address| a.octets_spec()) =~= self@.elements());
                r
            },
            AddressList::List(v) => {
                let r = v.clone();
                assert(r@ =~= v@);
                r
            },
        }
    }

    /// An exact copy.
    pub fn duplicate(&self) -> (r: AddressList)
        ensures
            r@ == self@,
    {
        match self {
            AddressList::Single(a) => AddressList::Single(*a),
            AddressList::List(v) => {
                let r = v.clone();
                assert(r@ =~= v@);
                AddressList::List(r)
            },
        }
    }
}

/// A scalar address and a one-element list holding the same text stand
/// for the same single address (or are refused alike), and the empty list
/// stands for no address at all.
pub proof fn lemma_shape_equivalence(s: Seq<char>)
    ensures
        address_list_of(RawView::Scalar(s)) == address_list_of(RawView::List(seq![s])),
        address_list_of(RawView::List(Seq::empty())) == Some(Seq::<Seq<int>>::empty()),
        ipv4_octets(s) is Some ==> address_list_of(RawView::Scalar(s)) == Some(seq![ipv4_octets(s)->Some_0]),
{
    let one = seq![s];
    assert(one[0] == s);
    if ipv4_octets(s) is Some {
        assert(Seq::new(1, |i: int| ipv4_octets(one[i])->Some_0) =~= seq![ipv4_octets(s)->Some_0]);
    } else {
        assert(!(ipv4_octets(one[0]) is Some));
    }
    assert(Seq::new(0, |i: int| ipv4_octets(Seq::<Seq<char>>::empty()[i])->Some_0) =~= Seq::<Seq<int>>::empty());
}

} // verus!
