//! Choices: what a test case draws, in which kinds, and how simple it is.
//!
//! A test case is a sequence of choice nodes. Each node pairs a kind, which
//! says what may be drawn, with the value that was drawn. Contracts speak of
//! the views [`KindView`], [`ValueView`] and [`NodeView`].
use crate::bignum::BigInt;
use crate::bignum::BigUint;
use crate::bignum::Comparison;
use crate::errors::InternalError;
use crate::intervalsets::ranges_contain;
use crate::intervalsets::ranges_ok;
use crate::intervalsets::ranges_size;
use crate::intervalsets::shrink_position;
use crate::intervalsets::written_in;
use crate::intervalsets::IntervalSet;
use crate::spans::Span;
use std::sync::Arc;
use vstd::prelude::*;

verus! {

/// The denominator of a [`Probability`].
pub const PROBABILITY_ONE: u64 = 0x20_0000_0000_0000;

/// A probability, in units of two to the minus fifty-third.
#[derive(Clone, Copy, Debug, PartialEq, Eq, Structural)]
pub struct Probability {
    /// The number of units, at most [`PROBABILITY_ONE`].
    pub numerator: u64,
}

/// A boolean that is true with probability `p`.
#[derive(Clone, Copy, Debug, PartialEq, Eq, Structural)]
pub struct BooleanChoice {
    /// The probability of `true`.
    pub p: Probability,
}

/// An integer of a range.
#[derive(Debug)]
pub struct IntegerChoice {
    /// The smallest value.
    pub min_value: BigInt,
    /// The largest value.
    pub max_value: BigInt,
    /// The value that shrinking aims for.
    pub shrink_towards: BigInt,
}

/// A floating-point value: its bits, and its place in the shrink order of
/// floating-point values.
#[derive(Clone, Copy, Debug, PartialEq, Eq, Structural)]
pub struct FloatValue {
    /// The bits of the value in the binary64 format.
    pub bits: u64,
    /// How many values are simpler.
    pub order: u64,
}

/// A floating-point value of a range. The bounds are the bits of values in the
/// binary64 format.
#[derive(Clone, Copy, Debug, PartialEq, Eq, Structural)]
pub struct FloatChoice {
    /// The bits of the smallest value.
    pub min_bits: u64,
    /// The bits of the largest value.
    pub max_bits: u64,
    /// Whether NaN may be drawn.
    pub allow_nan: bool,
    /// Whether infinities may be drawn.
    pub allow_infinity: bool,
    /// The bits of the smallest magnitude besides zero.
    pub smallest_magnitude_bits: u64,
    /// The simplest value of the range.
    pub simplest: FloatValue,
    /// The value that stands in for one that does not fit.
    pub unit: FloatValue,
}

/// A byte string of a range of lengths.
#[derive(Clone, Copy, Debug, PartialEq, Eq, Structural)]
pub struct BytesChoice {
    /// The smallest length.
    pub min_size: usize,
    /// The largest length.
    pub max_size: usize,
}

/// A string over an alphabet, of a range of lengths.
#[derive(Debug)]
pub struct StringChoice {
    /// The alphabet.
    pub intervals: IntervalSet,
    /// The smallest length.
    pub min_size: usize,
    /// The largest length.
    pub max_size: usize,
}

/// The view of an [`IntegerChoice`].
pub struct IntegerKind {
    pub min: int,
    pub max: int,
    pub towards: int,
}

/// The view of a [`StringChoice`].
pub struct StringKind {
    pub alphabet: Seq<(u32, u32)>,
    pub min_size: usize,
    pub max_size: usize,
}

/// What a choice may be.
pub enum KindView {
    Boolean(BooleanChoice),
    Integer(IntegerKind),
    Float(FloatChoice),
    Bytes(BytesChoice),
    String(StringKind),
    Clone,
}

/// What a choice is. A cloned stream is recorded by its values alone, or by
/// its nodes and spans.
pub enum ValueView {
    Boolean(bool),
    Integer(int),
    Float(FloatValue),
    Bytes(Seq<u8>),
    String(Seq<u32>),
    Values(Seq<ValueView>),
    Stream(Seq<NodeView>, Seq<Span>),
}

/// A choice: what it may be, what it is, and whether it had to be that.
pub struct NodeView {
    pub kind: KindView,
    pub value: ValueView,
    pub was_forced: bool,
}

impl View for IntegerChoice {
    type V = IntegerKind;

    open spec fn view(&self) -> IntegerKind {
        IntegerKind {
            min: self.min_value@,
            max: self.max_value@,
            towards: self.shrink_towards@,
        }
    }
}

impl View for StringChoice {
    type V = StringKind;

    open spec fn view(&self) -> StringKind {
        StringKind {
            alphabet: self.intervals@,
            min_size: self.min_size,
            max_size: self.max_size,
        }
    }
}

impl Clone for IntegerChoice {
    fn clone(&self) -> (r: Self)
        ensures
            r@ == self@,
    {
        IntegerChoice {
            min_value: self.min_value.clone(),
            max_value: self.max_value.clone(),
            shrink_towards: self.shrink_towards.clone(),
        }
    }
}

impl Clone for StringChoice {
    fn clone(&self) -> (r: Self)
        ensures
            r@ == self@,
            r.intervals.wf(),
    {
        StringChoice {
            intervals: self.intervals.clone(),
            min_size: self.min_size,
            max_size: self.max_size,
        }
    }
}

/// A choice with its kind.
#[derive(Debug)]
pub enum ChoiceData {
    Boolean(BooleanChoice, bool),
    Integer(Arc<IntegerChoice>, BigInt),
    Float(FloatChoice, FloatValue),
    Bytes(BytesChoice, Vec<u8>),
    String(Arc<StringChoice>, Vec<u32>),
    Clone(Arc<RealizedStream>),
}

/// One choice of a test case.
#[derive(Debug)]
pub struct ChoiceNode {
    /// The kind and the value.
    pub data: ChoiceData,
    /// Whether the value had to be what it is.
    pub was_forced: bool,
}

/// The record of a cloned stream: its choices and its spans.
#[derive(Debug)]
pub struct RealizedStream {
    /// The choices.
    pub nodes: Vec<ChoiceNode>,
    /// The spans.
    pub spans: Vec<Span>,
}

/// What a clone value holds of its stream.
#[derive(Debug)]
pub enum CloneRecord {
    /// Values only, as read back from storage.
    Values(Arc<Vec<ChoiceValue>>),
    /// The choices of a stream that was run.
    Realized(Arc<RealizedStream>),
}

/// The value of a choice.
#[derive(Debug)]
pub enum ChoiceValue {
    Boolean(bool),
    Integer(BigInt),
    Float(FloatValue),
    Bytes(Vec<u8>),
    String(Vec<u32>),
    Clone(CloneRecord),
}

/// The view of the kind of a choice.
pub open spec fn kind_view(d: ChoiceData) -> KindView {
    match d {
        ChoiceData::Boolean(k, _) => KindView::Boolean(k),
        ChoiceData::Integer(k, _) => KindView::Integer(k@),
        ChoiceData::Float(k, _) => KindView::Float(k),
        ChoiceData::Bytes(k, _) => KindView::Bytes(k),
        ChoiceData::String(k, _) => KindView::String(k@),
        ChoiceData::Clone(_) => KindView::Clone,
    }
}

/// The view of a choice.
pub open spec fn node_view(n: ChoiceNode) -> NodeView
    decreases n,
{
    NodeView {
        kind: kind_view(n.data),
        value: match n.data {
            ChoiceData::Boolean(_, v) => ValueView::Boolean(v),
            ChoiceData::Integer(_, v) => ValueView::Integer(v@),
            ChoiceData::Float(_, v) => ValueView::Float(v),
            ChoiceData::Bytes(_, v) => ValueView::Bytes(v@),
            ChoiceData::String(_, v) => ValueView::String(v@),
            ChoiceData::Clone(s) => ValueView::Stream(
                Seq::new(
                    s.nodes@.len(),
                    |i: int|
                        if 0 <= i < s.nodes@.len() {
                            node_view(s.nodes@[i])
                        } else {
                            arbitrary()
                        },
                ),
                s.spans@,
            ),
        },
        was_forced: n.was_forced,
    }
}

impl View for ChoiceNode {
    type V = NodeView;

    open spec fn view(&self) -> NodeView {
        node_view(*self)
    }
}

/// The views of a sequence of choices.
pub open spec fn nodes_view(s: Seq<ChoiceNode>) -> Seq<NodeView> {
    s.map_values(|n: ChoiceNode| n@)
}

/// The view of a realized stream as a value.
pub open spec fn stream_value(s: RealizedStream) -> ValueView {
    ValueView::Stream(nodes_view(s.nodes@), s.spans@)
}

proof fn lemma_stream_view(n: ChoiceNode)
    ensures
        n.data matches ChoiceData::Clone(s) ==> n@.value == stream_value(*s),
{
    match n.data {
        ChoiceData::Clone(s) => {
            assert(n@.value->Stream_0 =~= nodes_view(s.nodes@));
        },
        _ => {},
    }
}

/// The view of a value.
pub open spec fn value_view(v: ChoiceValue) -> ValueView
    decreases v,
{
    match v {
        ChoiceValue::Boolean(b) => ValueView::Boolean(b),
        ChoiceValue::Integer(i) => ValueView::Integer(i@),
        ChoiceValue::Float(f) => ValueView::Float(f),
        ChoiceValue::Bytes(b) => ValueView::Bytes(b@),
        ChoiceValue::String(s) => ValueView::String(s@),
        ChoiceValue::Clone(CloneRecord::Values(vs)) => ValueView::Values(
            Seq::new(
                vs@.len(),
                |i: int|
                    if 0 <= i < vs@.len() {
                        value_view(vs@[i])
                    } else {
                        arbitrary()
                    },
            ),
        ),
        ChoiceValue::Clone(CloneRecord::Realized(s)) => stream_value(*s),
    }
}

impl View for ChoiceValue {
    type V = ValueView;

    open spec fn view(&self) -> ValueView {
        value_view(*self)
    }
}

/// The views of a sequence of values.
pub open spec fn values_view(s: Seq<ChoiceValue>) -> Seq<ValueView> {
    s.map_values(|v: ChoiceValue| v@)
}

/// The values of a sequence of choices.
pub open spec fn node_values(s: Seq<NodeView>) -> Seq<ValueView> {
    s.map_values(|n: NodeView| n.value)
}

impl Clone for CloneRecord {
    fn clone(&self) -> (r: Self)
        ensures
            r == *self,
    {
        match self {
            CloneRecord::Values(vs) => CloneRecord::Values(Arc::clone(vs)),
            CloneRecord::Realized(s) => CloneRecord::Realized(Arc::clone(s)),
        }
    }
}

fn copy_bytes(v: &Vec<u8>) -> (r: Vec<u8>)
    ensures
        r@ == v@,
{
    let r = v.clone();
    assert(r@ =~= v@);
    r
}

fn copy_codepoints(v: &Vec<u32>) -> (r: Vec<u32>)
    ensures
        r@ == v@,
{
    let r = v.clone();
    assert(r@ =~= v@);
    r
}

impl Clone for ChoiceValue {
    fn clone(&self) -> (r: Self)
        ensures
            r@ == self@,
    {
        match self {
            ChoiceValue::Boolean(b) => ChoiceValue::Boolean(*b),
            ChoiceValue::Integer(i) => ChoiceValue::Integer(i.clone()),
            ChoiceValue::Float(f) => ChoiceValue::Float(*f),
            ChoiceValue::Bytes(b) => ChoiceValue::Bytes(copy_bytes(b)),
            ChoiceValue::String(s) => ChoiceValue::String(copy_codepoints(s)),
            ChoiceValue::Clone(c) => ChoiceValue::Clone(c.clone()),
        }
    }
}

impl Clone for ChoiceData {
    fn clone(&self) -> (r: Self)
        ensures
            kind_view(r) == kind_view(*self),
            forall|f: bool|
                node_view(ChoiceNode { data: r, was_forced: f }) == #[trigger] node_view(
                    ChoiceNode { data: *self, was_forced: f },
                ),
    {
        match self {
            ChoiceData::Boolean(k, v) => ChoiceData::Boolean(*k, *v),
            ChoiceData::Integer(k, v) => ChoiceData::Integer(Arc::clone(k), v.clone()),
            ChoiceData::Float(k, v) => ChoiceData::Float(*k, *v),
            ChoiceData::Bytes(k, v) => ChoiceData::Bytes(*k, copy_bytes(v)),
            ChoiceData::String(k, v) => ChoiceData::String(Arc::clone(k), copy_codepoints(v)),
            ChoiceData::Clone(s) => ChoiceData::Clone(Arc::clone(s)),
        }
    }
}

impl Clone for ChoiceNode {
    fn clone(&self) -> (r: Self)
        ensures
            r@ == self@,
    {
        let data = self.data.clone();
        proof {
            assert(node_view(ChoiceNode { data: self.data, was_forced: self.was_forced }) == self@);
        }
        ChoiceNode { data, was_forced: self.was_forced }
    }
}

/// A copy of a sequence of choices.
pub fn copy_nodes(nodes: &[ChoiceNode]) -> (r: Vec<ChoiceNode>)
    ensures
        nodes_view(r@) == nodes_view(nodes@),
{
    let mut out: Vec<ChoiceNode> = Vec::new();
    let mut i: usize = 0;
    while i < nodes.len()
        invariant
            i <= nodes@.len(),
            out@.len() == i,
            forall|j: int| 0 <= j < i ==> (#[trigger] out@[j])@ == nodes@[j]@,
        decreases nodes@.len() - i,
    {
        out.push(nodes[i].clone());
        i = i + 1;
    }
    assert(nodes_view(out@) =~= nodes_view(nodes@));
    out
}

/// A copy of a sequence of values.
pub fn copy_values(values: &[ChoiceValue]) -> (r: Vec<ChoiceValue>)
    ensures
        values_view(r@) == values_view(values@),
{
    let mut out: Vec<ChoiceValue> = Vec::new();
    let mut i: usize = 0;
    while i < values.len()
        invariant
            i <= values@.len(),
            out@.len() == i,
            forall|j: int| 0 <= j < i ==> (#[trigger] out@[j])@ == values@[j]@,
        decreases values@.len() - i,
    {
        out.push(values[i].clone());
        i = i + 1;
    }
    assert(values_view(out@) =~= values_view(values@));
    out
}

/// The value of each of a sequence of choices.
pub fn values_of(nodes: &[ChoiceNode]) -> (r: Vec<ChoiceValue>)
    ensures
        values_view(r@) == node_values(nodes_view(nodes@)),
{
    let mut out: Vec<ChoiceValue> = Vec::new();
    let mut i: usize = 0;
    while i < nodes.len()
        invariant
            i <= nodes@.len(),
            out@.len() == i,
            forall|j: int| 0 <= j < i ==> (#[trigger] out@[j])@ == nodes@[j]@.value,
        decreases nodes@.len() - i,
    {
        out.push(nodes[i].value());
        i = i + 1;
    }
    assert(values_view(out@) =~= node_values(nodes_view(nodes@)));
    out
}


/// The value that shrinking an integer aims for, moved into the range.
pub open spec fn integer_target(k: IntegerKind) -> int {
    if k.towards < k.min {
        k.min
    } else if k.towards > k.max {
        k.max
    } else {
        k.towards
    }
}

/// Whether the probability lies strictly between zero and one.
pub open spec fn is_open(p: Probability) -> bool {
    0 < p.numerator < PROBABILITY_ONE
}

/// The simpler boolean: `false`, unless it can never be drawn.
pub open spec fn boolean_simplest(k: BooleanChoice) -> bool {
    k.p.numerator >= PROBABILITY_ONE
}

/// The magnitude of a binary64 value, as bits.
pub open spec fn float_magnitude(bits: u64) -> int {
    bits as int % 0x8000_0000_0000_0000
}

/// A number that orders binary64 values, with minus zero before plus zero.
pub open spec fn float_rank(bits: u64) -> int {
    if bits >= 0x8000_0000_0000_0000u64 {
        0x8000_0000_0000_0000 - 1 - float_magnitude(bits)
    } else {
        0x8000_0000_0000_0000 + bits
    }
}

/// The magnitude of infinity, as bits.
pub const FLOAT_INFINITY_BITS: u64 = 0x7ff0_0000_0000_0000;

/// Whether a floating-point value may be drawn.
pub open spec fn float_fits(k: FloatChoice, v: FloatValue) -> bool {
    let m = float_magnitude(v.bits);
    if m > FLOAT_INFINITY_BITS {
        k.allow_nan
    } else {
        &&& m == FLOAT_INFINITY_BITS ==> k.allow_infinity
        &&& float_rank(k.min_bits) <= float_rank(v.bits) <= float_rank(k.max_bits)
        &&& m == 0 || m >= float_magnitude(k.smallest_magnitude_bits)
    }
}

/// Whether a value may be drawn as a choice of the kind.
pub open spec fn value_fits(k: KindView, v: ValueView) -> bool {
    match (k, v) {
        (KindView::Boolean(k), ValueView::Boolean(b)) => is_open(k.p) || b == boolean_simplest(k),
        (KindView::Integer(k), ValueView::Integer(n)) => k.min <= n <= k.max,
        (KindView::Float(k), ValueView::Float(f)) => float_fits(k, f),
        (KindView::Bytes(k), ValueView::Bytes(b)) => k.min_size <= b.len() <= k.max_size,
        (KindView::String(k), ValueView::String(s)) => k.min_size <= s.len() <= k.max_size
            && written_in(k.alphabet, s),
        (KindView::Clone, ValueView::Stream(_, _)) => true,
        _ => false,
    }
}

/// The codepoint at place `i` of the shrink order of an alphabet.
pub open spec fn codepoint_at(s: Seq<(u32, u32)>, i: int) -> u32 {
    choose|cp: u32| ranges_contain(s, cp as int) && #[trigger] shrink_position(s, cp as int) == i
}

proof fn lemma_codepoint_at(s: Seq<(u32, u32)>, cp: u32)
    requires
        ranges_ok(s),
        ranges_contain(s, cp as int),
        0 <= shrink_position(s, cp as int) < ranges_size(s),
    ensures
        codepoint_at(s, shrink_position(s, cp as int)) == cp,
{
    let i = shrink_position(s, cp as int);
    let other = codepoint_at(s, i);
    assert(ranges_contain(s, other as int) && shrink_position(s, other as int) == i);
    crate::intervalsets::lemma_shrink_position_is_unique(s, cp as int, other as int);
}

/// The simplest value of a kind. A string of an empty alphabet has none,
/// unless it may be empty.
pub open spec fn simplest_of(k: KindView) -> Option<ValueView> {
    match k {
        KindView::Boolean(k) => Some(ValueView::Boolean(boolean_simplest(k))),
        KindView::Integer(k) => Some(ValueView::Integer(integer_target(k))),
        KindView::Float(k) => Some(ValueView::Float(k.simplest)),
        KindView::Bytes(k) => Some(ValueView::Bytes(Seq::new(k.min_size as nat, |i: int| 0u8))),
        KindView::String(k) => if k.min_size > 0 && ranges_size(k.alphabet) == 0 {
            None
        } else {
            Some(
                ValueView::String(
                    Seq::new(k.min_size as nat, |i: int| codepoint_at(k.alphabet, 0)),
                ),
            )
        },
        KindView::Clone => Some(ValueView::Stream(Seq::empty(), Seq::empty())),
    }
}

/// The value that stands in for one that does not fit: the second simplest,
/// where there is one.
pub open spec fn unit_of(k: KindView) -> Option<ValueView> {
    match k {
        KindView::Boolean(k) => Some(
            ValueView::Boolean(
                if is_open(k.p) {
                    true
                } else {
                    boolean_simplest(k)
                },
            ),
        ),
        KindView::Integer(k) => Some(
            ValueView::Integer(
                if integer_target(k) < k.max {
                    integer_target(k) + 1
                } else if k.min < integer_target(k) {
                    integer_target(k) - 1
                } else {
                    integer_target(k)
                },
            ),
        ),
        KindView::Float(k) => Some(ValueView::Float(k.unit)),
        KindView::Bytes(k) => Some(
            ValueView::Bytes(
                if k.min_size == 0 {
                    if k.max_size == 0 {
                        Seq::empty()
                    } else {
                        seq![0u8]
                    }
                } else {
                    Seq::new((k.min_size - 1) as nat, |i: int| 0u8).push(1u8)
                },
            ),
        ),
        KindView::String(k) => if ranges_size(k.alphabet) == 0 {
            simplest_of(KindView::String(k))
        } else {
            Some(
                ValueView::String(
                    if k.min_size == 0 {
                        if k.max_size == 0 {
                            Seq::empty()
                        } else {
                            seq![codepoint_at(k.alphabet, 0)]
                        }
                    } else {
                        Seq::new(
                            (k.min_size - 1) as nat,
                            |i: int| codepoint_at(k.alphabet, 0),
                        ).push(
                            if ranges_size(k.alphabet) > 1 {
                                codepoint_at(k.alphabet, 1)
                            } else {
                                codepoint_at(k.alphabet, 0)
                            },
                        )
                    },
                ),
            )
        },
        KindView::Clone => Some(ValueView::Stream(Seq::empty(), Seq::empty())),
    }
}

/// How many integers of the range are simpler than `v`: nearer to the target,
/// or as near and above it where `v` is below.
pub open spec fn integer_index(k: IntegerKind, v: int) -> int {
    let t = integer_target(k);
    if v == t {
        0
    } else if v > t {
        let d = v - t;
        if d - 1 <= t - k.min {
            2 * d - 1
        } else {
            d + (t - k.min)
        }
    } else {
        let d = t - v;
        if d <= k.max - t {
            2 * d
        } else {
            d + (k.max - t)
        }
    }
}

/// The integer of the range with `i` simpler ones.
pub open spec fn integer_at(k: IntegerKind, i: int) -> int {
    let t = integer_target(k);
    let above = k.max - t;
    let below = t - k.min;
    let near = if above < below {
        above
    } else {
        below
    };
    if i > 2 * near {
        if above > below {
            t + (i - near)
        } else {
            t - (i - near)
        }
    } else if i % 2 == 1 {
        t + (i + 1) / 2
    } else {
        t - i / 2
    }
}

/// The indices of the integers of a range run from zero to its width, and
/// each has one integer.
pub proof fn lemma_integer_index_is_a_bijection(k: IntegerKind, v: int, i: int)
    requires
        k.min <= v <= k.max,
        0 <= i <= k.max - k.min,
    ensures
        0 <= integer_index(k, v) <= k.max - k.min,
        integer_at(k, integer_index(k, v)) == v,
        k.min <= integer_at(k, i) <= k.max,
        integer_index(k, integer_at(k, i)) == i,
{
}

/// The index of a value among those of its kind, for the kinds that number
/// their values.
pub open spec fn index_of(k: KindView, v: ValueView) -> Option<nat> {
    match (k, v) {
        (KindView::Boolean(k), ValueView::Boolean(b)) => if value_fits(KindView::Boolean(k), v) {
            Some(
                if b == boolean_simplest(k) {
                    0nat
                } else {
                    1nat
                },
            )
        } else {
            None
        },
        (KindView::Integer(k), ValueView::Integer(n)) => if k.min <= n <= k.max {
            Some(integer_index(k, n) as nat)
        } else {
            None
        },
        _ => None,
    }
}

/// The largest index of a kind that numbers its values.
pub open spec fn max_index_of(k: KindView) -> Option<nat> {
    match k {
        KindView::Boolean(k) => Some(
            if is_open(k.p) {
                1nat
            } else {
                0nat
            },
        ),
        KindView::Integer(k) => if k.min <= k.max {
            Some((k.max - k.min) as nat)
        } else {
            None
        },
        _ => None,
    }
}

/// The value of a kind with the given index.
pub open spec fn value_at(k: KindView, i: nat) -> Option<ValueView> {
    match max_index_of(k) {
        Some(m) => if i > m {
            None
        } else {
            match k {
                KindView::Boolean(k) => Some(
                    ValueView::Boolean(
                        if i == 0 {
                            boolean_simplest(k)
                        } else {
                            !boolean_simplest(k)
                        },
                    ),
                ),
                KindView::Integer(k) => Some(ValueView::Integer(integer_at(k, i as int))),
                _ => None,
            }
        },
        None => None,
    }
}

/// A value is found again by its index, and an index by its value; the
/// simplest value has index zero.
pub proof fn lemma_index_round_trip(k: KindView, v: ValueView, i: nat)
    ensures
        index_of(k, v) matches Some(j) ==> value_at(k, j) == Some(v) && value_fits(k, v),
        value_at(k, i) matches Some(w) ==> index_of(k, w) == Some(i) && value_fits(k, w),
        max_index_of(k) is Some ==> value_at(k, 0) == simplest_of(k),
{
    match (k, v) {
        (KindView::Integer(ik), ValueView::Integer(n)) => {
            if ik.min <= n <= ik.max {
                lemma_integer_index_is_a_bijection(ik, n, 0);
            }
        },
        _ => {},
    }
    match k {
        KindView::Integer(ik) => {
            if ik.min <= ik.max {
                lemma_integer_index_is_a_bijection(ik, ik.min, 0);
                if i <= ik.max - ik.min {
                    lemma_integer_index_is_a_bijection(ik, ik.min, i as int);
                }
            }
        },
        _ => {},
    }
}

impl IntegerChoice {
    /// Whether `v` lies in the range.
    pub fn validate(&self, v: &BigInt) -> (r: bool)
        ensures
            r == (self@.min <= v@ <= self@.max),
    {
        self.min_value.at_most(v) && v.at_most(&self.max_value)
    }

    /// The value that shrinking aims for, moved into the range.
    pub fn clamped_shrink_towards(&self) -> (r: BigInt)
        ensures
            r@ == integer_target(self@),
    {
        if self.shrink_towards.less(&self.min_value) {
            self.min_value.clone()
        } else if self.max_value.less(&self.shrink_towards) {
            self.max_value.clone()
        } else {
            self.shrink_towards.clone()
        }
    }

    /// The simplest value.
    pub fn simplest(&self) -> (r: BigInt)
        ensures
            r@ == integer_target(self@),
    {
        self.clamped_shrink_towards()
    }

    /// The value that stands in for one that does not fit.
    pub fn unit(&self) -> (r: BigInt)
        ensures
            unit_of(KindView::Integer(self@)) == Some(ValueView::Integer(r@)),
    {
        let target = self.clamped_shrink_towards();
        if target.less(&self.max_value) {
            target.plus(&BigInt::from_u64(1))
        } else if self.min_value.less(&target) {
            target.minus(&BigInt::from_u64(1))
        } else {
            target
        }
    }

    /// `v`, where it lies in the range.
    pub fn value_from_bigint(&self, v: &BigInt) -> (r: Option<BigInt>)
        ensures
            match r {
                Some(w) => w@ == v@ && self@.min <= v@ <= self@.max,
                None => !(self@.min <= v@ <= self@.max),
            },
    {
        if self.validate(v) {
            Some(v.clone())
        } else {
            None
        }
    }

    fn index_of(&self, v: &BigInt) -> (r: BigUint)
        requires
            self@.min <= v@ <= self@.max,
        ensures
            r@ as int == integer_index(self@, v@),
    {
        let target = self.clamped_shrink_towards();
        let d = v.minus(&target);
        let m = d.magnitude();
        if d.is_positive() {
            let room = target.minus(&self.min_value).magnitude();
            let one = BigUint::from_u128(1);
            let before = m.minus(&one);
            if before.compare(&room) == Comparison::Greater {
                m.plus(&room)
            } else {
                m.plus(&before)
            }
        } else if d.is_negative() {
            let room = self.max_value.minus(&target).magnitude();
            if m.compare(&room) == Comparison::Greater {
                m.plus(&room)
            } else {
                m.plus(&m)
            }
        } else {
            BigUint::zero()
        }
    }

    fn value_at(&self, i: &BigUint) -> (r: BigInt)
        requires
            self@.min <= self@.max,
            i@ <= self@.max - self@.min,
        ensures
            r@ == integer_at(self@, i@ as int),
    {
        let target = self.clamped_shrink_towards();
        let above = self.max_value.minus(&target).magnitude();
        let below = target.minus(&self.min_value).magnitude();
        let above_is_wider = above.compare(&below) == Comparison::Greater;
        let near = if above_is_wider {
            below
        } else {
            above
        };
        if i.compare(&near.plus(&near)) == Comparison::Greater {
            let d = BigInt::from_magnitude(i.minus(&near));
            if above_is_wider {
                target.plus(&d)
            } else {
                target.minus(&d)
            }
        } else {
            let (half, odd) = i.divide_small(2);
            if odd == 1 {
                target.plus(&BigInt::from_magnitude(half.plus(&BigUint::from_u128(1))))
            } else {
                target.minus(&BigInt::from_magnitude(half))
            }
        }
    }
}

fn float_magnitude_of(bits: u64) -> (r: u64)
    ensures
        r as int == float_magnitude(bits),
{
    bits % 0x8000_0000_0000_0000
}

fn float_rank_of(bits: u64) -> (r: u64)
    ensures
        r as int == float_rank(bits),
{
    if bits >= 0x8000_0000_0000_0000 {
        0x7fff_ffff_ffff_ffff - float_magnitude_of(bits)
    } else {
        0x8000_0000_0000_0000 + bits
    }
}

impl FloatChoice {
    /// Whether `v` may be drawn.
    pub fn validate(&self, v: &FloatValue) -> (r: bool)
        ensures
            r == float_fits(*self, *v),
    {
        let m: u64 = float_magnitude_of(v.bits);
        if m > FLOAT_INFINITY_BITS {
            return self.allow_nan;
        }
        let rank: u64 = float_rank_of(v.bits);
        (m != FLOAT_INFINITY_BITS || self.allow_infinity) && float_rank_of(self.min_bits) <= rank
            && rank <= float_rank_of(self.max_bits) && (m == 0 || m >= float_magnitude_of(
            self.smallest_magnitude_bits,
        ))
    }
}

impl BooleanChoice {
    /// The simpler value.
    pub fn simplest(&self) -> (r: bool)
        ensures
            r == boolean_simplest(*self),
    {
        self.p.numerator >= PROBABILITY_ONE
    }

    /// The value that stands in for one that does not fit.
    pub fn unit(&self) -> (r: bool)
        ensures
            unit_of(KindView::Boolean(*self)) == Some(ValueView::Boolean(r)),
    {
        self.p.numerator > 0
    }

    /// Whether `b` may be drawn.
    pub fn validate(&self, b: bool) -> (r: bool)
        ensures
            r == value_fits(KindView::Boolean(*self), ValueView::Boolean(b)),
    {
        (0 < self.p.numerator && self.p.numerator < PROBABILITY_ONE) || b == self.simplest()
    }
}

fn repeated_byte(byte: u8, count: usize) -> (r: Vec<u8>)
    ensures
        r@ == Seq::new(count as nat, |i: int| byte),
{
    let mut out: Vec<u8> = Vec::new();
    while out.len() < count
        invariant
            out@.len() <= count,
            forall|i: int| 0 <= i < out@.len() ==> out@[i] == byte,
        decreases count - out@.len(),
    {
        out.push(byte);
    }
    assert(out@ =~= Seq::new(count as nat, |i: int| byte));
    out
}

fn repeated_codepoint(cp: u32, count: usize) -> (r: Vec<u32>)
    ensures
        r@ == Seq::new(count as nat, |i: int| cp),
{
    let mut out: Vec<u32> = Vec::new();
    while out.len() < count
        invariant
            out@.len() <= count,
            forall|i: int| 0 <= i < out@.len() ==> out@[i] == cp,
        decreases count - out@.len(),
    {
        out.push(cp);
    }
    assert(out@ =~= Seq::new(count as nat, |i: int| cp));
    out
}

impl BytesChoice {
    /// The simplest value: as many zero bytes as there must be.
    pub fn simplest(&self) -> (r: Vec<u8>)
        ensures
            simplest_of(KindView::Bytes(*self)) == Some(ValueView::Bytes(r@)),
    {
        repeated_byte(0, self.min_size)
    }

    /// The value that stands in for one that does not fit.
    pub fn unit(&self) -> (r: Vec<u8>)
        ensures
            unit_of(KindView::Bytes(*self)) == Some(ValueView::Bytes(r@)),
    {
        if self.min_size == 0 {
            let mut out: Vec<u8> = Vec::new();
            if self.max_size > 0 {
                out.push(0);
            }
            assert(out@ =~= if self.max_size == 0 {
                Seq::empty()
            } else {
                seq![0u8]
            });
            out
        } else {
            let mut out = repeated_byte(0, self.min_size - 1);
            out.push(1);
            out
        }
    }

    /// Whether `b` has an admitted length.
    pub fn validate(&self, b: &Vec<u8>) -> (r: bool)
        ensures
            r == value_fits(KindView::Bytes(*self), ValueView::Bytes(b@)),
    {
        self.min_size <= b.len() && b.len() <= self.max_size
    }
}

impl StringChoice {
    /// The simplest codepoint of the alphabet.
    pub fn simplest_codepoint(&self) -> (r: Result<u32, InternalError>)
        ensures
            match r {
                Ok(cp) => ranges_size(self@.alphabet) > 0 && cp == codepoint_at(self@.alphabet, 0)
                    && ranges_contain(self@.alphabet, cp as int),
                Err(_) => ranges_size(self@.alphabet) == 0,
            },
    {
        if self.intervals.is_empty() {
            return Err(InternalError::new("an empty alphabet has no simplest codepoint"));
        }
        let cp: u32 = self.intervals.char_in_shrink_order(0);
        proof {
            lemma_codepoint_at(self.intervals@, cp);
        }
        Ok(cp)
    }

    /// The simplest value: as many of the simplest codepoint as there must be.
    pub fn simplest(&self) -> (r: Result<Vec<u32>, InternalError>)
        ensures
            match r {
                Ok(s) => simplest_of(KindView::String(self@)) == Some(ValueView::String(s@)),
                Err(_) => simplest_of(KindView::String(self@)) is None,
            },
    {
        if self.min_size == 0 {
            let out: Vec<u32> = Vec::new();
            assert(out@ =~= Seq::new(0, |i: int| codepoint_at(self@.alphabet, 0)));
            return Ok(out);
        }
        match self.simplest_codepoint() {
            Ok(cp) => {
                let out = repeated_codepoint(cp, self.min_size);
                assert(out@ =~= Seq::new(
                    self.min_size as nat,
                    |i: int| codepoint_at(self@.alphabet, 0),
                ));
                Ok(out)
            },
            Err(e) => Err(e),
        }
    }

    /// The value that stands in for one that does not fit.
    pub fn unit(&self) -> (r: Result<Vec<u32>, InternalError>)
        ensures
            match r {
                Ok(s) => unit_of(KindView::String(self@)) == Some(ValueView::String(s@)),
                Err(_) => unit_of(KindView::String(self@)) is None,
            },
    {
        let size: usize = self.intervals.len();
        if size == 0 {
            return self.simplest();
        }
        let first: u32 = self.intervals.char_in_shrink_order(0);
        proof {
            lemma_codepoint_at(self.intervals@, first);
        }
        if self.min_size == 0 {
            let mut out: Vec<u32> = Vec::new();
            if self.max_size > 0 {
                out.push(first);
            }
            assert(out@ =~= if self.max_size == 0 {
                Seq::empty()
            } else {
                seq![first]
            });
            Ok(out)
        } else {
            let mut out = repeated_codepoint(first, self.min_size - 1);
            assert(out@ =~= Seq::new(
                (self.min_size - 1) as nat,
                |i: int| codepoint_at(self@.alphabet, 0),
            ));
            if size > 1 {
                let second: u32 = self.intervals.char_in_shrink_order(1);
                proof {
                    lemma_codepoint_at(self.intervals@, second);
                }
                out.push(second);
            } else {
                out.push(first);
            }
            Ok(out)
        }
    }

    /// Whether `s` has an admitted length and is written in the alphabet.
    pub fn validate(&self, s: &Vec<u32>) -> (r: bool)
        ensures
            r == value_fits(KindView::String(self@), ValueView::String(s@)),
    {
        self.min_size <= s.len() && s.len() <= self.max_size
            && crate::intervalsets::is_written_in(&self.intervals, s)
    }
}

/// The view of the value of a choice.
pub open spec fn data_value(d: ChoiceData) -> ValueView {
    node_view(ChoiceNode { data: d, was_forced: false }).value
}

/// The values of a recorded stream.
pub open spec fn record_values(v: ValueView) -> Seq<ValueView> {
    match v {
        ValueView::Values(values) => values,
        ValueView::Stream(nodes, _) => node_values(nodes),
        _ => Seq::empty(),
    }
}

/// The choices of a recorded stream, where they are known.
pub open spec fn record_nodes(v: ValueView) -> Option<Seq<NodeView>> {
    match v {
        ValueView::Stream(nodes, _) => Some(nodes),
        _ => None,
    }
}

impl CloneRecord {
    /// The values of the stream.
    pub fn owned_values(&self) -> (r: Vec<ChoiceValue>)
        ensures
            values_view(r@) == record_values(value_view(ChoiceValue::Clone(*self))),
    {
        match self {
            CloneRecord::Values(vs) => {
                let r = copy_values(vs.as_slice());
                assert(values_view(vs@) =~= record_values(value_view(ChoiceValue::Clone(*self))));
                r
            },
            CloneRecord::Realized(s) => values_of(s.nodes.as_slice()),
        }
    }

    /// The choices of the stream, where they are known.
    pub fn realized_nodes(&self) -> (r: Option<Vec<ChoiceNode>>)
        ensures
            match (r, record_nodes(value_view(ChoiceValue::Clone(*self)))) {
                (Some(nodes), Some(known)) => nodes_view(nodes@) == known,
                (None, None) => true,
                _ => false,
            },
    {
        match self {
            CloneRecord::Values(_) => None,
            CloneRecord::Realized(s) => Some(copy_nodes(s.nodes.as_slice())),
        }
    }
}

impl RealizedStream {
    /// The record of a stream without choices.
    pub fn empty() -> (r: Self)
        ensures
            stream_value(r) == ValueView::Stream(Seq::empty(), Seq::empty()),
    {
        let r = RealizedStream { nodes: Vec::new(), spans: Vec::new() };
        assert(nodes_view(r.nodes@) =~= Seq::empty());
        r
    }
}

impl ChoiceData {
    /// The value.
    pub fn value(&self) -> (r: ChoiceValue)
        ensures
            r@ == data_value(*self),
    {
        proof {
            lemma_stream_view(ChoiceNode { data: *self, was_forced: false });
        }
        match self {
            ChoiceData::Boolean(_, v) => ChoiceValue::Boolean(*v),
            ChoiceData::Integer(_, v) => ChoiceValue::Integer(v.clone()),
            ChoiceData::Float(_, v) => ChoiceValue::Float(*v),
            ChoiceData::Bytes(_, v) => ChoiceValue::Bytes(copy_bytes(v)),
            ChoiceData::String(_, v) => ChoiceValue::String(copy_codepoints(v)),
            ChoiceData::Clone(s) => ChoiceValue::Clone(CloneRecord::Realized(Arc::clone(s))),
        }
    }

    /// The simplest value of the kind.
    pub fn simplest_value(&self) -> (r: Result<ChoiceValue, InternalError>)
        ensures
            match r {
                Ok(v) => simplest_of(kind_view(*self)) == Some(v@),
                Err(_) => simplest_of(kind_view(*self)) is None,
            },
    {
        match self {
            ChoiceData::Boolean(k, _) => Ok(ChoiceValue::Boolean(k.simplest())),
            ChoiceData::Integer(k, _) => Ok(ChoiceValue::Integer(k.simplest())),
            ChoiceData::Float(k, _) => Ok(ChoiceValue::Float(k.simplest)),
            ChoiceData::Bytes(k, _) => Ok(ChoiceValue::Bytes(k.simplest())),
            ChoiceData::String(k, _) => match k.simplest() {
                Ok(s) => Ok(ChoiceValue::String(s)),
                Err(e) => Err(e),
            },
            ChoiceData::Clone(_) => Ok(
                ChoiceValue::Clone(CloneRecord::Realized(Arc::new(RealizedStream::empty()))),
            ),
        }
    }

    /// Whether the value is the simplest of its kind.
    pub fn is_simplest(&self) -> (r: Result<bool, InternalError>)
        ensures
            match r {
                Ok(b) => simplest_of(kind_view(*self)) is Some && b == (simplest_of(
                    kind_view(*self),
                ) == Some(data_value(*self))),
                Err(_) => simplest_of(kind_view(*self)) is None,
            },
    {
        match self.simplest_value() {
            Ok(v) => Ok(v.same(&self.value())),
            Err(e) => Err(e),
        }
    }

    /// The index of the value, for the kinds that number their values.
    pub fn to_index(&self) -> (r: Option<BigUint>)
        ensures
            match r {
                Some(i) => index_of(kind_view(*self), data_value(*self)) == Some(i@),
                None => index_of(kind_view(*self), data_value(*self)) is None,
            },
    {
        match self {
            ChoiceData::Boolean(k, v) => {
                if !k.validate(*v) {
                    None
                } else if *v == k.simplest() {
                    Some(BigUint::zero())
                } else {
                    Some(BigUint::from_u128(1))
                }
            },
            ChoiceData::Integer(k, v) => {
                if k.validate(v) {
                    proof {
                        lemma_integer_index_is_a_bijection(k@, v@, 0);
                    }
                    Some(k.index_of(v))
                } else {
                    None
                }
            },
            _ => None,
        }
    }

    /// The largest index, for the kinds that number their values.
    pub fn max_index(&self) -> (r: Option<BigUint>)
        ensures
            match r {
                Some(i) => max_index_of(kind_view(*self)) == Some(i@),
                None => max_index_of(kind_view(*self)) is None,
            },
    {
        match self {
            ChoiceData::Boolean(k, _) => {
                if 0 < k.p.numerator && k.p.numerator < PROBABILITY_ONE {
                    Some(BigUint::from_u128(1))
                } else {
                    Some(BigUint::zero())
                }
            },
            ChoiceData::Integer(k, _) => {
                if k.min_value.at_most(&k.max_value) {
                    Some(k.max_value.minus(&k.min_value).magnitude())
                } else {
                    None
                }
            },
            _ => None,
        }
    }

    /// The value of the kind with index `i`.
    pub fn from_index(&self, i: &BigUint) -> (r: Option<ChoiceValue>)
        ensures
            match r {
                Some(v) => value_at(kind_view(*self), i@) == Some(v@),
                None => value_at(kind_view(*self), i@) is None,
            },
    {
        match self.max_index() {
            None => None,
            Some(m) => {
                if i.compare(&m) == Comparison::Greater {
                    return None;
                }
                match self {
                    ChoiceData::Boolean(k, _) => {
                        if i.is_zero() {
                            Some(ChoiceValue::Boolean(k.simplest()))
                        } else {
                            Some(ChoiceValue::Boolean(!k.simplest()))
                        }
                    },
                    ChoiceData::Integer(k, _) => Some(ChoiceValue::Integer(k.value_at(i))),
                    _ => None,
                }
            },
        }
    }
}

/// The choice with another value.
pub open spec fn node_with(n: NodeView, v: ValueView) -> NodeView {
    NodeView { kind: n.kind, value: v, was_forced: n.was_forced }
}

impl ChoiceNode {
    /// A boolean choice.
    pub fn boolean(kind: BooleanChoice, value: bool, was_forced: bool) -> (r: Self)
        ensures
            r@ == (NodeView {
                kind: KindView::Boolean(kind),
                value: ValueView::Boolean(value),
                was_forced,
            }),
    {
        ChoiceNode { data: ChoiceData::Boolean(kind, value), was_forced }
    }

    /// An integer choice.
    pub fn integer(kind: IntegerChoice, value: BigInt, was_forced: bool) -> (r: Self)
        ensures
            r@ == (NodeView {
                kind: KindView::Integer(kind@),
                value: ValueView::Integer(value@),
                was_forced,
            }),
    {
        ChoiceNode { data: ChoiceData::Integer(Arc::new(kind), value), was_forced }
    }

    /// A floating-point choice.
    pub fn float(kind: FloatChoice, value: FloatValue, was_forced: bool) -> (r: Self)
        ensures
            r@ == (NodeView {
                kind: KindView::Float(kind),
                value: ValueView::Float(value),
                was_forced,
            }),
    {
        ChoiceNode { data: ChoiceData::Float(kind, value), was_forced }
    }

    /// A byte string choice.
    pub fn bytes(kind: BytesChoice, value: Vec<u8>, was_forced: bool) -> (r: Self)
        ensures
            r@ == (NodeView {
                kind: KindView::Bytes(kind),
                value: ValueView::Bytes(value@),
                was_forced,
            }),
    {
        ChoiceNode { data: ChoiceData::Bytes(kind, value), was_forced }
    }

    /// A string choice.
    pub fn string(kind: StringChoice, value: Vec<u32>, was_forced: bool) -> (r: Self)
        ensures
            r@ == (NodeView {
                kind: KindView::String(kind@),
                value: ValueView::String(value@),
                was_forced,
            }),
    {
        ChoiceNode { data: ChoiceData::String(Arc::new(kind), value), was_forced }
    }

    /// A cloned stream.
    pub fn clone_stream(stream: Arc<RealizedStream>, was_forced: bool) -> (r: Self)
        ensures
            r@ == (NodeView {
                kind: KindView::Clone,
                value: stream_value(*stream),
                was_forced,
            }),
    {
        let r = ChoiceNode { data: ChoiceData::Clone(stream), was_forced };
        proof {
            lemma_stream_view(r);
        }
        r
    }

    /// The value.
    pub fn value(&self) -> (r: ChoiceValue)
        ensures
            r@ == self@.value,
    {
        self.data.value()
    }

    /// The choice with value `v`, where it fits the kind.
    pub fn with_value(&self, v: &ChoiceValue) -> (r: Option<ChoiceNode>)
        ensures
            match r {
                Some(n) => value_fits(self@.kind, v@) && n@ == node_with(self@, v@),
                None => !value_fits(self@.kind, v@),
            },
    {
        let was_forced = self.was_forced;
        let data = match (&self.data, v) {
            (ChoiceData::Boolean(k, _), ChoiceValue::Boolean(b)) => {
                if !k.validate(*b) {
                    return None;
                }
                ChoiceData::Boolean(*k, *b)
            },
            (ChoiceData::Integer(k, _), ChoiceValue::Integer(n)) => {
                if !k.validate(n) {
                    return None;
                }
                ChoiceData::Integer(Arc::clone(k), n.clone())
            },
            (ChoiceData::Float(k, _), ChoiceValue::Float(f)) => {
                if !k.validate(f) {
                    return None;
                }
                ChoiceData::Float(*k, *f)
            },
            (ChoiceData::Bytes(k, _), ChoiceValue::Bytes(b)) => {
                if !k.validate(b) {
                    return None;
                }
                ChoiceData::Bytes(*k, copy_bytes(b))
            },
            (ChoiceData::String(k, _), ChoiceValue::String(s)) => {
                if !k.validate(s) {
                    return None;
                }
                ChoiceData::String(Arc::clone(k), copy_codepoints(s))
            },
            (ChoiceData::Clone(_), ChoiceValue::Clone(CloneRecord::Realized(s))) => {
                let r = ChoiceNode { data: ChoiceData::Clone(Arc::clone(s)), was_forced };
                proof {
                    lemma_stream_view(r);
                }
                return Some(r);
            },
            _ => {
                return None;
            },
        };
        Some(ChoiceNode { data, was_forced })
    }

    /// The choice with the simplest value of its kind.
    pub fn with_simplest(&self) -> (r: Result<ChoiceNode, InternalError>)
        ensures
            match r {
                Ok(n) => simplest_of(self@.kind) is Some && n@ == node_with(
                    self@,
                    simplest_of(self@.kind).unwrap(),
                ),
                Err(_) => simplest_of(self@.kind) is None,
            },
    {
        let was_forced = self.was_forced;
        match &self.data {
            ChoiceData::Boolean(k, _) => Ok(ChoiceNode::boolean(*k, k.simplest(), was_forced)),
            ChoiceData::Integer(k, _) => {
                let v = k.simplest();
                Ok(ChoiceNode { data: ChoiceData::Integer(Arc::clone(k), v), was_forced })
            },
            ChoiceData::Float(k, _) => Ok(ChoiceNode::float(*k, k.simplest, was_forced)),
            ChoiceData::Bytes(k, _) => Ok(ChoiceNode::bytes(*k, k.simplest(), was_forced)),
            ChoiceData::String(k, _) => match k.simplest() {
                Ok(v) => Ok(
                    ChoiceNode { data: ChoiceData::String(Arc::clone(k), v), was_forced },
                ),
                Err(e) => Err(e),
            },
            ChoiceData::Clone(_) => Ok(
                ChoiceNode::clone_stream(Arc::new(RealizedStream::empty()), was_forced),
            ),
        }
    }
}

/// Whether two kinds of choice are of the same sort, whatever their bounds.
pub open spec fn same_sort(a: KindView, b: KindView) -> bool {
    match (a, b) {
        (KindView::Boolean(_), KindView::Boolean(_)) => true,
        (KindView::Integer(_), KindView::Integer(_)) => true,
        (KindView::Float(_), KindView::Float(_)) => true,
        (KindView::Bytes(_), KindView::Bytes(_)) => true,
        (KindView::String(_), KindView::String(_)) => true,
        (KindView::Clone, KindView::Clone) => true,
        _ => false,
    }
}

/// Whether two choices are of the same sort, whatever their bounds.
pub fn is_same_sort(a: &ChoiceData, b: &ChoiceData) -> (r: bool)
    ensures
        r == same_sort(kind_view(*a), kind_view(*b)),
{
    match (a, b) {
        (ChoiceData::Boolean(_, _), ChoiceData::Boolean(_, _)) => true,
        (ChoiceData::Integer(_, _), ChoiceData::Integer(_, _)) => true,
        (ChoiceData::Float(_, _), ChoiceData::Float(_, _)) => true,
        (ChoiceData::Bytes(_, _), ChoiceData::Bytes(_, _)) => true,
        (ChoiceData::String(_, _), ChoiceData::String(_, _)) => true,
        (ChoiceData::Clone(_), ChoiceData::Clone(_)) => true,
        _ => false,
    }
}

fn same_bytes(a: &Vec<u8>, b: &Vec<u8>) -> (r: bool)
    ensures
        r == (a@ == b@),
{
    if a.len() != b.len() {
        return false;
    }
    let mut i: usize = 0;
    while i < a.len()
        invariant
            i <= a@.len(),
            a@.len() == b@.len(),
            forall|j: int| 0 <= j < i ==> a@[j] == b@[j],
        decreases a@.len() - i,
    {
        if a[i] != b[i] {
            return false;
        }
        i = i + 1;
    }
    assert(a@ =~= b@);
    true
}

fn same_codepoints(a: &Vec<u32>, b: &Vec<u32>) -> (r: bool)
    ensures
        r == (a@ == b@),
{
    if a.len() != b.len() {
        return false;
    }
    let mut i: usize = 0;
    while i < a.len()
        invariant
            i <= a@.len(),
            a@.len() == b@.len(),
            forall|j: int| 0 <= j < i ==> a@[j] == b@[j],
        decreases a@.len() - i,
    {
        if a[i] != b[i] {
            return false;
        }
        i = i + 1;
    }
    assert(a@ =~= b@);
    true
}

fn same_spans(a: &Vec<Span>, b: &Vec<Span>) -> (r: bool)
    ensures
        r == (a@ == b@),
{
    if a.len() != b.len() {
        return false;
    }
    let mut i: usize = 0;
    while i < a.len()
        invariant
            i <= a@.len(),
            a@.len() == b@.len(),
            forall|j: int| 0 <= j < i ==> a@[j] == b@[j],
        decreases a@.len() - i,
    {
        let x = a[i];
        let y = b[i];
        let same_parent = match (x.parent, y.parent) {
            (None, None) => true,
            (Some(p), Some(q)) => p == q,
            _ => false,
        };
        if x.start != y.start || x.end != y.end || x.label != y.label || x.depth != y.depth
            || !same_parent || x.discarded != y.discarded {
            return false;
        }
        i = i + 1;
    }
    assert(a@ =~= b@);
    true
}

fn same_kind(a: &ChoiceData, b: &ChoiceData) -> (r: bool)
    ensures
        r == (kind_view(*a) == kind_view(*b)),
{
    match (a, b) {
        (ChoiceData::Boolean(x, _), ChoiceData::Boolean(y, _)) => x.p.numerator == y.p.numerator,
        (ChoiceData::Integer(x, _), ChoiceData::Integer(y, _)) => {
            x.min_value == y.min_value && x.max_value == y.max_value && x.shrink_towards
                == y.shrink_towards
        },
        (ChoiceData::Float(x, _), ChoiceData::Float(y, _)) => {
            x.min_bits == y.min_bits && x.max_bits == y.max_bits && x.allow_nan == y.allow_nan
                && x.allow_infinity == y.allow_infinity && x.smallest_magnitude_bits
                == y.smallest_magnitude_bits && x.simplest.bits == y.simplest.bits
                && x.simplest.order == y.simplest.order && x.unit.bits == y.unit.bits
                && x.unit.order == y.unit.order
        },
        (ChoiceData::Bytes(x, _), ChoiceData::Bytes(y, _)) => x.min_size == y.min_size && x.max_size
            == y.max_size,
        (ChoiceData::String(x, _), ChoiceData::String(y, _)) => x.min_size == y.min_size
            && x.max_size == y.max_size && x.intervals.same(&y.intervals),
        (ChoiceData::Clone(_), ChoiceData::Clone(_)) => true,
        _ => false,
    }
}

/// Whether two choices are equal.
pub fn same_node(a: &ChoiceNode, b: &ChoiceNode) -> (r: bool)
    ensures
        r == (a@ == b@),
    decreases a,
{
    if a.was_forced != b.was_forced || !same_kind(&a.data, &b.data) {
        return false;
    }
    match (&a.data, &b.data) {
        (ChoiceData::Boolean(_, x), ChoiceData::Boolean(_, y)) => *x == *y,
        (ChoiceData::Integer(_, x), ChoiceData::Integer(_, y)) => *x == *y,
        (ChoiceData::Float(_, x), ChoiceData::Float(_, y)) => x.bits == y.bits && x.order
            == y.order,
        (ChoiceData::Bytes(_, x), ChoiceData::Bytes(_, y)) => same_bytes(x, y),
        (ChoiceData::String(_, x), ChoiceData::String(_, y)) => same_codepoints(x, y),
        (ChoiceData::Clone(s), ChoiceData::Clone(t)) => {
            proof {
                lemma_stream_view(*a);
                lemma_stream_view(*b);
            }
            let ghost va = nodes_view(s.nodes@);
            let ghost vb = nodes_view(t.nodes@);
            if s.nodes.len() != t.nodes.len() {
                assert(va.len() != vb.len());
                return false;
            }
            let mut i: usize = 0;
            while i < s.nodes.len()
                invariant
                    i <= s.nodes.len(),
                    s.nodes.len() == t.nodes.len(),
                    a.data == ChoiceData::Clone(*s),
                    b.data == ChoiceData::Clone(*t),
                    va == nodes_view(s.nodes@),
                    vb == nodes_view(t.nodes@),
                    a@.value == stream_value(**s),
                    b@.value == stream_value(**t),
                    forall|j: int| 0 <= j < i ==> va[j] == vb[j],
                decreases s.nodes.len() - i,
            {
                if !same_node(&s.nodes[i], &t.nodes[i]) {
                    assert(va[i as int] != vb[i as int]);
                    return false;
                }
                i = i + 1;
            }
            assert(va =~= vb);
            same_spans(&s.spans, &t.spans)
        },
        _ => false,
    }
}

/// Whether two realized streams are equal.
fn same_stream(s: &RealizedStream, t: &RealizedStream) -> (r: bool)
    ensures
        r == (stream_value(*s) == stream_value(*t)),
{
    let ghost va = nodes_view(s.nodes@);
    let ghost vb = nodes_view(t.nodes@);
    if s.nodes.len() != t.nodes.len() {
        assert(va.len() != vb.len());
        return false;
    }
    let mut i: usize = 0;
    while i < s.nodes.len()
        invariant
            i <= s.nodes.len(),
            s.nodes.len() == t.nodes.len(),
            va == nodes_view(s.nodes@),
            vb == nodes_view(t.nodes@),
            forall|j: int| 0 <= j < i ==> va[j] == vb[j],
        decreases s.nodes.len() - i,
    {
        if !same_node(&s.nodes[i], &t.nodes[i]) {
            assert(va[i as int] != vb[i as int]);
            return false;
        }
        i = i + 1;
    }
    assert(va =~= vb);
    same_spans(&s.spans, &t.spans)
}

impl ChoiceValue {
    /// Whether the two values are equal.
    pub fn same(&self, other: &Self) -> (r: bool)
        ensures
            r == (self@ == other@),
        decreases self,
    {
        match (self, other) {
            (ChoiceValue::Boolean(x), ChoiceValue::Boolean(y)) => *x == *y,
            (ChoiceValue::Integer(x), ChoiceValue::Integer(y)) => *x == *y,
            (ChoiceValue::Float(x), ChoiceValue::Float(y)) => x.bits == y.bits && x.order
                == y.order,
            (ChoiceValue::Bytes(x), ChoiceValue::Bytes(y)) => same_bytes(x, y),
            (ChoiceValue::String(x), ChoiceValue::String(y)) => same_codepoints(x, y),
            (
                ChoiceValue::Clone(CloneRecord::Values(s)),
                ChoiceValue::Clone(CloneRecord::Values(t)),
            ) => {
                let ghost va = self@->Values_0;
                let ghost vb = other@->Values_0;
                if s.len() != t.len() {
                    assert(va.len() != vb.len());
                    return false;
                }
                let mut i: usize = 0;
                while i < s.len()
                    invariant
                        i <= s.len(),
                        s.len() == t.len(),
                        *self == ChoiceValue::Clone(CloneRecord::Values(*s)),
                        *other == ChoiceValue::Clone(CloneRecord::Values(*t)),
                        va == self@->Values_0,
                        vb == other@->Values_0,
                        va.len() == vb.len() == s.len(),
                        forall|j: int| 0 <= j < i ==> va[j] == vb[j],
                    decreases s.len() - i,
                {
                    if !s[i].same(&t[i]) {
                        assert(va[i as int] != vb[i as int]);
                        return false;
                    }
                    i = i + 1;
                }
                assert(va =~= vb);
                true
            },
            (
                ChoiceValue::Clone(CloneRecord::Realized(s)),
                ChoiceValue::Clone(CloneRecord::Realized(t)),
            ) => same_stream(s, t),
            _ => false,
        }
    }
}

impl PartialEq for ChoiceValue {
    fn eq(&self, other: &Self) -> (r: bool) {
        self.same(other)
    }
}

impl vstd::std_specs::cmp::PartialEqSpecImpl for ChoiceValue {
    open spec fn obeys_eq_spec() -> bool {
        true
    }

    open spec fn eq_spec(&self, other: &Self) -> bool {
        self@ == other@
    }
}

/// How draws past the replayed choices are answered.
#[derive(Clone, Copy, Debug, PartialEq, Eq, Structural)]
pub enum ChoiceTemplateKind {
    /// With the simplest value of the kind.
    Simplest,
}

/// A rule that answers draws past the replayed choices.
#[derive(Clone, Copy, Debug, PartialEq, Eq, Structural)]
pub struct ChoiceTemplate {
    /// How.
    pub kind: ChoiceTemplateKind,
    /// How many more draws, or any number of them.
    pub count: Option<usize>,
}

impl ChoiceTemplate {
    /// A template that answers `count` draws with the simplest value. The
    /// count must be positive.
    pub fn simplest(count: Option<usize>) -> (r: Result<Self, InternalError>)
        ensures
            match r {
                Ok(t) => count != Some(0usize) && t == (ChoiceTemplate {
                    kind: ChoiceTemplateKind::Simplest,
                    count,
                }),
                Err(e) => count == Some(0usize) && e@ == "ChoiceTemplate count must be positive"@
                    + crate::errors::bug_notice(),
            },
    {
        match count {
            Some(0) => Err(InternalError::new("ChoiceTemplate count must be positive")),
            _ => Ok(ChoiceTemplate { kind: ChoiceTemplateKind::Simplest, count }),
        }
    }
}

} // verus!
