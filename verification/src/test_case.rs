//! One stream of a test case: it replays recorded choices, and draws fresh
//! ones past them.
use crate::bignum::BigInt;
use crate::choices::copy_nodes;
use crate::choices::copy_values;
use crate::choices::nodes_view;
use crate::choices::simplest_of;
use crate::choices::unit_of;
use crate::choices::value_fits;
use crate::choices::record_nodes;
use crate::choices::record_values;
use crate::choices::values_view;
use crate::choices::ChoiceNode;
use crate::choices::ChoiceTemplate;
use crate::choices::ChoiceValue;
use crate::choices::FloatValue;
use crate::choices::IntegerChoice;
use crate::choices::KindView;
use crate::choices::NodeView;
use crate::choices::RealizedStream;
use crate::choices::ValueView;
use crate::errors::EngineError;
use crate::errors::InterestingOrigin;
use crate::errors::InternalError;
use crate::errors::Status;
use crate::family::origin_view;
use crate::family::refusal;
use crate::family::FamilyCore;
use crate::rng::EngineRng;
use crate::sampling::Distributions;
use crate::float_weights::GenerationParameters;
use crate::sampling::Sampler;
use crate::spans::Span;
use crate::spans::MAX_DEPTH;
use crate::structure::all_ended;
use crate::structure::closed_at;
use crate::structure::frozen_at;
use crate::structure::lemma_ending_keeps_the_rest;
use crate::structure::opened;
use crate::structure::SpanStructure;
use crate::text::text_of;
use std::sync::Arc;
use vstd::prelude::*;

verus! {

/// Is told of each draw, and of the conclusion.
pub trait DataObserver {
    fn draw_boolean(&mut self, _value: bool, _was_forced: bool) {
    }

    fn draw_integer(&mut self, _value: &BigInt, _was_forced: bool) {
    }

    fn draw_float(&mut self, _value: FloatValue, _was_forced: bool) {
    }

    fn draw_bytes(&mut self, _value: &Vec<u8>, _was_forced: bool) {
    }

    fn draw_string(&mut self, _value: &str, _was_forced: bool) {
    }

    fn conclude_test(&mut self, _status: Status, _origin: Option<InterestingOrigin>) {
    }
}

/// An observer that takes no notice.
pub struct NoObserver;

impl DataObserver for NoObserver {

}

/// What an observer is told.
pub enum Notice {
    /// A value was drawn. Of a string the observer is told the text.
    Drawn(ValueView, bool),
    /// The test case concluded, with the origin of a failure.
    Concluded(Status, Option<Seq<char>>),
}

/// Random numbers, and what to make of them.
pub struct RandomSource<D: Distributions> {
    /// The generator.
    pub rng: EngineRng,
    /// What sampling draws on.
    pub sampler: Arc<Sampler<D>>,
}

/// One stream of a test case.
pub struct NativeTestCase<D: Distributions, O: DataObserver> {
    /// The values to replay.
    pub prefix: Vec<ChoiceValue>,
    /// The choices that the values to replay were recorded as.
    pub prefix_nodes: Option<Vec<ChoiceNode>>,
    /// Where fresh values come from.
    pub source: Option<RandomSource<D>>,
    /// The bound on the number of choices of this stream.
    pub max_size: usize,
    /// The choices made so far.
    pub nodes: Vec<ChoiceNode>,
    /// Whether the stream was frozen.
    pub frozen: bool,
    /// Whether the run is known not to be deterministic.
    pub is_nondeterministic: bool,
    /// The place of this stream among the clones: empty for the root.
    pub clone_id: Vec<usize>,
    /// How many clones were made of this stream.
    pub clone_counter: usize,
    /// The clones of this stream, each with the position of its choice.
    pub clone_children: Vec<(usize, NativeTestCase<D, O>)>,
    /// The spans.
    pub structure: SpanStructure,
    /// Is told of draws.
    pub observer: Option<O>,
    /// How draws past the replayed values are answered.
    pub trailing_template: Option<ChoiceTemplate>,
    /// What the observer was told.
    pub notices: Ghost<Seq<Notice>>,
}

/// Where the value of a choice comes from.
#[derive(Clone, Copy, Debug, PartialEq, Eq, Structural)]
pub enum ChoiceSource {
    /// From the replayed values.
    Prefix,
    /// From the template.
    Template,
    /// From the random source.
    Random,
}

/// What becomes of a request for a choice.
pub enum Turn {
    /// The test case has concluded.
    Refused(Status),
    /// The stream is full.
    Full,
    /// The budget of the test case is spent.
    Spent,
    /// The template has answered all it may.
    Drained,
    /// Nothing can answer.
    Stuck,
    /// The value comes from a source.
    Answered(ChoiceSource),
}

/// What a replayed value becomes: itself where it fits, else the simplest
/// value where it was the simplest of the kind it was recorded as, else the
/// unit.
pub open spec fn replayed(
    value: ValueView,
    recorded: Option<NodeView>,
    fits: bool,
    simplest: Option<ValueView>,
    unit: Option<ValueView>,
) -> Option<ValueView> {
    if fits {
        Some(value)
    } else {
        match recorded {
            Some(node) => match simplest_of(node.kind) {
                Some(s) => if value == s {
                    simplest
                } else {
                    unit
                },
                None => None,
            },
            None => unit,
        }
    }
}

impl<D: Distributions, O: DataObserver> NativeTestCase<D, O> {
    /// What becomes of a request for a choice.
    pub open spec fn turn(&self, family: FamilyCore) -> Turn {
        match family.verdict() {
            Some(status) => Turn::Refused(status),
            None => if self.nodes@.len() >= self.max_size {
                Turn::Full
            } else if family.total_draws >= family.budget {
                Turn::Spent
            } else if self.nodes@.len() < self.prefix@.len() {
                Turn::Answered(ChoiceSource::Prefix)
            } else {
                match self.trailing_template {
                    Some(template) => if template.count == Some(0usize) {
                        Turn::Drained
                    } else {
                        Turn::Answered(ChoiceSource::Template)
                    },
                    None => if self.source is Some {
                        Turn::Answered(ChoiceSource::Random)
                    } else {
                        Turn::Stuck
                    },
                }
            },
        }
    }

    /// The shared state after a request for a choice.
    pub open spec fn family_after(&self, family: FamilyCore) -> FamilyCore {
        match self.turn(family) {
            Turn::Refused(_) => family,
            Turn::Full => family.concluded(Status::EarlyStop, None),
            Turn::Spent | Turn::Drained => family.counted().concluded(Status::EarlyStop, None),
            Turn::Stuck | Turn::Answered(_) => family.counted(),
        }
    }

    /// The template after a request for a choice.
    pub open spec fn template_after(&self, family: FamilyCore) -> Option<ChoiceTemplate> {
        match (self.turn(family), self.trailing_template) {
            (Turn::Answered(ChoiceSource::Template), Some(t)) => Some(
                ChoiceTemplate {
                    count: match t.count {
                        Some(c) => Some((c - 1) as usize),
                        None => None,
                    },
                    ..t
                },
            ),
            _ => self.trailing_template,
        }
    }

    /// The value to replay at the next position.
    pub open spec fn next_value(&self) -> ValueView {
        self.prefix@[self.nodes@.len() as int]@
    }

    /// The choice that the value to replay was recorded as.
    pub open spec fn next_recorded(&self) -> Option<NodeView> {
        match self.prefix_nodes {
            Some(nodes) => if self.nodes@.len() < nodes@.len() {
                Some(nodes@[self.nodes@.len() as int]@)
            } else {
                None
            },
            None => None,
        }
    }

    /// The choices made so far.
    pub open spec fn choices(&self) -> Seq<NodeView> {
        nodes_view(self.nodes@)
    }

    /// What the observer has been told after one notice more.
    pub open spec fn told(&self, notice: Notice) -> Seq<Notice> {
        if self.observer is Some {
            self.notices@.push(notice)
        } else {
            self.notices@
        }
    }

    /// Whether an observer in a given state was told of a boolean.
    pub open spec fn heard_boolean(before: O, value: bool, forced: bool) -> bool {
        exists|m: &mut O| #[trigger]
            call_ensures(O::draw_boolean, (m, value, forced), ()) && *m == before
    }

    /// Whether an observer in a given state was told of an integer.
    pub open spec fn heard_integer(before: O, value: int, forced: bool) -> bool {
        exists|m: &mut O, v: BigInt| #[trigger]
            call_ensures(O::draw_integer, (m, &v, forced), ()) && *m == before && v@ == value
    }

    /// Whether an observer in a given state was told of a floating-point value.
    pub open spec fn heard_float(before: O, value: FloatValue, forced: bool) -> bool {
        exists|m: &mut O| #[trigger]
            call_ensures(O::draw_float, (m, value, forced), ()) && *m == before
    }

    /// Whether an observer in a given state was told of a byte string.
    pub open spec fn heard_bytes(before: O, value: Seq<u8>, forced: bool) -> bool {
        exists|m: &mut O, v: Vec<u8>| #[trigger]
            call_ensures(O::draw_bytes, (m, &v, forced), ()) && *m == before && v@ == value
    }

    /// Whether an observer in a given state was told of a string, as the text that it is.
    pub open spec fn heard_string(before: O, value: Seq<u32>, forced: bool) -> bool {
        exists|m: &mut O, v: &str| #[trigger]
            call_ensures(O::draw_string, (m, v, forced), ()) && *m == before && v@ == text_of(value)
    }

    /// Whether an observer in a given state was told of the conclusion.
    pub open spec fn heard_conclusion(
        before: O,
        status: Status,
        origin: Option<Seq<char>>,
    ) -> bool {
        exists|m: &mut O, v: Option<InterestingOrigin>| #[trigger]
            call_ensures(O::conclude_test, (m, status, v), ()) && *m == before && origin_view(v)
                == origin
    }

    /// Whether an observer in a given state was told of something, by the call that
    /// is for it.
    pub open spec fn heard(before: O, notice: Notice) -> bool {
        match notice {
            Notice::Drawn(ValueView::Boolean(v), forced) => Self::heard_boolean(before, v, forced),
            Notice::Drawn(ValueView::Integer(v), forced) => Self::heard_integer(before, v, forced),
            Notice::Drawn(ValueView::Float(v), forced) => Self::heard_float(before, v, forced),
            Notice::Drawn(ValueView::Bytes(v), forced) => Self::heard_bytes(before, v, forced),
            Notice::Drawn(ValueView::String(v), forced) => Self::heard_string(before, v, forced),
            Notice::Drawn(_, _) => false,
            Notice::Concluded(status, origin) => Self::heard_conclusion(before, status, origin),
        }
    }

    /// Whether the observer, where there is one, was told of something.
    pub open spec fn notified(&self, old: Self, notice: Notice) -> bool {
        &&& (self.observer is Some <==> old.observer is Some)
        &&& self.notices@ == old.told(notice)
        &&& old.observer matches Some(o) ==> Self::heard(o, notice)
    }

    /// Whether only the random source and the template may differ.
    pub open spec fn rests(&self, old: Self) -> bool {
        &&& *self == (NativeTestCase {
            source: self.source,
            trailing_template: self.trailing_template,
            ..old
        })
        &&& (self.source is Some <==> old.source is Some)
    }

    /// Whether `self` is `old` with a choice more, of which the observer was
    /// told.
    pub open spec fn recorded(&self, old: Self, node: NodeView, notice: Notice) -> bool {
        &&& *self == (NativeTestCase {
            source: self.source,
            trailing_template: self.trailing_template,
            observer: self.observer,
            notices: self.notices,
            nodes: self.nodes,
            ..old
        })
        &&& (self.source is Some <==> old.source is Some)
        &&& self.choices() == old.choices().push(node)
        &&& self.notified(old, notice)
    }

    /// The answer to a request for a choice, as far as it does not rest on
    /// chance: a value, or `None` for an error.
    pub open spec fn settled(
        &self,
        source: ChoiceSource,
        fits: bool,
        simplest: Option<ValueView>,
        unit: Option<ValueView>,
    ) -> Option<ValueView> {
        match source {
            ChoiceSource::Prefix => replayed(
                self.next_value(),
                self.next_recorded(),
                fits,
                simplest,
                unit,
            ),
            _ => simplest,
        }
    }

    /// Whether an error is the one that a request for a choice gives before
    /// any value is looked for.
    pub open spec fn turned_away(&self, family: FamilyCore, e: EngineError) -> bool {
        match self.turn(family) {
            Turn::Refused(status) => e == refusal(status),
            Turn::Full | Turn::Spent | Turn::Drained => e is Overrun,
            Turn::Stuck => e is Internal,
            Turn::Answered(_) => false,
        }
    }

    /// Whether `r` is the answer to a request for a choice of the kind.
    ///
    /// `fits` says whether the next value to replay may be drawn.
    pub open spec fn answers(
        &self,
        family: FamilyCore,
        r: Result<ValueView, EngineError>,
        fits: bool,
        kind: KindView,
    ) -> bool {
        match self.turn(family) {
            Turn::Answered(ChoiceSource::Random) => r matches Ok(v) && value_fits(kind, v),
            Turn::Answered(source) => match (r, self.settled(
                source,
                fits,
                simplest_of(kind),
                unit_of(kind),
            )) {
                (Ok(v), Some(w)) => v == w,
                (Err(e), None) => e is Internal,
                _ => false,
            },
            _ => r matches Err(e) && self.turned_away(family, e),
        }
    }

    /// Whether a test case drew a choice of the kind, or failed to.
    pub open spec fn drew(
        &self,
        old: Self,
        family: FamilyCore,
        kind: KindView,
        r: Result<ValueView, EngineError>,
    ) -> bool {
        &&& old.answers(family, r, value_fits(kind, old.next_value()), kind)
        &&& self.trailing_template == old.template_after(family)
        &&& match r {
            Ok(v) => self.recorded(
                old,
                NodeView { kind, value: v, was_forced: false },
                Notice::Drawn(v, false),
            ),
            Err(_) => self.rests(old),
        }
    }

    /// A stream, the root of a test case or a clone.
    pub(crate) fn new_stream(
        prefix: Vec<ChoiceValue>,
        prefix_nodes: Option<Vec<ChoiceNode>>,
        source: Option<RandomSource<D>>,
        trailing_template: Option<ChoiceTemplate>,
        max_size: usize,
        observer: Option<O>,
        is_nondeterministic: bool,
        clone_id: Vec<usize>,
    ) -> (r: Self)
        ensures
            r.prefix == prefix,
            r.prefix_nodes == prefix_nodes,
            r.source == source,
            r.max_size == max_size,
            r.nodes@.len() == 0,
            !r.frozen,
            r.is_nondeterministic == is_nondeterministic,
            r.clone_id == clone_id,
            r.clone_counter == 0,
            r.clone_children@.len() == 0,
            r.structure@.spans.len() == 0,
            r.structure@.stack.len() == 0,
            r.structure@.frames.len() == 0,
            r.structure@.tags == Set::<u64>::empty(),
            !r.structure@.has_discards,
            r.observer == observer,
            r.trailing_template == trailing_template,
            r.notices@.len() == 0,
    {
        NativeTestCase {
            prefix,
            prefix_nodes,
            source,
            max_size,
            nodes: Vec::new(),
            frozen: false,
            is_nondeterministic,
            clone_id,
            clone_counter: 0,
            clone_children: Vec::new(),
            structure: SpanStructure::new(),
            observer,
            trailing_template,
            notices: Ghost(Seq::empty()),
        }
    }

    /// A test case that replays `choices`, and answers draws past them by the
    /// template. It makes at most `max_size` choices, but never fewer than are
    /// to be replayed.
    pub fn for_choices_and_template(
        choices: &[ChoiceValue],
        prefix_nodes: Option<&[ChoiceNode]>,
        trailing: Option<ChoiceTemplate>,
        max_size: usize,
        observer: Option<O>,
        max_clone_depth: usize,
    ) -> (r: (Self, FamilyCore))
        ensures
            values_view(r.0.prefix@) == values_view(choices@),
            match (prefix_nodes, r.0.prefix_nodes) {
                (Some(given), Some(kept)) => nodes_view(kept@) == nodes_view(given@),
                (None, None) => true,
                _ => false,
            },
            r.0.source is None,
            r.0.max_size == if max_size < choices@.len() {
                choices@.len()
            } else {
                max_size as nat
            },
            r.0.trailing_template == trailing,
            r.0.observer == observer,
            r.0.is_fresh(),
            !r.0.is_nondeterministic,
            r.1.conclusion is None,
            r.1.total_draws == 0,
            r.1.budget == if trailing is Some {
                r.0.max_size
            } else {
                usize::MAX
            },
            r.1.fresh_ids@ == Set::<i64>::empty(),
            r.1.max_clone_depth == max_clone_depth,
            r.1.weights().len() == 0,
    {
        let size: usize = if max_size < choices.len() {
            choices.len()
        } else {
            max_size
        };
        let budget: usize = if trailing.is_some() {
            size
        } else {
            usize::MAX
        };
        let nodes: Option<Vec<ChoiceNode>> = match prefix_nodes {
            Some(nodes) => Some(copy_nodes(nodes)),
            None => None,
        };
        let stream = Self::new_stream(
            copy_values(choices),
            nodes,
            None,
            trailing,
            size,
            observer,
            false,
            Vec::new(),
        );
        (stream, FamilyCore::new(budget, max_clone_depth))
    }

    /// Whether nothing has happened to a root stream.
    pub open spec fn is_fresh(&self) -> bool {
        &&& self.nodes@.len() == 0
        &&& !self.frozen
        &&& self.clone_id@.len() == 0
        &&& self.clone_counter == 0
        &&& self.clone_children@.len() == 0
        &&& self.structure@.spans.len() == 0
        &&& self.structure@.stack.len() == 0
        &&& self.structure@.frames.len() == 0
        &&& self.notices@.len() == 0
    }

    /// A test case in which every draw has the simplest value.
    pub fn for_simplest(max_size: usize, observer: Option<O>, max_clone_depth: usize) -> (r: Result<
        (Self, FamilyCore),
        InternalError,
    >)
        ensures
            r matches Ok((tc, family)) && {
                &&& tc.prefix@.len() == 0
                &&& tc.source is None
                &&& tc.max_size == max_size
                &&& tc.trailing_template matches Some(t) && t.count is None
                &&& tc.is_fresh()
                &&& family.conclusion is None
                &&& family.total_draws == 0
                &&& family.budget == max_size
            },
    {
        match ChoiceTemplate::simplest(None) {
            Ok(template) => {
                let empty: Vec<ChoiceValue> = Vec::new();
                let r = Self::for_choices_and_template(
                    empty.as_slice(),
                    None,
                    Some(template),
                    max_size,
                    observer,
                    max_clone_depth,
                );
                assert(values_view(r.0.prefix@).len() == 0);
                Ok(r)
            },
            Err(e) => Err(e),
        }
    }

    /// A test case that replays `choices` and draws nothing past them.
    pub fn for_choices(
        choices: &[ChoiceValue],
        prefix_nodes: Option<&[ChoiceNode]>,
        observer: Option<O>,
        max_clone_depth: usize,
    ) -> (r: (Self, FamilyCore))
        ensures
            values_view(r.0.prefix@) == values_view(choices@),
            match (prefix_nodes, r.0.prefix_nodes) {
                (Some(given), Some(kept)) => nodes_view(kept@) == nodes_view(given@),
                (None, None) => true,
                _ => false,
            },
            r.0.source is None,
            r.0.max_size == choices@.len(),
            r.0.trailing_template is None,
            r.0.observer == observer,
            r.0.is_fresh(),
            r.1.conclusion is None,
            r.1.total_draws == 0,
            r.1.budget == usize::MAX,
            r.1.fresh_ids@ == Set::<i64>::empty(),
            r.1.max_clone_depth == max_clone_depth,
    {
        Self::for_choices_and_template(
            choices,
            prefix_nodes,
            None,
            choices.len(),
            observer,
            max_clone_depth,
        )
    }

    /// Lets draws past the replayed values be random, with the given weights.
    /// The budget of the test case becomes the bound on the choices of this
    /// stream.
    pub fn with_random_and_params(
        self,
        family: &mut FamilyCore,
        rng: EngineRng,
        sampler: Arc<Sampler<D>>,
        params: GenerationParameters,
    ) -> (r: Self)
        ensures
            r == (NativeTestCase { source: Some(RandomSource { rng, sampler }), ..self }),
            final(family).budget == self.max_size,
            final(family).weights() == if old(family).weights().len() == 0 {
                seq![params.numbers()]
            } else {
                old(family).weights()
            },
            *final(family) == (FamilyCore {
                budget: self.max_size,
                generation_parameters: final(family).generation_parameters,
                ..*old(family)
            }),
    {
        family.set_generation_parameters(params);
        family.set_budget(self.max_size);
        let mut stream = self;
        stream.source = Some(RandomSource { rng, sampler });
        stream
    }

    /// A test case that draws everything at random.
    pub fn new_random_with_params(
        rng: EngineRng,
        sampler: Arc<Sampler<D>>,
        params: GenerationParameters,
        max_size: usize,
        observer: Option<O>,
        max_clone_depth: usize,
    ) -> (r: (Self, FamilyCore))
        ensures
            r.0.prefix@.len() == 0,
            r.0.source == Some(RandomSource { rng, sampler }),
            r.0.max_size == max_size,
            r.0.trailing_template is None,
            r.0.is_fresh(),
            r.1.conclusion is None,
            r.1.total_draws == 0,
            r.1.budget == max_size,
            r.1.fresh_ids@ == Set::<i64>::empty(),
            r.1.weights() == seq![params.numbers()],
    {
        let empty: Vec<ChoiceValue> = Vec::new();
        Self::for_probe(
            empty.as_slice(),
            rng,
            sampler,
            params,
            max_size,
            observer,
            max_clone_depth,
        )
    }

    /// A test case that replays `prefix` and draws at random past it, up to
    /// `max_size` choices.
    pub fn for_probe(
        prefix: &[ChoiceValue],
        rng: EngineRng,
        sampler: Arc<Sampler<D>>,
        params: GenerationParameters,
        max_size: usize,
        observer: Option<O>,
        max_clone_depth: usize,
    ) -> (r: (Self, FamilyCore))
        ensures
            values_view(r.0.prefix@) == values_view(prefix@),
            r.0.prefix@.len() == prefix@.len(),
            r.0.prefix_nodes is None,
            r.0.source == Some(RandomSource { rng, sampler }),
            r.0.max_size == if max_size < prefix@.len() {
                prefix@.len()
            } else {
                max_size as nat
            },
            r.0.trailing_template is None,
            r.0.is_fresh(),
            r.1.conclusion is None,
            r.1.total_draws == 0,
            r.1.budget == r.0.max_size,
            r.1.fresh_ids@ == Set::<i64>::empty(),
            r.1.weights() == seq![params.numbers()],
    {
        let (stream, mut family) = Self::for_choices_and_template(
            prefix,
            None,
            None,
            max_size,
            observer,
            max_clone_depth,
        );
        assert(values_view(stream.prefix@).len() == stream.prefix@.len());
        assert(values_view(prefix@).len() == prefix@.len());
        let stream = stream.with_random_and_params(&mut family, rng, sampler, params);
        (stream, family)
    }

    /// Marks the run as not deterministic.
    pub fn set_nondeterministic(&mut self)
        ensures
            *final(self) == (NativeTestCase { is_nondeterministic: true, ..*old(self) }),
    {
        self.is_nondeterministic = true;
    }

    /// Counts a choice, unless the test case has concluded or is full.
    pub(crate) fn pre_choice(&self, family: &mut FamilyCore) -> (r: Result<(), EngineError>)
        ensures
            match old(family).verdict() {
                Some(status) => r == Err::<(), EngineError>(refusal(status)) && *final(family)
                    == *old(family),
                None => if self.nodes@.len() >= self.max_size {
                    r == Err::<(), EngineError>(EngineError::Overrun) && *final(family) == old(
                        family,
                    ).concluded(Status::EarlyStop, None)
                } else if old(family).total_draws >= old(family).budget {
                    r == Err::<(), EngineError>(EngineError::Overrun) && *final(family) == old(
                        family,
                    ).counted().concluded(Status::EarlyStop, None)
                } else {
                    r == Ok::<(), EngineError>(()) && *final(family) == old(family).counted()
                },
            },
    {
        if let Some(status) = family.status() {
            return Err(
                match status {
                    Status::Invalid => EngineError::InvalidTestCase,
                    _ => EngineError::Overrun,
                },
            );
        }
        if self.nodes.len() >= self.max_size || !family.try_take_draw() {
            family.conclude(Status::EarlyStop, None);
            return Err(EngineError::Overrun);
        }
        Ok(())
    }

    /// Decides where the value of the next choice comes from.
    pub(crate) fn resolve_choice(&mut self, family: &mut FamilyCore) -> (r: Result<ChoiceSource, EngineError>)
        ensures
            *final(family) == old(self).family_after(*old(family)),
            *final(self) == (NativeTestCase {
                trailing_template: old(self).template_after(*old(family)),
                ..*old(self)
            }),
            match r {
                Ok(source) => old(self).turn(*old(family)) == Turn::Answered(source),
                Err(e) => old(self).turned_away(*old(family), e),
            },
    {
        if let Err(e) = self.pre_choice(family) {
            return Err(e);
        }
        if self.nodes.len() < self.prefix.len() {
            return Ok(ChoiceSource::Prefix);
        }
        if let Some(template) = self.trailing_template {
            return match template.count {
                Some(0) => {
                    family.conclude(Status::EarlyStop, None);
                    Err(EngineError::Overrun)
                },
                Some(c) => {
                    self.trailing_template = Some(
                        ChoiceTemplate { kind: template.kind, count: Some(c - 1) },
                    );
                    Ok(ChoiceSource::Template)
                },
                None => Ok(ChoiceSource::Template),
            };
        }
        if self.source.is_none() {
            return Err(
                EngineError::internal("resolve_choice: no RNG available for random generation"),
            );
        }
        Ok(ChoiceSource::Random)
    }

    /// Whether the next value to replay was the simplest of the kind it was
    /// recorded as.
    pub(crate) fn stale_is_simplest(&self) -> (r: Result<bool, InternalError>)
        requires
            self.nodes@.len() < self.prefix@.len(),
        ensures
            match r {
                Ok(b) => match self.next_recorded() {
                    Some(node) => simplest_of(node.kind) is Some && b == (self.next_value()
                        == simplest_of(node.kind)->0),
                    None => !b,
                },
                Err(_) => self.next_recorded() matches Some(node) && simplest_of(node.kind) is None,
            },
    {
        let idx: usize = self.nodes.len();
        if let Some(nodes) = &self.prefix_nodes {
            if idx < nodes.len() {
                return match nodes[idx].data.simplest_value() {
                    Ok(v) => Ok(self.prefix[idx].same(&v)),
                    Err(e) => Err(e),
                };
            }
        }
        Ok(false)
    }

    /// Tells the observer of a boolean.
    pub(crate) fn notify_boolean(&mut self, v: bool, was_forced: bool)
        ensures
            *final(self) == (NativeTestCase {
                observer: final(self).observer,
                notices: final(self).notices,
                ..*old(self)
            }),
            final(self).notified(*old(self), Notice::Drawn(ValueView::Boolean(v), was_forced)),
            old(self).observer matches Some(o) ==> exists|m: &mut O| #[trigger]
                call_ensures(O::draw_boolean, (m, v, was_forced), ()) && *m == o && final(self).observer == Some(
                    *final(m),
                ),
    {
        if let Some(observer) = &mut self.observer {
            observer.draw_boolean(v, was_forced);
        }
        proof {
            if old(self).observer is Some {
                assert(Self::heard_boolean(old(self).observer->0, v, was_forced));
                self.notices@ = self.notices@.push(Notice::Drawn(ValueView::Boolean(v), was_forced));
            }
        }
    }

    /// Tells the observer of an integer.
    pub(crate) fn notify_integer(&mut self, v: &BigInt, was_forced: bool)
        ensures
            *final(self) == (NativeTestCase {
                observer: final(self).observer,
                notices: final(self).notices,
                ..*old(self)
            }),
            final(self).notified(*old(self), Notice::Drawn(ValueView::Integer(v@), was_forced)),
            old(self).observer matches Some(o) ==> exists|m: &mut O| #[trigger]
                call_ensures(O::draw_integer, (m, v, was_forced), ()) && *m == o && final(self).observer == Some(
                    *final(m),
                ),
    {
        if let Some(observer) = &mut self.observer {
            observer.draw_integer(v, was_forced);
        }
        proof {
            if old(self).observer is Some {
                assert(Self::heard_integer(old(self).observer->0, v@, was_forced));
                self.notices@ = self.notices@.push(Notice::Drawn(ValueView::Integer(v@), was_forced));
            }
        }
    }

    /// Tells the observer of a floating-point value.
    pub(crate) fn notify_float(&mut self, v: FloatValue, was_forced: bool)
        ensures
            *final(self) == (NativeTestCase {
                observer: final(self).observer,
                notices: final(self).notices,
                ..*old(self)
            }),
            final(self).notified(*old(self), Notice::Drawn(ValueView::Float(v), was_forced)),
            old(self).observer matches Some(o) ==> exists|m: &mut O| #[trigger]
                call_ensures(O::draw_float, (m, v, was_forced), ()) && *m == o && final(self).observer == Some(
                    *final(m),
                ),
    {
        if let Some(observer) = &mut self.observer {
            observer.draw_float(v, was_forced);
        }
        proof {
            if old(self).observer is Some {
                assert(Self::heard_float(old(self).observer->0, v, was_forced));
                self.notices@ = self.notices@.push(Notice::Drawn(ValueView::Float(v), was_forced));
            }
        }
    }

    /// Tells the observer of a byte string.
    pub(crate) fn notify_bytes(&mut self, v: &Vec<u8>, was_forced: bool)
        ensures
            *final(self) == (NativeTestCase {
                observer: final(self).observer,
                notices: final(self).notices,
                ..*old(self)
            }),
            final(self).notified(*old(self), Notice::Drawn(ValueView::Bytes(v@), was_forced)),
            old(self).observer matches Some(o) ==> exists|m: &mut O| #[trigger]
                call_ensures(O::draw_bytes, (m, v, was_forced), ()) && *m == o && final(self).observer == Some(
                    *final(m),
                ),
    {
        if let Some(observer) = &mut self.observer {
            observer.draw_bytes(v, was_forced);
        }
        proof {
            if old(self).observer is Some {
                assert(Self::heard_bytes(old(self).observer->0, v@, was_forced));
                self.notices@ = self.notices@.push(Notice::Drawn(ValueView::Bytes(v@), was_forced));
            }
        }
    }

    /// Tells the observer of the conclusion.
    pub(crate) fn notify_conclusion(&mut self, status: Status, origin: Option<InterestingOrigin>)
        ensures
            *final(self) == (NativeTestCase {
                observer: final(self).observer,
                notices: final(self).notices,
                ..*old(self)
            }),
            final(self).notified(*old(self), Notice::Concluded(status, origin_view(origin))),
            old(self).observer matches Some(o) ==> exists|m: &mut O| #[trigger]
                call_ensures(O::conclude_test, (m, status, origin), ()) && *m == o && final(self).observer == Some(
                    *final(m),
                ),
    {
        if let Some(observer) = &mut self.observer {
            observer.conclude_test(status, origin);
        }
        proof {
            if old(self).observer is Some {
                self.notices@ = self.notices@.push(Notice::Concluded(status, origin_view(origin)));
            }
        }
    }

    /// Tells the observer of a string.
    pub(crate) fn notify_string(&mut self, v: &str, Ghost(cps): Ghost<Seq<u32>>, was_forced: bool)
        requires
            v@ == text_of(cps),
        ensures
            *final(self) == (NativeTestCase {
                observer: final(self).observer,
                notices: final(self).notices,
                ..*old(self)
            }),
            final(self).notified(*old(self), Notice::Drawn(ValueView::String(cps), was_forced)),
            old(self).observer matches Some(o) ==> exists|m: &mut O| #[trigger]
                call_ensures(O::draw_string, (m, v, was_forced), ()) && *m == o && final(self).observer == Some(
                    *final(m),
                ),
    {
        if let Some(observer) = &mut self.observer {
            observer.draw_string(v, was_forced);
        }
        proof {
            if old(self).observer is Some {
                assert(Self::heard_string(old(self).observer->0, cps, was_forced));
                self.notices@ = self.notices@.push(Notice::Drawn(ValueView::String(cps), was_forced));
            }
        }
    }

    /// Records an integer.
    pub(crate) fn record_integer(&mut self, kind: IntegerChoice, v: &BigInt, was_forced: bool)
        ensures
            final(self).recorded(
                *old(self),
                NodeView {
                    kind: KindView::Integer(kind@),
                    value: ValueView::Integer(v@),
                    was_forced,
                },
                Notice::Drawn(ValueView::Integer(v@), was_forced),
            ),
            final(self).trailing_template == old(self).trailing_template,
            final(self).source == old(self).source,
    {
        self.notify_integer(v, was_forced);
        let node = ChoiceNode::integer(kind, v.clone(), was_forced);
        self.nodes.push(node);
        assert(self.choices() =~= old(self).choices().push(node@));
    }
}

impl<D: Distributions, O: DataObserver> NativeTestCase<D, O> {
    /// How many spans are open.
    pub fn span_depth(&self) -> (r: usize)
        ensures
            r == self.structure@.stack.len(),
    {
        self.structure.span_depth()
    }

    /// How a stream relates to the one before a span was opened: the span is open,
    /// and where it lies too deep the test case is invalid and the stream ends.
    pub open spec fn span_started(
        &self,
        old: Self,
        family: FamilyCore,
        new_family: FamilyCore,
        label: u64,
    ) -> bool {
        let started = opened(old.structure@, old.nodes@.len() as usize, label);
        if old.structure@.stack.len() < MAX_DEPTH {
            &&& *self == (NativeTestCase { structure: self.structure, ..old })
            &&& self.structure@ == started
            &&& new_family == family
        } else {
            &&& new_family == family.concluded(Status::Invalid, None)
            &&& self.froze(
                NativeTestCase { structure: self.structure, ..old },
                started,
                new_family,
            )
        }
    }

    /// Whether spans were opened one inside the other, as `labels` says, and the
    /// states in between are those listed.
    pub open spec fn nested(states: Seq<(Self, FamilyCore)>, labels: Seq<u64>) -> bool {
        &&& states.len() == labels.len() + 1
        &&& forall|k: int| 0 <= k < labels.len() ==> #[trigger] Self::nested_once(states, labels, k)
    }

    /// Whether one more span was opened.
    pub open spec fn nested_once(
        states: Seq<(Self, FamilyCore)>,
        labels: Seq<u64>,
        k: int,
    ) -> bool {
        states[k + 1].0.span_started(states[k].0, states[k].1, states[k + 1].1, labels[k])
    }

    /// Spans that are opened one inside the other in a stream without spans get
    /// their indices in order, and down to the greatest depth each lies directly in
    /// the one before. The test case has not concluded up to that depth, and is
    /// invalid as soon as a span is opened beyond it, however many follow.
    pub proof fn lemma_nested_openings(states: Seq<(Self, FamilyCore)>, labels: Seq<u64>)
        requires
            Self::nested(states, labels),
            labels.len() <= usize::MAX,
            states[0].0.structure@.spans.len() == 0,
            states[0].0.structure@.stack.len() == 0,
            states[0].1.verdict() is None,
        ensures
            states.last().0.structure@.spans.len() == labels.len(),
            states.last().1.verdict() == if labels.len() <= MAX_DEPTH {
                None
            } else {
                Some(Status::Invalid)
            },
            forall|j: int|
                0 <= j < labels.len() && j <= MAX_DEPTH ==> {
                    let span = #[trigger] states.last().0.structure@.spans[j];
                    &&& span.label == labels[j]
                    &&& span.depth == j
                    &&& span.parent == if j == 0 {
                        None
                    } else {
                        Some((j - 1) as usize)
                    }
                },
            labels.len() <= MAX_DEPTH ==> {
                let stack = states.last().0.structure@.stack;
                &&& stack.len() == labels.len()
                &&& forall|j: int| 0 <= j < stack.len() ==> #[trigger] stack[j] == j
            },
        decreases labels.len(),
    {
        let n = labels.len() as int;
        if n > 0 {
            let (front, rest) = (states.drop_last(), labels.drop_last());
            assert forall|k: int| 0 <= k < rest.len() implies #[trigger] Self::nested_once(
                front,
                rest,
                k,
            ) by {
                assert(Self::nested_once(states, labels, k));
            }
            Self::lemma_nested_openings(front, rest);
            assert(Self::nested_once(states, labels, n - 1));
            let (old, family) = front.last();
            let new = states.last().0;
            let at = old.nodes@.len() as usize;
            let started = opened(old.structure@, at, labels[n - 1]);
            lemma_ending_keeps_the_rest(started.spans, started.stack, at);
            assert forall|j: int| 0 <= j < n && j <= MAX_DEPTH implies {
                let span = #[trigger] new.structure@.spans[j];
                &&& span.label == labels[j]
                &&& span.depth == j
                &&& span.parent == if j == 0 {
                    None
                } else {
                    Some((j - 1) as usize)
                }
            } by {
                assert(all_ended(started.spans, started.stack, at)[j] == (Span {
                    end: all_ended(started.spans, started.stack, at)[j].end,
                    ..started.spans[j]
                }));
                if j < n - 1 {
                    assert(started.spans[j] == old.structure@.spans[j]);
                }
            }
        }
    }

    /// Opens a span at the current choice position. The result is its index.
    ///
    /// A test case whose spans nest too deeply is invalid.
    pub fn start_span(&mut self, family: &mut FamilyCore, label: u64) -> (r: usize)
        ensures
            r == old(self).structure@.spans.len(),
            final(self).span_started(*old(self), *old(family), *final(family), label),
    {
        let depth: usize = self.structure.span_depth();
        let idx: usize = self.structure.open(self.nodes.len(), label);
        if depth >= MAX_DEPTH as usize {
            family.conclude(Status::Invalid, None);
            let ghost before = *self;
            self.freeze(family);
            assert(self.froze(
                NativeTestCase { structure: self.structure, ..*old(self) },
                before.structure@,
                *family,
            ));
        }
        idx
    }

    /// Closes the innermost open span.
    pub fn stop_span(&mut self, discard: bool)
        ensures
            *final(self) == (NativeTestCase { structure: final(self).structure, ..*old(self) }),
            final(self).structure@ == closed_at(
                old(self).structure@,
                old(self).nodes@.len() as usize,
                discard,
            ),
    {
        self.structure.close(self.nodes.len(), discard);
    }

    /// Whether a stream is frozen that had the structure `before`, and `old`
    /// for the rest, in a test case that has concluded as `family` says.
    pub open spec fn froze(
        &self,
        old: Self,
        before: crate::structure::StructureView,
        family: FamilyCore,
    ) -> bool {
        if old.frozen {
            *self == old && self.structure@ == before
        } else {
            &&& *self == (NativeTestCase {
                structure: self.structure,
                observer: self.observer,
                notices: self.notices,
                frozen: true,
                ..old
            })
            &&& self.structure@ == frozen_at(before, old.nodes@.len() as usize)
            &&& family.conclusion matches Some((status, origin)) && self.notified(
                old,
                Notice::Concluded(status, origin_view(origin)),
            )
        }
    }

    /// Ends the stream: closes its open spans, and concludes the test case as
    /// valid unless it has concluded. A frozen stream stays as it is.
    pub fn freeze(&mut self, family: &mut FamilyCore)
        ensures
            old(self).frozen ==> *final(self) == *old(self) && *final(family) == *old(family),
            !old(self).frozen ==> *final(family) == old(family).concluded(Status::Valid, None),
            final(self).froze(
                NativeTestCase { structure: final(self).structure, ..*old(self) },
                old(self).structure@,
                *final(family),
            ),
    {
        if self.frozen {
            return;
        }
        self.frozen = true;
        self.structure.freeze(self.nodes.len());
        family.conclude(Status::Valid, None);
        if let Some((status, origin)) = family.conclusion() {
            self.notify_conclusion(status, origin);
        }
    }

    /// Concludes the test case, unless it has concluded.
    pub fn conclude(
        &mut self,
        family: &mut FamilyCore,
        status: Status,
        origin: Option<InterestingOrigin>,
    )
        ensures
            *final(self) == *old(self),
            *final(family) == old(family).concluded(status, origin),
    {
        family.conclude(status, origin);
    }
}

/// The first of the clones that belongs to the choice at `i`, or minus one.
pub open spec fn clone_at<D: Distributions, O: DataObserver>(
    children: Seq<(usize, NativeTestCase<D, O>)>,
    i: int,
) -> int
    decreases children.len(),
{
    if children.len() == 0 {
        -1
    } else {
        let before = clone_at(children.drop_last(), i);
        if before >= 0 {
            before
        } else if children.last().0 == i {
            children.len() - 1
        } else {
            -1
        }
    }
}

/// The spans of a stream once it is frozen.
pub open spec fn final_spans<D: Distributions, O: DataObserver>(
    tc: NativeTestCase<D, O>,
) -> Seq<Span> {
    if tc.frozen {
        tc.structure@.spans
    } else {
        frozen_at(tc.structure@, tc.nodes@.len() as usize).spans
    }
}

/// The choices of a stream and of its clones: the choice that stands for a
/// clone holds the record of the clone.
pub open spec fn whole_choices<D: Distributions, O: DataObserver>(
    tc: NativeTestCase<D, O>,
) -> Seq<NodeView>
    decreases tc,
{
    Seq::new(
        tc.nodes@.len(),
        |i: int|
            {
                let k = clone_at(tc.clone_children@, i);
                if 0 <= k < tc.clone_children@.len() {
                    NodeView {
                        kind: KindView::Clone,
                        value: ValueView::Stream(
                            whole_choices(tc.clone_children@[k].1),
                            final_spans(tc.clone_children@[k].1),
                        ),
                        was_forced: tc.nodes@[i].was_forced,
                    }
                } else {
                    tc.nodes@[i]@
                }
            },
    )
}

impl<D: Distributions, O: DataObserver> NativeTestCase<D, O> {
    /// Whether `child` is a clone of this stream that replays what is recorded
    /// for it at the next position.
    pub open spec fn is_clone(&self, child: Self) -> bool {
        let recorded = if self.nodes@.len() < self.prefix@.len() {
            self.next_value()
        } else {
            ValueView::Values(Seq::empty())
        };
        &&& values_view(child.prefix@) == record_values(recorded)
        &&& match (child.prefix_nodes, record_nodes(recorded)) {
            (Some(nodes), Some(known)) => nodes_view(nodes@) == known,
            (None, None) => true,
            _ => false,
        }
        &&& match (child.source, self.source) {
            (Some(own), Some(source)) => own.sampler == source.sampler,
            (None, None) => true,
            _ => false,
        }
        &&& child.trailing_template == match self.trailing_template {
            Some(t) => Some(ChoiceTemplate { count: None, ..t }),
            None => None,
        }
        &&& child.max_size == if self.source is Some || self.trailing_template is Some {
            usize::MAX as nat
        } else {
            record_values(recorded).len()
        }
        &&& child.observer is None
        &&& child.is_nondeterministic == self.is_nondeterministic
        &&& child.clone_id@ == self.clone_id@.push(self.clone_counter)
        &&& child.nodes@.len() == 0
        &&& !child.frozen
        &&& child.clone_counter == 0
        &&& child.clone_children@.len() == 0
        &&& child.structure@.spans.len() == 0
        &&& child.structure@.stack.len() == 0
    }

    /// Makes a clone of this stream, which takes the place of one choice and
    /// is drawn from independently. The result is its place among the clones.
    ///
    /// A test case whose clones nest too deeply is invalid.
    pub fn clone_stream(&mut self, family: &mut FamilyCore) -> (r: Result<usize, EngineError>)
        ensures
            if !old(self).has_room(*old(family)) {
                &&& r matches Err(e) && old(self).turned_away(*old(family), e)
                &&& *final(family) == old(self).family_after(*old(family))
                &&& *final(self) == *old(self)
            } else if old(self).clone_id@.len() >= old(family).max_clone_depth {
                &&& r matches Err(e) && e is InvalidTestCase
                &&& *final(family) == old(family).counted().concluded(Status::Invalid, None)
                &&& final(self).froze(
                    NativeTestCase { structure: final(self).structure, ..*old(self) },
                    old(self).structure@,
                    *final(family),
                )
            } else {
                &&& r matches Ok(k) && k == old(self).clone_children@.len()
                &&& *final(family) == old(family).counted()
                &&& *final(self) == (NativeTestCase {
                    nodes: final(self).nodes,
                    source: final(self).source,
                    clone_counter: final(self).clone_counter,
                    clone_children: final(self).clone_children,
                    ..*old(self)
                })
                &&& match (final(self).source, old(self).source) {
                    (Some(after), Some(before)) => after.sampler == before.sampler
                        && after.rng.handed() == before.rng.handed().push(
                        after.rng.handed().last(),
                    ),
                    (None, None) => true,
                    _ => false,
                }
                &&& final(self).choices() == old(self).choices().push(
                    NodeView {
                        kind: KindView::Clone,
                        value: ValueView::Stream(Seq::empty(), Seq::empty()),
                        was_forced: false,
                    },
                )
                &&& final(self).clone_counter == old(self).clone_counter.saturating_add(1)
                &&& final(self).clone_children@ == old(self).clone_children@.push(
                    final(self).clone_children@.last(),
                )
                &&& final(self).clone_children@.last().0 == old(self).nodes@.len()
                &&& old(self).is_clone(final(self).clone_children@.last().1)
            },
    {
        if let Err(e) = self.pre_choice(family) {
            return Err(e);
        }
        if self.clone_id.len() >= family.max_clone_depth {
            family.conclude(Status::Invalid, None);
            self.freeze(family);
            return Err(EngineError::InvalidTestCase);
        }
        let idx: usize = self.nodes.len();
        let mut child_prefix: Vec<ChoiceValue> = Vec::new();
        let mut child_nodes: Option<Vec<ChoiceNode>> = None;
        if idx < self.prefix.len() {
            if let ChoiceValue::Clone(record) = &self.prefix[idx] {
                child_prefix = record.owned_values();
                child_nodes = record.realized_nodes();
            }
        }
        let child_source: Option<RandomSource<D>> = match &mut self.source {
            Some(source) => Some(
                RandomSource { rng: source.rng.spawn(), sampler: Arc::clone(&source.sampler) },
            ),
            None => None,
        };
        let child_template: Option<ChoiceTemplate> = match self.trailing_template {
            Some(t) => Some(ChoiceTemplate { kind: t.kind, count: None }),
            None => None,
        };
        let child_size: usize = if child_source.is_some() || child_template.is_some() {
            usize::MAX
        } else {
            child_prefix.len()
        };
        proof {
            assert(values_view(child_prefix@).len() == child_prefix@.len());
            assert(values_view(Seq::<ChoiceValue>::empty()) =~= Seq::<ValueView>::empty());
        }
        let mut child_id: Vec<usize> = self.clone_id.clone();
        assert(child_id@ =~= self.clone_id@);
        child_id.push(self.clone_counter);
        self.clone_counter = self.clone_counter.saturating_add(1);
        let child = Self::new_stream(
            child_prefix,
            child_nodes,
            child_source,
            child_template,
            child_size,
            None,
            self.is_nondeterministic,
            child_id,
        );
        let ghost before = self.choices();
        let node = ChoiceNode::clone_stream(Arc::new(RealizedStream::empty()), false);
        self.nodes.push(node);
        assert(self.choices() =~= before.push(node@));
        let place: usize = self.clone_children.len();
        self.clone_children.push((idx, child));
        Ok(place)
    }
}

proof fn lemma_clone_at<D: Distributions, O: DataObserver>(
    children: Seq<(usize, NativeTestCase<D, O>)>,
    k: int,
    i: int,
)
    requires
        0 <= k <= children.len(),
    ensures
        -1 <= clone_at(children, i) < children.len(),
        clone_at(children, i) >= 0 ==> children[clone_at(children, i)].0 == i,
        0 <= clone_at(children, i) < k ==> clone_at(children.take(k), i) == clone_at(children, i),
        !(0 <= clone_at(children, i) < k) ==> clone_at(children.take(k), i) == -1,
        k < children.len() && children[k].0 == i ==> 0 <= clone_at(children, i) <= k,
    decreases children.len(),
{
    if children.len() > 0 {
        let front = children.drop_last();
        if k == children.len() {
            assert(children.take(k) =~= children);
            lemma_clone_at(front, k - 1, i);
        } else {
            assert(children.take(k) =~= front.take(k));
            lemma_clone_at(front, k, i);
            if k < front.len() {
                assert(front[k] == children[k]);
            }
        }
    } else {
        assert(children.take(k) =~= children);
    }
}

impl<D: Distributions, O: DataObserver> NativeTestCase<D, O> {
    /// The choices of a stream while its clones are taken back, from the last
    /// to the first: those from place `k` on are done.
    spec fn partly_whole(&self, k: int) -> Seq<NodeView> {
        Seq::new(
            self.nodes@.len(),
            |i: int|
                {
                    let c = clone_last(self.clone_children@, k, i);
                    if 0 <= c < self.clone_children@.len() {
                        NodeView {
                            kind: KindView::Clone,
                            value: ValueView::Stream(
                                whole_choices(self.clone_children@[c].1),
                                final_spans(self.clone_children@[c].1),
                            ),
                            was_forced: self.nodes@[i].was_forced,
                        }
                    } else {
                        self.nodes@[i]@
                    }
                },
        )
    }
}

/// The first of the clones from place `k` on that belongs to the choice at `i`,
/// or minus one.
spec fn clone_last<D: Distributions, O: DataObserver>(
    children: Seq<(usize, NativeTestCase<D, O>)>,
    k: int,
    i: int,
) -> int
    decreases children.len() - k,
{
    if k < 0 || k >= children.len() {
        -1
    } else if children[k].0 == i {
        k
    } else {
        clone_last(children, k + 1, i)
    }
}

proof fn lemma_clone_last<D: Distributions, O: DataObserver>(
    children: Seq<(usize, NativeTestCase<D, O>)>,
    k: int,
    i: int,
)
    requires
        0 <= k <= children.len(),
        clone_at(children, i) == -1 || clone_at(children, i) >= k,
    ensures
        clone_last(children, k, i) == clone_at(children, i),
    decreases children.len() - k,
{
    if k < children.len() {
        lemma_clone_at(children, k, i);
        if children[k].0 != i {
            lemma_clone_at(children, k + 1, i);
            lemma_clone_last(children, k + 1, i);
        }
    } else {
        lemma_clone_at(children, k, i);
    }
}

impl<D: Distributions, O: DataObserver> NativeTestCase<D, O> {
    /// Takes the clones back: the choice that stands for a clone becomes the
    /// record of the clone, and so on for its own clones. Nothing happens
    /// while the test case runs, since the clones can still grow.
    pub fn reassemble(&mut self, family: &mut FamilyCore)
        ensures
            *final(family) == *old(family),
            old(family).verdict() is None ==> *final(self) == *old(self),
            old(family).verdict() is Some ==> {
                &&& *final(self) == (NativeTestCase {
                    nodes: final(self).nodes,
                    clone_children: final(self).clone_children,
                    ..*old(self)
                })
                &&& final(self).clone_children@.len() == 0
                &&& final(self).choices() == whole_choices(*old(self))
            },
        decreases old(self).clone_children,
    {
        if family.status().is_none() {
            return;
        }
        let ghost start = *self;
        let ghost all = self.clone_children@;
        let mut children: Vec<(usize, NativeTestCase<D, O>)> = Vec::new();
        std::mem::swap(&mut children, &mut self.clone_children);
        assert(self.choices() =~= start.partly_whole(all.len() as int));
        while children.len() > 0
            invariant
                start == *old(self),
                all == start.clone_children@,
                children@.len() <= all.len(),
                children@ == all.take(children@.len() as int),
                family.verdict() is Some,
                *family == *old(family),
                self.clone_children@.len() == 0,
                *self == (NativeTestCase {
                    nodes: self.nodes,
                    clone_children: self.clone_children,
                    ..start
                }),
                self.nodes@.len() == start.nodes@.len(),
                self.choices() == start.partly_whole(children@.len() as int),
            decreases children@.len(),
        {
            let ghost k = children@.len() - 1;
            let (idx, mut child) = children.pop().unwrap();
            let ghost fresh = child;
            proof {
                assert(all[k] == (idx, fresh));
                assert(children@ =~= all.take(k));
                assert(decreases_to!(old(self).clone_children => old(
                    self,
                ).clone_children@[k].1.clone_children));
            }
            child.freeze(family);
            let ghost cold = child;
            assert(cold.clone_children == fresh.clone_children);
            child.reassemble(family);
            assert(child.choices() == whole_choices(cold));
            assert(whole_choices(cold) =~= whole_choices(fresh));
            let stream = RealizedStream {
                nodes: child.nodes,
                spans: child.structure.spans.into_vec(),
            };
            let ghost record = stream;
            let ghost before = self.choices();
            if idx < self.nodes.len() {
                let was_forced: bool = self.nodes[idx].was_forced;
                assert(before[idx as int] == self.nodes@[idx as int]@);
                let node = ChoiceNode::clone_stream(Arc::new(stream), was_forced);
                self.nodes.set(idx, node);
                assert(self.choices() =~= before.update(idx as int, node@));
            }
            proof {
                assert(self.choices() =~= start.partly_whole(k));
            }
        }
        proof {
            assert forall|i: int| 0 <= i < start.nodes@.len() implies start.partly_whole(0)[i]
                == whole_choices(start)[i] by {
                lemma_clone_at(all, 0, i);
                lemma_clone_last(all, 0, i);
            }
            assert(start.partly_whole(0) =~= whole_choices(start));
        }
    }
}

} // verus!
