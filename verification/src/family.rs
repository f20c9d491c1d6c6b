//! What all streams of one test case share.
use crate::errors::EngineError;
use crate::errors::InterestingOrigin;
use crate::errors::Status;
use crate::once::WeightsCell;
use crate::float_weights::GenerationParameters;
use crate::variables::FreshIds;
use vstd::prelude::*;

verus! {

/// The number of steps of a stateful test case, unless it is set.
pub const DEFAULT_STEP_COUNT: i64 = 50;

/// The state shared by every stream of one test case, the root and the streams
/// cloned from it.
///
/// A test case concludes once: the first conclusion stands, and every draw
/// after it fails. The draw budget is shared too.
pub struct FamilyCore {
    /// The verdict, with the origin of a failure.
    pub conclusion: Option<(Status, Option<InterestingOrigin>)>,
    /// The number of draws of all streams.
    pub total_draws: usize,
    /// The bound on the number of draws.
    pub budget: usize,
    /// Observations to be maximised, by label. The values are the bits of
    /// binary64 numbers.
    pub target_observations: Vec<(String, u64)>,
    /// Events in the order in which they were recorded. The values are the
    /// bits of binary64 numbers.
    pub events: Vec<(String, Option<u64>)>,
    /// The number of steps of a stateful test case.
    pub stateful_step_count: i64,
    /// Whether a state machine with concurrent rules was asked for.
    pub concurrent_machine: bool,
    /// Whether asking for one must fail.
    pub reject_concurrent_machine: bool,
    /// The identifiers handed out so far.
    pub fresh_ids: FreshIds,
    /// How deep clones of clones may nest.
    pub max_clone_depth: usize,
    /// The numerators of the weights that values are sampled with, once they are
    /// set.
    pub generation_parameters: WeightsCell,
}

/// The error of a draw on a test case with the given verdict.
pub open spec fn refusal(status: Status) -> EngineError {
    match status {
        Status::Invalid => EngineError::InvalidTestCase,
        _ => EngineError::Overrun,
    }
}

impl FamilyCore {
    /// The verdict.
    pub open spec fn verdict(&self) -> Option<Status> {
        match self.conclusion {
            Some((status, _)) => Some(status),
            None => None,
        }
    }

    /// The state after a conclusion: the first one stands.
    pub open spec fn concluded(
        self,
        status: Status,
        origin: Option<InterestingOrigin>,
    ) -> FamilyCore {
        if self.conclusion is Some {
            self
        } else {
            FamilyCore { conclusion: Some((status, origin)), ..self }
        }
    }

    /// The state after a draw was counted.
    pub open spec fn counted(self) -> FamilyCore {
        FamilyCore { total_draws: self.total_draws.wrapping_add(1), ..self }
    }

    /// The numerators of the weights, where they are set.
    pub open spec fn weights(&self) -> Seq<Seq<u64>> {
        self.generation_parameters@
    }

    /// A test case that has not concluded, with the given bounds.
    pub fn new(budget: usize, max_clone_depth: usize) -> (r: Self)
        ensures
            r.conclusion is None,
            r.total_draws == 0,
            r.budget == budget,
            r.target_observations@.len() == 0,
            r.events@.len() == 0,
            r.stateful_step_count == DEFAULT_STEP_COUNT,
            !r.concurrent_machine,
            !r.reject_concurrent_machine,
            r.fresh_ids@ == Set::<i64>::empty(),
            r.max_clone_depth == max_clone_depth,
            r.weights() == Seq::<Seq<u64>>::empty(),
    {
        FamilyCore {
            conclusion: None,
            total_draws: 0,
            budget,
            target_observations: Vec::new(),
            events: Vec::new(),
            stateful_step_count: DEFAULT_STEP_COUNT,
            concurrent_machine: false,
            reject_concurrent_machine: false,
            fresh_ids: FreshIds::default(),
            max_clone_depth,
            generation_parameters: WeightsCell::new(),
        }
    }

    /// Records that a state machine with concurrent rules was asked for.
    pub fn set_concurrent_machine(&mut self)
        ensures
            *final(self) == (FamilyCore { concurrent_machine: true, ..*old(self) }),
    {
        self.concurrent_machine = true;
    }

    /// Says whether asking for a state machine with concurrent rules must fail.
    pub fn set_reject_concurrent_machine(&mut self, reject: bool)
        ensures
            *final(self) == (FamilyCore { reject_concurrent_machine: reject, ..*old(self) }),
    {
        self.reject_concurrent_machine = reject;
    }

    /// Sets the weights. Once set, they stay.
    pub fn set_generation_parameters(&mut self, params: GenerationParameters)
        ensures
            final(self).weights() == if old(self).weights().len() == 0 {
                seq![params.numbers()]
            } else {
                old(self).weights()
            },
            *final(self) == (FamilyCore {
                generation_parameters: final(self).generation_parameters,
                ..*old(self)
            }),
    {
        self.generation_parameters.set(params.to_numbers());
    }

    /// Whether values are sampled with the weights `params`: those that are set,
    /// or `default` where none are.
    pub open spec fn samples_with(
        &self,
        default: GenerationParameters,
        params: GenerationParameters,
    ) -> bool {
        if self.weights().len() == 0 {
            params == default
        } else {
            params.numbers() == self.weights()[0]
        }
    }

    /// The weights, or `default` where none are set.
    pub fn generation_parameters(&self, default: GenerationParameters) -> (r:
        GenerationParameters)
        ensures
            self.samples_with(default, r),
    {
        match self.generation_parameters.get() {
            Some(numbers) => GenerationParameters::from_numbers(numbers),
            None => default,
        }
    }

    /// Sets the number of steps of a stateful test case.
    pub fn set_stateful_step_count(&mut self, count: i64)
        ensures
            *final(self) == (FamilyCore { stateful_step_count: count, ..*old(self) }),
    {
        self.stateful_step_count = count;
    }

    /// The verdict, or `None` while the test case runs.
    pub fn status(&self) -> (r: Option<Status>)
        ensures
            r == self.verdict(),
    {
        match &self.conclusion {
            Some((status, _)) => Some(*status),
            None => None,
        }
    }

    /// Concludes the test case, unless it has concluded.
    pub fn conclude(&mut self, status: Status, origin: Option<InterestingOrigin>)
        ensures
            *final(self) == old(self).concluded(status, origin),
    {
        if self.conclusion.is_none() {
            self.conclusion = Some((status, origin));
        }
    }

    /// The verdict with the origin of a failure.
    pub fn conclusion(&self) -> (r: Option<(Status, Option<InterestingOrigin>)>)
        ensures
            match (r, self.conclusion) {
                (Some((status, origin)), Some((own_status, own_origin))) => status == own_status
                    && origin_view(origin) == origin_view(own_origin),
                (None, None) => true,
                _ => false,
            },
    {
        match &self.conclusion {
            Some((status, Some(origin))) => Some((*status, Some(origin.clone()))),
            Some((status, None)) => Some((*status, None)),
            None => None,
        }
    }

    /// Counts a draw. The answer is whether the budget allowed it.
    pub fn try_take_draw(&mut self) -> (r: bool)
        ensures
            r == (old(self).total_draws < old(self).budget),
            *final(self) == old(self).counted(),
    {
        let before: usize = self.total_draws;
        self.total_draws = before.wrapping_add(1);
        before < self.budget
    }

    /// Sets the bound on the number of draws.
    pub fn set_budget(&mut self, budget: usize)
        ensures
            *final(self) == (FamilyCore { budget, ..*old(self) }),
    {
        self.budget = budget;
    }
}

/// The view of the origin of a failure.
pub open spec fn origin_view(origin: Option<InterestingOrigin>) -> Option<Seq<char>> {
    match origin {
        Some(o) => Some(o@),
        None => None,
    }
}

/// A conclusion stands: whatever concludes after it changes nothing.
pub proof fn lemma_first_conclusion_stands(
    family: FamilyCore,
    first: Status,
    first_origin: Option<InterestingOrigin>,
    second: Status,
    second_origin: Option<InterestingOrigin>,
)
    ensures
        family.concluded(first, first_origin).concluded(second, second_origin)
            == family.concluded(first, first_origin),
        family.concluded(first, first_origin).verdict() is Some,
        family.conclusion is None ==> family.concluded(first, first_origin).verdict() == Some(
            first,
        ),
{
}

} // verus!
