//! What a run has spent.
use vstd::prelude::*;
use crate::types::{Figure, Real, Stats};

verus! {

/// Everything one generative client spent.
#[derive(Debug, Clone, Copy)]
pub struct LlmUsage {
    pub requests: usize,
    pub prompt_tokens: usize,
    pub completion_tokens: usize,
    pub reasoning_tokens: usize,
    /// `None` when the endpoint never reported a price. Absent is not zero.
    pub cost_usd: Option<Real>,
}

/// What a run has spent so far, by the client that spent it: one judges, one
/// writes, one plans.
#[derive(Debug, Clone, Copy)]
pub struct UsageSnapshot {
    pub jev_requests: usize,
    pub jev_input_tokens: usize,
    pub jev_cost_usd: Real,
    pub llm: LlmUsage,
    pub planner: LlmUsage,
}

impl LlmUsage {
    /// Nothing spent.
    pub open spec fn none() -> LlmUsage {
        LlmUsage {
            requests: 0,
            prompt_tokens: 0,
            completion_tokens: 0,
            reasoning_tokens: 0,
            cost_usd: None,
        }
    }
}

impl Default for LlmUsage {
    fn default() -> (r: Self)
        ensures
            r == LlmUsage::none(),
    {
        LlmUsage {
            requests: 0,
            prompt_tokens: 0,
            completion_tokens: 0,
            reasoning_tokens: 0,
            cost_usd: None,
        }
    }
}

impl Default for UsageSnapshot {
    /// Nothing spent.
    fn default() -> (r: Self)
        ensures
            r == (UsageSnapshot {
                jev_requests: 0,
                jev_input_tokens: 0,
                jev_cost_usd: Real { bits: 0 },
                llm: LlmUsage::none(),
                planner: LlmUsage::none(),
            }),
    {
        UsageSnapshot {
            jev_requests: 0,
            jev_input_tokens: 0,
            jev_cost_usd: Real { bits: 0 },
            llm: LlmUsage::default(),
            planner: LlmUsage::default(),
        }
    }
}

/// The number behind an optional figure.
pub open spec fn real_of(f: Option<Figure>) -> Option<Real> {
    match f {
        Some(x) => Some(Real { bits: x.bits }),
        None => None,
    }
}

fn bare(f: &Option<Figure>) -> (r: Option<Real>)
    ensures
        r == real_of(*f),
{
    match f {
        Some(x) => Some(Real { bits: x.bits }),
        None => None,
    }
}

impl UsageSnapshot {
    /// What a finished run's statistics say was spent.
    pub open spec fn of_stats(st: Stats) -> UsageSnapshot {
        UsageSnapshot {
            jev_requests: st.jev_requests,
            jev_input_tokens: st.jev_input_tokens,
            jev_cost_usd: Real { bits: st.jev_cost_usd.bits },
            llm: LlmUsage {
                requests: st.llm_requests,
                prompt_tokens: st.llm_prompt_tokens,
                completion_tokens: st.llm_completion_tokens,
                reasoning_tokens: st.llm_reasoning_tokens,
                cost_usd: real_of(st.llm_cost_usd),
            },
            planner: LlmUsage {
                requests: st.planner_requests,
                prompt_tokens: st.planner_prompt_tokens,
                completion_tokens: st.planner_completion_tokens,
                reasoning_tokens: st.planner_reasoning_tokens,
                cost_usd: real_of(st.planner_cost_usd),
            },
        }
    }

    /// The same numbers as a finished run reports, so that the last usage event of
    /// a run cannot disagree with its result.
    pub fn from_stats(st: &Stats) -> (r: Self)
        ensures
            r == UsageSnapshot::of_stats(*st),
    {
        UsageSnapshot {
            jev_requests: st.jev_requests,
            jev_input_tokens: st.jev_input_tokens,
            jev_cost_usd: Real { bits: st.jev_cost_usd.bits },
            llm: LlmUsage {
                requests: st.llm_requests,
                prompt_tokens: st.llm_prompt_tokens,
                completion_tokens: st.llm_completion_tokens,
                reasoning_tokens: st.llm_reasoning_tokens,
                cost_usd: bare(&st.llm_cost_usd),
            },
            planner: LlmUsage {
                requests: st.planner_requests,
                prompt_tokens: st.planner_prompt_tokens,
                completion_tokens: st.planner_completion_tokens,
                reasoning_tokens: st.planner_reasoning_tokens,
                cost_usd: bare(&st.planner_cost_usd),
            },
        }
    }
}

/// What a run spent is told by who spent it: the judge's counts are the judge's, the writer's
/// the writer's and the planner's the planner's, and a price that nobody reported is absent.
pub proof fn law_spending_stays_with_its_spender(st: Stats)
    ensures
        ({
            let u = UsageSnapshot::of_stats(st);
            &&& u.jev_requests == st.jev_requests
            &&& u.jev_input_tokens == st.jev_input_tokens
            &&& u.jev_cost_usd.bits == st.jev_cost_usd.bits
            &&& u.llm.requests == st.llm_requests
            &&& u.llm.prompt_tokens == st.llm_prompt_tokens
            &&& u.llm.completion_tokens == st.llm_completion_tokens
            &&& u.llm.reasoning_tokens == st.llm_reasoning_tokens
            &&& u.llm.cost_usd is None <==> st.llm_cost_usd is None
            &&& st.llm_cost_usd matches Some(c) ==> u.llm.cost_usd == Some(Real { bits: c.bits })
            &&& u.planner.requests == st.planner_requests
            &&& u.planner.prompt_tokens == st.planner_prompt_tokens
            &&& u.planner.completion_tokens == st.planner_completion_tokens
            &&& u.planner.reasoning_tokens == st.planner_reasoning_tokens
            &&& u.planner.cost_usd is None <==> st.planner_cost_usd is None
            &&& st.planner_cost_usd matches Some(c) ==> u.planner.cost_usd == Some(
                Real { bits: c.bits },
            )
        }),
{
}

} // verus!
