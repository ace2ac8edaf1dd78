//! Suspense integration: a render that suspended is polled on the spot for
//! as long as it wakes itself, and handed to the scheduler only when it
//! really blocks.
use crate::nodes::RenderReturn;
use crate::scheduler::SuspenseLeaf;
use futures_util::future::LocalFutureObj;
use futures_util::FutureExt;
use std::sync::Arc;
use std::task::Context;
use std::task::Poll;
use std::task::Waker;
use vstd::prelude::*;

verus! {

/// The result of one poll: the nodes of a finished computation, or the
/// computation, which is not ready.
#[verifier::reject_recursive_types(N)]
pub enum Polled<N> {
    Ready(Option<N>),
    Pending(LocalFutureObj<'static, Option<N>>),
}

/// `FutureExt::poll_unpin`, with a waker made of `leaf`: polls the
/// computation once. What comes back is up to the computation; a
/// computation that has finished is not handed back, so it is never
/// polled again.
#[verifier::external_body]
fn poll_once<N>(
    task: LocalFutureObj<'static, Option<N>>,
    leaf: &Arc<SuspenseLeaf>,
) -> (polled: Polled<N>) {
    let mut task = task;
    let waker = Waker::from(leaf.clone());
    let mut cx = Context::from_waker(&waker);
    match task.poll_unpin(&mut cx) {
        Poll::Ready(nodes) => Polled::Ready(nodes),
        Poll::Pending => Polled::Pending(task),
    }
}

/// What one poll of a suspended computation showed.
#[derive(Clone, Copy, Debug, PartialEq, Eq, Structural)]
pub enum PollEvent {
    /// The computation finished.
    Ready,
    /// It is not ready, and woke itself while it was polled.
    SelfWoken,
    /// It is not ready and waits for a wake from outside.
    Blocked,
}

/// How a suspended render ended.
#[verifier::reject_recursive_types(N)]
pub struct Resolution<N> {
    /// The output: completed, empty, or still pending.
    pub output: RenderReturn<N>,
    /// How often the computation was polled.
    pub polls: usize,
    /// What each of these polls showed, in order.
    pub trace: Ghost<Seq<PollEvent>>,
}

/// What the loop does after a poll.
#[verifier::reject_recursive_types(N)]
pub enum PollStep<N> {
    /// It polls the computation again at once.
    Again(LocalFutureObj<'static, Option<N>>),
    /// It ends with this output.
    Done(RenderReturn<N>),
}

/// What a poll showed, given its result and whether the wake flag was set
/// while it ran.
pub open spec fn spec_event<N>(polled: Polled<N>, woken: bool) -> PollEvent {
    match polled {
        Polled::Ready(_) => PollEvent::Ready,
        Polled::Pending(_) => if woken {
            PollEvent::SelfWoken
        } else {
            PollEvent::Blocked
        },
    }
}

/// The step after the poll that brought the number of polls to `polls`.
/// A finished computation gives its nodes, or the empty output where it
/// has none. One that is not ready is polled again if it woke itself and
/// the budget is not used up; else it stays pending.
pub open spec fn spec_after_poll<N>(
    polled: Polled<N>,
    woken: bool,
    polls: usize,
    budget: usize,
) -> PollStep<N> {
    match polled {
        Polled::Ready(nodes) => PollStep::Done(RenderReturn::spec_from_nodes(nodes)),
        Polled::Pending(task) => if woken && polls < budget {
            PollStep::Again(task)
        } else {
            PollStep::Done(RenderReturn::Pending(task))
        },
    }
}

pub fn after_poll<N>(
    polled: Polled<N>,
    woken: bool,
    polls: usize,
    budget: usize,
) -> (step: PollStep<N>)
    ensures
        step == spec_after_poll(polled, woken, polls, budget),
{
    match polled {
        Polled::Ready(nodes) => PollStep::Done(RenderReturn::from_nodes(nodes)),
        Polled::Pending(task) => {
            if woken && polls < budget {
                PollStep::Again(task)
            } else {
                PollStep::Done(RenderReturn::Pending(task))
            }
        },
    }
}

/// The number of polls that the loop makes of a computation whose polls
/// show `script`, one event after the other, when it may poll `budget`
/// times: it polls again only after a self-wake, and only while the budget
/// lasts.
pub open spec fn polls_made(script: Seq<PollEvent>, budget: nat) -> nat
    decreases script.len(),
{
    if script.len() == 0 {
        0
    } else if script[0] == PollEvent::SelfWoken && budget > 1 {
        1 + polls_made(script.drop_first(), (budget - 1) as nat)
    } else {
        1
    }
}

/// One run of the poll loop: it polled as often as `trace` is long, every
/// poll but the last showed a self-wake, a last poll that showed one more
/// used the budget up, and the run ended pending exactly where the last
/// poll did not finish the computation.
pub open spec fn spec_poll_run(trace: Seq<PollEvent>, budget: nat, pending: bool) -> bool {
    &&& trace.len() >= 1
    &&& polls_made(trace, budget) == trace.len()
    &&& forall|i: int| 0 <= i < trace.len() - 1 ==> trace[i] == PollEvent::SelfWoken
    &&& trace.last() == PollEvent::SelfWoken ==> trace.len() >= budget
    &&& pending == (trace.last() != PollEvent::Ready)
}

/// A run whose first poll finds the computation ready polls once and does
/// not end pending.
pub proof fn lemma_run_ready_at_once(trace: Seq<PollEvent>, budget: nat, pending: bool)
    requires
        spec_poll_run(trace, budget, pending),
        trace[0] == PollEvent::Ready,
    ensures
        trace.len() == 1,
        !pending,
{
}

/// A run whose first `wakes` polls show self-wakes and whose next poll
/// shows the computation blocked polls `wakes + 1` times and ends pending.
pub proof fn lemma_run_self_wakes_then_blocks(
    trace: Seq<PollEvent>,
    budget: nat,
    pending: bool,
    wakes: nat,
)
    requires
        spec_poll_run(trace, budget, pending),
        wakes < trace.len(),
        trace[wakes as int] == PollEvent::Blocked,
    ensures
        trace.len() == wakes + 1,
        pending,
{
}

/// Polls a suspended computation until it finishes, blocks, or has been
/// polled `budget` times (once, where the budget is smaller). After each
/// poll it reads the wake flag of `leaf`, clears it and takes the step of
/// `after_poll`. The output is pending exactly where the last poll did
/// not finish the computation.
pub fn resolve_suspended<N>(
    task: LocalFutureObj<'static, Option<N>>,
    leaf: &Arc<SuspenseLeaf>,
    budget: usize,
) -> (done: Resolution<N>)
    ensures
        done.trace@.len() == done.polls,
        budget >= 1 ==> done.polls <= budget,
        spec_poll_run(done.trace@, budget as nat, done.output is Pending),
{
    let mut task = task;
    let mut polls: usize = 0;
    let ghost mut trace: Seq<PollEvent> = Seq::empty();
    loop
        invariant
            polls == trace.len(),
            polls == 0 || polls < budget,
            forall|i: int| 0 <= i < polls ==> trace[i] == PollEvent::SelfWoken,
        decreases usize::MAX - polls,
    {
        let polled = poll_once(task, leaf);
        let woken = leaf.take_notified();
        polls = polls + 1;
        let ghost event = spec_event(polled, woken);
        match after_poll(polled, woken, polls, budget) {
            PollStep::Again(again) => {
                proof {
                    trace = trace.push(event);
                }
                task = again;
            },
            PollStep::Done(output) => {
                proof {
                    lemma_polls_made(trace, event, budget as nat);
                    trace = trace.push(event);
                }
                return Resolution { output, polls, trace: Ghost(trace) };
            },
        }
    }
}

/// After a run of self-wakes that the budget covers, the loop stops at
/// the first poll that shows anything else, or that uses the budget up.
proof fn lemma_polls_made(wakes: Seq<PollEvent>, last: PollEvent, budget: nat)
    requires
        forall|i: int| 0 <= i < wakes.len() ==> wakes[i] == PollEvent::SelfWoken,
        wakes.len() == 0 || wakes.len() < budget,
        last != PollEvent::SelfWoken || wakes.len() + 1 >= budget,
    ensures
        polls_made(wakes.push(last), budget) == wakes.len() + 1,
    decreases wakes.len(),
{
    let script = wakes.push(last);
    if wakes.len() > 0 {
        assert(script[0] == wakes[0]);
        assert(script.drop_first() =~= wakes.drop_first().push(last));
        lemma_polls_made(wakes.drop_first(), last, (budget - 1) as nat);
    }
}

/// A computation that is ready at its first poll is polled once.
pub proof fn lemma_ready_at_once(script: Seq<PollEvent>, budget: nat)
    requires
        script.len() > 0,
        script[0] == PollEvent::Ready,
    ensures
        polls_made(script, budget) == 1,
{
}

/// A computation that wakes itself `wakes` times and then blocks is
/// polled `wakes + 1` times in one go, where the budget allows that many
/// polls.
pub proof fn lemma_self_wakes_then_blocks(wakes: nat, budget: nat)
    requires
        wakes < budget,
    ensures
        polls_made(Seq::new(wakes, |i: int| PollEvent::SelfWoken).push(PollEvent::Blocked), budget)
            == wakes + 1,
{
    lemma_polls_made(Seq::new(wakes, |i: int| PollEvent::SelfWoken), PollEvent::Blocked, budget);
}

} // verus!
