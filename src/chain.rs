use crate::context::{Context, ContextView};
use crate::events::{apply_event, name_spec, resolve, resolve_spec, RegisteredEvent};
use vstd::prelude::*;

verus! {

/// What running a sequence of events on a context gives: the final context,
/// and `None` when every event succeeded, or the position and reason of the
/// first failure. Events run first to last; nothing runs after a failure.
pub open spec fn run_events(evs: Seq<RegisteredEvent>, m: ContextView) -> (ContextView, Option<(nat, Seq<char>)>)
    decreases evs.len(),
{
    if evs.len() == 0 {
        (m, None)
    } else {
        let (before, failed) = run_events(evs.drop_last(), m);
        if failed is Some {
            (before, failed)
        } else {
            let (after, reason) = apply_event(evs.last(), before);
            match reason {
                Some(why) => (after, Some(((evs.len() - 1) as nat, why))),
                None => (after, None),
            }
        }
    }
}

/// The events that a list of names resolves to, where every name resolves.
pub open spec fn resolved(names: Seq<String>) -> Seq<RegisteredEvent> {
    Seq::new(names.len(), |i: int| resolve_spec(names[i]@).unwrap())
}

/// Why a chain could not be built.
#[derive(Clone, Debug, PartialEq, Eq)]
pub enum BuildError {
    /// No event is registered under this name.
    UnknownEvent(String),
}

/// Why a run stopped.
#[derive(Clone, Debug, PartialEq, Eq)]
pub struct ChainFailure {
    /// The position of the failing event in the chain.
    pub position: usize,
    /// The name of the failing event.
    pub event: String,
    /// The reason that the event gave.
    pub reason: String,
}

/// An ordered sequence of natively registered events.
pub struct Chain {
    events: Vec<RegisteredEvent>,
}

impl View for Chain {
    type V = Seq<RegisteredEvent>;

    closed spec fn view(&self) -> Seq<RegisteredEvent> {
        self.events@
    }
}

/// Once a run has failed, running more events changes nothing.
proof fn lemma_failure_persists(evs: Seq<RegisteredEvent>, k: nat, j: nat, m: ContextView)
    requires
        k <= j <= evs.len(),
        run_events(evs.take(k as int), m).1 is Some,
    ensures
        run_events(evs.take(j as int), m) == run_events(evs.take(k as int), m),
    decreases j - k,
{
    if j > k {
        lemma_failure_persists(evs, k, (j - 1) as nat, m);
        assert(evs.take(j as int).drop_last() == evs.take(j - 1));
    }
}

/// Running `s` and then `t` is running `s + t`: the events of `t` start from
/// the context that `s` left, and a failure in `t` is reported at its position
/// in `s + t`. Where `s` fails, `t` never runs.
pub proof fn lemma_run_concat(s: Seq<RegisteredEvent>, t: Seq<RegisteredEvent>, m: ContextView)
    ensures
        ({
            let (ms, fs) = run_events(s, m);
            let (mt, ft) = run_events(t, ms);
            run_events(s + t, m) == if fs is Some {
                (ms, fs)
            } else {
                match ft {
                    Some((p, why)) => (mt, Some(((p + s.len()) as nat, why))),
                    None => (mt, None),
                }
            }
        }),
    decreases t.len(),
{
    if t.len() == 0 {
        assert(s + t == s);
    } else {
        lemma_run_concat(s, t.drop_last(), m);
        assert((s + t).drop_last() == s + t.drop_last());
        assert((s + t).last() == t.last());
    }
}

/// Events run in the order given: the context after `[a, b, c]` is that of
/// applying `a`, then `b`, then `c`, and a failure stops the rest.
pub proof fn lemma_fifo_order(a: RegisteredEvent, b: RegisteredEvent, c: RegisteredEvent, m: ContextView)
    ensures
        ({
            let (ma, ra) = apply_event(a, m);
            let (mb, rb) = apply_event(b, ma);
            let (mc, rc) = apply_event(c, mb);
            run_events(seq![a, b, c], m) == if ra is Some {
                (ma, Some((0nat, ra.unwrap())))
            } else if rb is Some {
                (mb, Some((1nat, rb.unwrap())))
            } else if rc is Some {
                (mc, Some((2nat, rc.unwrap())))
            } else {
                (mc, None)
            }
        }),
{
    reveal_with_fuel(run_events, 4);
    let s = seq![a, b, c];
    assert(s.drop_last() == seq![a, b]);
    assert(seq![a, b].drop_last() == seq![a]);
    assert(seq![a].drop_last() == Seq::<RegisteredEvent>::empty());
    assert(s.last() == c);
    assert(seq![a, b].last() == b);
    assert(seq![a].last() == a);
}

/// A failing event aborts the run: where the event at position `k` fails on
/// the context that the events before it left, the run ends with that context
/// and that failure, and no later event runs.
pub proof fn lemma_abort_on_failure(evs: Seq<RegisteredEvent>, k: nat, m: ContextView)
    requires
        k < evs.len(),
        run_events(evs.take(k as int), m).1 is None,
        apply_event(evs[k as int], run_events(evs.take(k as int), m).0).1 is Some,
    ensures
        ({
            let (failed_ctx, why) = apply_event(evs[k as int], run_events(evs.take(k as int), m).0);
            run_events(evs, m) == (failed_ctx, Some((k, why.unwrap())))
        }),
{
    assert(evs.take(k + 1int).drop_last() == evs.take(k as int));
    assert(evs.take(k + 1int).last() == evs[k as int]);
    lemma_failure_persists(evs, k + 1, evs.len(), m);
    assert(evs.take(evs.len() as int) == evs);
}

impl Chain {
    /// An empty chain.
    pub fn new() -> (r: Chain)
        ensures
            r@ == Seq::<RegisteredEvent>::empty(),
    {
        Chain { events: Vec::new() }
    }

    /// Adds an event at the end of the chain.
    pub fn event(self, e: RegisteredEvent) -> (r: Chain)
        ensures
            r@ == self@.push(e),
    {
        let mut events = self.events;
        events.push(e);
        Chain { events }
    }

    /// The number of events in the chain.
    pub fn len(&self) -> (r: usize)
        ensures
            r == self@.len(),
    {
        self.events.len()
    }

    /// Builds a chain from event names, each resolved exactly and
    /// case-sensitively. Fails, naming the first unknown name, before anything
    /// runs.
    pub fn from_names(names: &Vec<String>) -> (r: Result<Chain, BuildError>)
        ensures
            r is Ok <==> forall|i: int| 0 <= i < names@.len() ==> (#[trigger] resolve_spec(names@[i]@)) is Some,
            r matches Ok(c) ==> c@ == resolved(names@),
            r matches Err(BuildError::UnknownEvent(n)) ==> exists|i: int|
                0 <= i < names@.len() && resolve_spec(names@[i]@) is None && n@ == names@[i]@
                    && forall|j: int| 0 <= j < i ==> (#[trigger] resolve_spec(names@[j]@)) is Some,
    {
        let mut events: Vec<RegisteredEvent> = Vec::new();
        let mut i: usize = 0;
        while i < names.len()
            invariant
                i <= names@.len(),
                forall|j: int| 0 <= j < i ==> (#[trigger] resolve_spec(names@[j]@)) is Some,
                events@ == resolved(names@.take(i as int)),
            decreases names@.len() - i,
        {
            match resolve(&names[i]) {
                Some(e) => {
                    events.push(e);
                    i = i + 1;
                    assert(events@ == resolved(names@.take(i as int)));
                },
                None => {
                    return Err(BuildError::UnknownEvent(names[i].clone()));
                },
            }
        }
        assert(names@.take(i as int) == names@);
        Ok(Chain { events })
    }

    /// Runs the events in order on the context, stopping at the first failure.
    /// The context ends as the last event that ran left it.
    pub fn execute(&self, ctx: &mut Context) -> (r: Result<(), ChainFailure>)
        ensures
            final(ctx)@ == run_events(self@, old(ctx)@).0,
            r is Ok <==> run_events(self@, old(ctx)@).1 is None,
            r matches Err(f) ==> run_events(self@, old(ctx)@).1 == Some((f.position as nat, f.reason@))
                && f.position < self@.len() && f.event@ == name_spec(self@[f.position as int]),
    {
        let n = self.events.len();
        let mut i: usize = 0;
        while i < n
            invariant
                n == self@.len(),
                i <= n,
                ctx@ == run_events(self@.take(i as int), old(ctx)@).0,
                run_events(self@.take(i as int), old(ctx)@).1 is None,
            decreases n - i,
        {
            let e = self.events[i];
            let res = e.execute(ctx);
            proof {
                assert(self@.take(i + 1).drop_last() == self@.take(i as int));
                assert(self@.take(i + 1).last() == e);
            }
            match res {
                Ok(()) => {
                    i = i + 1;
                },
                Err(reason) => {
                    proof {
                        lemma_failure_persists(self@, (i + 1) as nat, n as nat, old(ctx)@);
                        assert(self@.take(n as int) == self@);
                    }
                    return Err(ChainFailure { position: i, event: e.name(), reason });
                },
            }
        }
        assert(self@.take(n as int) == self@);
        Ok(())
    }
}

} // verus!
