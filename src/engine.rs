use vstd::prelude::*;

verus! {

/// Where a run of the middleware stack stands.
#[derive(Clone, Copy, Debug, PartialEq, Eq, Structural)]
pub enum Mode {
    /// The frame at the current depth is to be entered.
    Enter,
    /// A handler at the current depth has been called and has not returned.
    Running,
    /// The middleware at the current depth is to get back what its `next`
    /// produced.
    Resume,
    /// Every event has run.
    Completed,
    /// A handler failed; nothing more runs.
    Aborted,
}

/// What the driver is to do next.
#[derive(Clone, Copy, Debug, PartialEq, Eq, Structural)]
pub enum Call {
    /// Call this middleware (its registration index) with the shared context
    /// and a continuation.
    Middleware(usize),
    /// Call this event (its position in the chain) with the shared context.
    Event(usize),
    /// Return the shared context from the continuation that this middleware
    /// (its registration index) invoked.
    Resume(usize),
    /// A handler is running: wait for it to invoke its continuation or return.
    Pending,
    /// The run is over.
    Finished,
}

/// `Call` in specifications, with indices as natural numbers.
pub ghost enum Visit {
    Middleware(nat),
    Event(nat),
    Resume(nat),
    Pending,
    Finished,
}

impl View for Call {
    type V = Visit;

    open spec fn view(&self) -> Visit {
        match *self {
            Call::Middleware(i) => Visit::Middleware(i as nat),
            Call::Event(i) => Visit::Event(i as nat),
            Call::Resume(i) => Visit::Resume(i as nat),
            Call::Pending => Visit::Pending,
            Call::Finished => Visit::Finished,
        }
    }
}

/// The control state of a run: `events` events, each wrapped by `layers`
/// middleware; `depth` frames of middleware are open around the position `pos`.
pub ghost struct Control {
    pub events: nat,
    pub layers: nat,
    pub pos: nat,
    pub depth: nat,
    pub mode: Mode,
}

pub open spec fn control_wf(s: Control) -> bool {
    &&& s.events <= usize::MAX
    &&& s.layers <= usize::MAX
    &&& s.depth <= s.layers
    &&& s.pos <= s.events
    &&& (s.mode is Enter || s.mode is Running || s.mode is Resume || s.mode is Aborted) ==> s.pos < s.events
    &&& s.mode is Resume ==> s.depth < s.layers
    &&& s.mode is Completed ==> s.pos == s.events && s.depth == 0
}

/// The state in which a run starts.
pub open spec fn initial(events: nat, layers: nat) -> Control {
    Control {
        events,
        layers,
        pos: 0,
        depth: 0,
        mode: if events == 0 { Mode::Completed } else { Mode::Enter },
    }
}

/// The state after the event at `s.pos` and all its middleware have returned:
/// the next position, entered from the outermost middleware.
pub open spec fn advance(s: Control) -> Control {
    if s.pos + 1 == s.events {
        Control { pos: s.events, depth: 0, mode: Mode::Completed, ..s }
    } else {
        Control { pos: s.pos + 1, depth: 0, mode: Mode::Enter, ..s }
    }
}

/// What the driver is told to do, and the state after it is told. The frame at
/// depth `d` is the middleware registered at `layers - 1 - d`, so the last one
/// registered is outermost; at depth `layers` the event itself runs.
pub open spec fn step_spec(s: Control) -> (Control, Visit) {
    match s.mode {
        Mode::Enter => if s.depth < s.layers {
            (Control { mode: Mode::Running, ..s }, Visit::Middleware((s.layers - 1 - s.depth) as nat))
        } else {
            (Control { mode: Mode::Running, ..s }, Visit::Event(s.pos))
        },
        Mode::Resume => (Control { mode: Mode::Running, ..s }, Visit::Resume((s.layers - 1 - s.depth) as nat)),
        Mode::Running => (s, Visit::Pending),
        _ => (s, Visit::Finished),
    }
}

/// Whether the running handler may invoke its continuation: only a middleware
/// has one.
pub open spec fn next_allowed(s: Control) -> bool {
    s.mode is Running && s.depth < s.layers
}

/// The state after the running middleware invoked its continuation: one frame
/// deeper.
pub open spec fn next_spec(s: Control) -> Control {
    if next_allowed(s) {
        Control { depth: s.depth + 1, mode: Mode::Enter, ..s }
    } else {
        s
    }
}

/// The state after the running handler returned, successfully or not.
pub open spec fn return_spec(s: Control, ok: bool) -> Control {
    if !(s.mode is Running) {
        s
    } else if !ok {
        Control { mode: Mode::Aborted, ..s }
    } else if s.depth == 0 {
        advance(s)
    } else {
        Control { depth: (s.depth - 1) as nat, mode: Mode::Resume, ..s }
    }
}

/// One move of a run where every middleware invokes its continuation once and
/// every handler succeeds.
pub open spec fn tick(s: Control) -> (Control, Visit) {
    let (s1, v) = step_spec(s);
    match v {
        Visit::Middleware(_) => (next_spec(s1), v),
        Visit::Event(_) => (return_spec(s1, true), v),
        Visit::Resume(_) => (return_spec(s1, true), v),
        _ => (s1, v),
    }
}

/// The state after `k` such moves, and what the driver was told at each.
pub open spec fn trace(s: Control, k: nat) -> (Control, Seq<Visit>)
    decreases k,
{
    if k == 0 {
        (s, Seq::empty())
    } else {
        let (s1, v) = tick(s);
        let (s2, t) = trace(s1, (k - 1) as nat);
        (s2, seq![v] + t)
    }
}

/// The calls around one event: the middleware from the last registered to the
/// first, the event, then the middleware getting their continuation's result
/// back from the first registered to the last.
pub open spec fn onion(layers: nat, pos: nat) -> Seq<Visit> {
    Seq::new(layers, |i: int| Visit::Middleware((layers - 1 - i) as nat))
        + seq![Visit::Event(pos)]
        + Seq::new(layers, |i: int| Visit::Resume(i as nat))
}

/// The calls of a whole run of `count` events from position `from`.
pub open spec fn onions(layers: nat, from: nat, count: nat) -> Seq<Visit>
    decreases count,
{
    if count == 0 {
        Seq::empty()
    } else {
        onion(layers, from) + onions(layers, from + 1, (count - 1) as nat)
    }
}

proof fn lemma_trace_concat(s: Control, a: nat, b: nat)
    ensures
        ({
            let (s1, t1) = trace(s, a);
            let (s2, t2) = trace(s1, b);
            trace(s, a + b) == (s2, t1 + t2)
        }),
    decreases a,
{
    if a > 0 {
        let (s1, v) = tick(s);
        lemma_trace_concat(s1, (a - 1) as nat, b);
        assert((a + b - 1) as nat == (a - 1) as nat + b);
        let (sa, ta) = trace(s1, (a - 1) as nat);
        let (sb, tb) = trace(sa, b);
        assert(seq![v] + (ta + tb) == (seq![v] + ta) + tb);
    }
}

proof fn lemma_descend(s: Control)
    requires
        control_wf(s),
        s.mode is Enter,
    ensures
        trace(s, (s.layers - s.depth) as nat) == (
            Control { depth: s.layers, ..s },
            Seq::new((s.layers - s.depth) as nat, |i: int| Visit::Middleware((s.layers - 1 - s.depth - i) as nat)),
        ),
    decreases s.layers - s.depth,
{
    let k = (s.layers - s.depth) as nat;
    if k > 0 {
        let s1 = Control { depth: s.depth + 1, ..s };
        assert(tick(s) == (s1, Visit::Middleware((s.layers - 1 - s.depth) as nat)));
        lemma_descend(s1);
        let rest = Seq::new((s1.layers - s1.depth) as nat, |i: int| Visit::Middleware((s1.layers - 1 - s1.depth - i) as nat));
        assert(seq![Visit::Middleware((s.layers - 1 - s.depth) as nat)] + rest
            == Seq::new(k, |i: int| Visit::Middleware((s.layers - 1 - s.depth - i) as nat)));
    } else {
        assert(Control { depth: s.layers, ..s } == s);
        assert(Seq::new(0, |i: int| Visit::Middleware((s.layers - 1 - s.depth - i) as nat)) == Seq::<Visit>::empty());
    }
}

proof fn lemma_ascend(s: Control)
    requires
        control_wf(s),
        s.mode is Resume,
    ensures
        trace(s, s.depth + 1) == (
            advance(s),
            Seq::new(s.depth + 1, |i: int| Visit::Resume((s.layers - 1 - s.depth + i) as nat)),
        ),
    decreases s.depth,
{
    let v = Visit::Resume((s.layers - 1 - s.depth) as nat);
    if s.depth == 0 {
        assert(tick(s) == (advance(s), v));
        assert(trace(advance(s), 0) == (advance(s), Seq::<Visit>::empty()));
        assert(seq![v] + Seq::<Visit>::empty() == Seq::new(1, |i: int| Visit::Resume((s.layers - 1 - s.depth + i) as nat)));
    } else {
        let s1 = Control { depth: (s.depth - 1) as nat, ..s };
        assert(tick(s) == (s1, v));
        lemma_ascend(s1);
        assert(advance(s1) == advance(s));
        assert(seq![v] + Seq::new(s1.depth + 1, |i: int| Visit::Resume((s1.layers - 1 - s1.depth + i) as nat))
            == Seq::new(s.depth + 1, |i: int| Visit::Resume((s.layers - 1 - s.depth + i) as nat)));
    }
}

/// Middleware wrap each event in onion order: where each middleware invokes
/// its continuation once and every handler succeeds, the last registered
/// middleware is called first and the first registered last, then the event,
/// then the results unwind from the first registered to the last; the run then
/// moves to the next event.
pub proof fn lemma_onion_order(s: Control)
    requires
        control_wf(s),
        s.mode is Enter,
        s.depth == 0,
    ensures
        trace(s, 2 * s.layers + 1) == (advance(s), onion(s.layers, s.pos)),
{
    let l = s.layers;
    let bottom = Control { depth: l, ..s };
    lemma_descend(s);
    let down = Seq::new(l, |i: int| Visit::Middleware((l - 1 - i) as nat));
    assert(Seq::new((s.layers - s.depth) as nat, |i: int| Visit::Middleware((s.layers - 1 - s.depth - i) as nat)) == down);
    let up = Seq::new(l, |i: int| Visit::Resume(i as nat));
    lemma_trace_concat(s, l, l + 1);
    assert(l + (l + 1) == 2 * l + 1);
    if l == 0 {
        assert(tick(bottom) == (advance(s), Visit::Event(s.pos)));
        assert(trace(advance(s), 0) == (advance(s), Seq::<Visit>::empty()));
        assert(trace(bottom, 1) == (advance(s), seq![Visit::Event(s.pos)]));
        assert(up == Seq::<Visit>::empty());
        assert(down == Seq::<Visit>::empty());
        assert(onion(l, s.pos) == seq![Visit::Event(s.pos)]);
    } else {
        let top = Control { depth: (l - 1) as nat, mode: Mode::Resume, ..s };
        assert(tick(bottom) == (top, Visit::Event(s.pos)));
        lemma_ascend(top);
        assert(advance(top) == advance(s));
        assert(Seq::new(top.depth + 1, |i: int| Visit::Resume((top.layers - 1 - top.depth + i) as nat)) == up);
        assert(trace(bottom, l + 1) == (advance(s), seq![Visit::Event(s.pos)] + up));
        assert(down + (seq![Visit::Event(s.pos)] + up) == onion(l, s.pos));
    }
}

/// Middleware are entered again for every event: a run of `events` events,
/// where each middleware invokes its continuation once and every handler
/// succeeds, is one onion per event in chain order, and then ends.
pub proof fn lemma_per_event_reentry(events: nat, layers: nat)
    requires
        events <= usize::MAX,
        layers <= usize::MAX,
    ensures
        trace(initial(events, layers), events * (2 * layers + 1)) == (
            Control { events, layers, pos: events, depth: 0, mode: Mode::Completed },
            onions(layers, 0, events),
        ),
{
    if events == 0 {
        assert(events * (2 * layers + 1) == 0) by (nonlinear_arith)
            requires events == 0;
    } else {
        lemma_run_from(initial(events, layers), events);
    }
}

proof fn lemma_run_from(s: Control, count: nat)
    requires
        control_wf(s),
        s.mode is Enter,
        s.depth == 0,
        count == s.events - s.pos,
    ensures
        trace(s, count * (2 * s.layers + 1)) == (
            Control { pos: s.events, depth: 0, mode: Mode::Completed, ..s },
            onions(s.layers, s.pos, count),
        ),
    decreases count,
{
    let w = 2 * s.layers + 1;
    lemma_onion_order(s);
    let s1 = advance(s);
    assert(count * w == w + (count - 1) * w) by (nonlinear_arith)
        requires count >= 1;
    lemma_trace_concat(s, w, ((count - 1) * w) as nat);
    if count == 1 {
        assert(((count - 1) * w) as nat == 0) by (nonlinear_arith)
            requires count == 1;
        assert(onions(s.layers, s.pos + 1, 0) == Seq::<Visit>::empty());
        assert(onion(s.layers, s.pos) + Seq::<Visit>::empty() == onion(s.layers, s.pos));
    } else {
        lemma_run_from(s1, (count - 1) as nat);
    }
}

/// A failure aborts the run: once a running handler has failed, the driver is
/// told only that the run is over, and no continuation or return moves it.
pub proof fn lemma_abort_stops(s: Control, ok: bool)
    requires
        control_wf(s),
        s.mode is Running,
    ensures
        ({
            let a = return_spec(s, false);
            &&& a.mode is Aborted
            &&& a.pos == s.pos
            &&& step_spec(a) == (a, Visit::Finished)
            &&& next_spec(a) == a
            &&& return_spec(a, ok) == a
            &&& trace(a, 1) == (a, seq![Visit::Finished])
        }),
{
    let a = return_spec(s, false);
    assert(trace(a, 0) == (a, Seq::<Visit>::empty()));
    assert(seq![Visit::Finished] + Seq::<Visit>::empty() == seq![Visit::Finished]);
}

/// How many times `v` occurs in `t`.
pub open spec fn count_of(t: Seq<Visit>, v: Visit) -> nat
    decreases t.len(),
{
    if t.len() == 0 {
        0
    } else {
        count_of(t.drop_last(), v) + if t.last() == v { 1nat } else { 0nat }
    }
}

proof fn lemma_count_concat(a: Seq<Visit>, b: Seq<Visit>, v: Visit)
    ensures
        count_of(a + b, v) == count_of(a, v) + count_of(b, v),
    decreases b.len(),
{
    if b.len() == 0 {
        assert(a + b == a);
    } else {
        lemma_count_concat(a, b.drop_last(), v);
        assert((a + b).drop_last() == a + b.drop_last());
        assert((a + b).last() == b.last());
    }
}

proof fn lemma_count_single(t: Seq<Visit>, v: Visit, k: int)
    requires
        0 <= k < t.len(),
        t[k] == v,
        forall|i: int| 0 <= i < t.len() && i != k ==> t[i] != v,
    ensures
        count_of(t, v) == 1,
    decreases t.len(),
{
    if k == t.len() - 1 {
        lemma_count_absent(t.drop_last(), v);
    } else {
        lemma_count_single(t.drop_last(), v, k);
    }
}

proof fn lemma_count_absent(t: Seq<Visit>, v: Visit)
    requires
        forall|i: int| 0 <= i < t.len() ==> t[i] != v,
    ensures
        count_of(t, v) == 0,
    decreases t.len(),
{
    if t.len() > 0 {
        lemma_count_absent(t.drop_last(), v);
    }
}

proof fn lemma_onions_count(layers: nat, from: nat, count: nat, j: nat)
    requires
        j < layers,
    ensures
        count_of(onions(layers, from, count), Visit::Middleware(j)) == count,
    decreases count,
{
    if count > 0 {
        let v = Visit::Middleware(j);
        let o = onion(layers, from);
        let k = layers - 1 - j;
        assert(o[k] == v);
        assert forall|i: int| 0 <= i < o.len() && i != k implies o[i] != v by {
            if i < layers {
                assert(o[i] == Visit::Middleware((layers - 1 - i) as nat));
            }
        }
        lemma_count_single(o, v, k);
        lemma_onions_count(layers, from + 1, (count - 1) as nat, j);
        lemma_count_concat(o, onions(layers, from + 1, (count - 1) as nat), v);
    }
}

/// Each middleware runs once per event, not once per chain: in a run of
/// `events` events where each middleware invokes its continuation once and
/// every handler succeeds, every middleware is called exactly `events` times.
pub proof fn lemma_middleware_calls_per_run(events: nat, layers: nat, j: nat)
    requires
        events <= usize::MAX,
        layers <= usize::MAX,
        j < layers,
    ensures
        count_of(trace(initial(events, layers), events * (2 * layers + 1)).1, Visit::Middleware(j)) == events,
{
    lemma_per_event_reentry(events, layers);
    lemma_onions_count(layers, 0, events, j);
}

/// A run of a chain of events through a stack of middleware, driven from
/// outside: the driver performs each call that `step` names and reports back
/// through `next_called` and `returned`. The engine decides the order and keeps
/// the one shared context.
pub struct Engine<C> {
    events: usize,
    layers: usize,
    pos: usize,
    depth: usize,
    mode: Mode,
    shared: C,
    failure: Option<String>,
}

impl<C> Engine<C> {
    pub closed spec fn control(&self) -> Control {
        Control {
            events: self.events as nat,
            layers: self.layers as nat,
            pos: self.pos as nat,
            depth: self.depth as nat,
            mode: self.mode,
        }
    }

    /// The shared context.
    pub closed spec fn shared_spec(&self) -> C {
        self.shared
    }

    /// The reason of the failure that aborted the run, if one did.
    pub closed spec fn failure_spec(&self) -> Option<Seq<char>> {
        match self.failure {
            Some(e) => Some(e@),
            None => None,
        }
    }

    pub closed spec fn wf(&self) -> bool {
        &&& control_wf(self.control())
        &&& (self.failure is Some <==> self.mode is Aborted)
    }

    /// A run of `events` events, each wrapped by `layers` middleware, from the
    /// given context.
    pub fn new(events: usize, layers: usize, initial_context: C) -> (r: Engine<C>)
        ensures
            r.wf(),
            r.control() == initial(events as nat, layers as nat),
            r.shared_spec() == initial_context,
            r.failure_spec() is None,
    {
        Engine {
            events,
            layers,
            pos: 0,
            depth: 0,
            mode: if events == 0 { Mode::Completed } else { Mode::Enter },
            shared: initial_context,
            failure: None,
        }
    }

    /// What the driver is to do next.
    pub fn step(&mut self) -> (r: Call)
        requires
            old(self).wf(),
        ensures
            final(self).wf(),
            (final(self).control(), r@) == step_spec(old(self).control()),
            final(self).shared_spec() == old(self).shared_spec(),
            final(self).failure_spec() == old(self).failure_spec(),
    {
        match self.mode {
            Mode::Enter => {
                self.mode = Mode::Running;
                if self.depth < self.layers {
                    Call::Middleware(self.layers - 1 - self.depth)
                } else {
                    Call::Event(self.pos)
                }
            },
            Mode::Resume => {
                self.mode = Mode::Running;
                Call::Resume(self.layers - 1 - self.depth)
            },
            Mode::Running => Call::Pending,
            _ => Call::Finished,
        }
    }

    /// The running middleware invoked its continuation with `ctx`: it becomes
    /// the shared context and the next frame inward is to be entered. Refused
    /// (and `ctx` dropped) where no middleware is running.
    pub fn next_called(&mut self, ctx: C) -> (accepted: bool)
        requires
            old(self).wf(),
        ensures
            final(self).wf(),
            accepted == next_allowed(old(self).control()),
            final(self).control() == next_spec(old(self).control()),
            final(self).shared_spec() == if accepted { ctx } else { old(self).shared_spec() },
            final(self).failure_spec() == old(self).failure_spec(),
    {
        if self.mode == Mode::Running && self.depth < self.layers {
            self.shared = ctx;
            self.depth = self.depth + 1;
            self.mode = Mode::Enter;
            true
        } else {
            false
        }
    }

    /// The running handler returned. On success its context becomes the shared
    /// context; on failure the run aborts with that reason and the shared
    /// context stays as the last successful step left it. Refused where no
    /// handler is running.
    pub fn returned(&mut self, result: Result<C, String>) -> (accepted: bool)
        requires
            old(self).wf(),
        ensures
            final(self).wf(),
            accepted == old(self).control().mode is Running,
            final(self).control() == return_spec(old(self).control(), result is Ok),
            final(self).shared_spec() == match result {
                Ok(c) => if accepted { c } else { old(self).shared_spec() },
                Err(_) => old(self).shared_spec(),
            },
            final(self).failure_spec() == match result {
                Err(e) => if accepted { Some(e@) } else { old(self).failure_spec() },
                Ok(_) => old(self).failure_spec(),
            },
    {
        if self.mode != Mode::Running {
            return false;
        }
        match result {
            Ok(c) => {
                self.shared = c;
                if self.depth == 0 {
                    if self.pos + 1 == self.events {
                        self.pos = self.events;
                        self.mode = Mode::Completed;
                    } else {
                        self.pos = self.pos + 1;
                        self.mode = Mode::Enter;
                    }
                } else {
                    self.depth = self.depth - 1;
                    self.mode = Mode::Resume;
                }
            },
            Err(e) => {
                self.failure = Some(e);
                self.mode = Mode::Aborted;
            },
        }
        true
    }

    /// The shared context.
    pub fn context(&self) -> (r: &C)
        ensures
            *r == self.shared_spec(),
    {
        &self.shared
    }

    /// The position of the event being run; after an abort, that of the event
    /// whose run failed, in its own handler or in a middleware around it.
    pub fn position(&self) -> (r: usize)
        ensures
            r == self.control().pos,
    {
        self.pos
    }

    /// Whether the run is over, completed or aborted.
    pub fn is_finished(&self) -> (r: bool)
        ensures
            r == (self.control().mode is Completed || self.control().mode is Aborted),
    {
        self.mode == Mode::Completed || self.mode == Mode::Aborted
    }

    /// Ends the run: the shared context, and `Ok` where every event ran or the
    /// reason of the failure that aborted it.
    pub fn finish(self) -> (r: (C, Result<(), String>))
        requires
            self.wf(),
        ensures
            r.0 == self.shared_spec(),
            r.1 is Ok <==> self.failure_spec() is None,
            r.1 matches Err(e) ==> self.failure_spec() == Some(e@),
    {
        match self.failure {
            Some(e) => (self.shared, Err(e)),
            None => (self.shared, Ok(())),
        }
    }
}

} // verus!
