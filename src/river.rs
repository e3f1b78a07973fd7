//! The operator pipeline and the subscriptions that drain a source through it.
//!
//! A pipeline is a persistent value: every builder method returns a new
//! pipeline and leaves the one it was called on as it was. Its stages hold
//! references to functions that the user supplies (`Callable`); named kernels
//! and window aggregates are resolved by a `KernelRegistry`. A subscription
//! folds each source value through the stages and hands what survives to an
//! `Observer`.
//!
//! Failures: a transform or predicate that fails drops the value, silently
//! (it never reaches the rescue handler). A failure of the source itself
//! always reaches the observer's `on_error`; when a rescue handler is
//! attached it receives the failure too, and a value it returns is delivered
//! next. With `terminate_on_error` the first source failure then ends the
//! subscription, rescue handler or not.
use vstd::prelude::*;
use vstd::string::*;
use vstd::utf8::*;

verus! {

broadcast use vstd::utf8::encode_utf8_decode_utf8;

/// A function supplied by the user of a pipeline. It can be invoked as a
/// transform (`call`) or as a predicate (`test`); either invocation may fail,
/// which gives `None`.
pub trait Callable<V> {
    /// What `call` returns. Implementations outside verified code inherit
    /// this default, which the contract below then assumes of them without
    /// describing them; verified implementations state their own.
    closed spec fn spec_call(&self, v: V) -> Option<V> {
        None
    }

    /// What `test` returns; the same holds of its default.
    closed spec fn spec_test(&self, v: V) -> Option<bool> {
        None
    }

    fn call(&self, v: &V) -> (r: Option<V>)
        ensures
            r == self.spec_call(*v),
    ;

    fn test(&self, v: &V) -> (r: Option<bool>)
        ensures
            r == self.spec_test(*v),
    ;
}

/// Resolves named kernels, and the aggregates of windowed stages. An unknown
/// name gives `None`.
pub trait KernelRegistry<V> {
    /// What `run_kernel` returns. Implementations outside verified code inherit
    /// this default, which the contract below then assumes of them without
    /// describing them; verified implementations state their own.
    closed spec fn spec_kernel(&self, name: Seq<char>, params: V, v: V) -> Option<V> {
        None
    }

    /// What `aggregate` returns; the same holds of its default.
    closed spec fn spec_aggregate(&self, op: Seq<char>, window: Seq<V>) -> Option<V> {
        None
    }

    fn run_kernel(&self, name: &str, params: &V, v: &V) -> (r: Option<V>)
        ensures
            r == self.spec_kernel(name@, *params, *v),
    ;

    fn aggregate(&self, op: &str, window: &[V]) -> (r: Option<V>)
        ensures
            r == self.spec_aggregate(op@, window@),
    ;
}

/// What a subscription hands to its observer.
#[derive(Clone, Debug, PartialEq, Eq)]
pub enum Event<V> {
    Next(V),
    Error(V),
    Complete,
}

/// Receives the values, failures and completion of a subscription.
/// `spec_events` is what it has received so far.
pub trait Observer<V> {
    /// Implementations outside verified code inherit
    /// this default, which the contract below then assumes of them without
    /// describing them; verified implementations state their own.
    closed spec fn spec_events(&self) -> Seq<Event<V>> {
        Seq::empty()
    }

    fn on_next(&mut self, v: V)
        ensures
            final(self).spec_events() == old(self).spec_events().push(Event::Next(v)),
    ;

    fn on_error(&mut self, e: V)
        ensures
            final(self).spec_events() == old(self).spec_events().push(Event::Error(e)),
    ;

    fn on_complete(&mut self)
        ensures
            final(self).spec_events() == old(self).spec_events().push(Event::Complete),
    ;
}

/// An observer that keeps every event it receives, in order.
pub struct Recorder<V> {
    events: Vec<Event<V>>,
}

impl<V> Recorder<V> {
    pub fn new() -> (r: Self)
        ensures
            r.spec_events().len() == 0,
    {
        Recorder { events: Vec::new() }
    }

    /// The events received so far.
    pub fn events(&self) -> (r: &Vec<Event<V>>)
        ensures
            r@ == self.spec_events(),
    {
        &self.events
    }
}

impl<V> Observer<V> for Recorder<V> {
    closed spec fn spec_events(&self) -> Seq<Event<V>> {
        self.events@
    }

    fn on_next(&mut self, v: V) {
        self.events.push(Event::Next(v));
    }

    fn on_error(&mut self, e: V) {
        self.events.push(Event::Error(e));
    }

    fn on_complete(&mut self) {
        self.events.push(Event::Complete);
    }
}

/// Asked before each value, and before completion, whether the subscription
/// has been cancelled from outside. Once it has said so it keeps saying so.
pub trait CancelSignal {
    /// Every answer `aborted` has given so far, oldest first. Implementations outside verified code inherit
    /// this default, which the contract below then assumes of them without
    /// describing them; verified implementations state their own.
    closed spec fn spec_answers(&self) -> Seq<bool> {
        Seq::empty()
    }

    fn aborted(&mut self) -> (r: bool)
        ensures
            final(self).spec_answers() == old(self).spec_answers().push(r),
            old(self).spec_answers().len() > 0 && old(self).spec_answers().last() ==> r,
    ;
}

/// A signal that never cancels.
pub struct NeverCancel {
    asked: Ghost<nat>,
}

impl NeverCancel {
    pub fn new() -> (r: Self)
        ensures
            r.spec_answers().len() == 0,
    {
        NeverCancel { asked: Ghost(0) }
    }
}

impl CancelSignal for NeverCancel {
    closed spec fn spec_answers(&self) -> Seq<bool> {
        Seq::new(self.asked@, |j: int| false)
    }

    fn aborted(&mut self) -> (r: bool) {
        let ghost before = self.spec_answers();
        self.asked = Ghost(self.asked@ + 1);
        assert(self.spec_answers() =~= before.push(false));
        false
    }
}

/// The answers that a drain asked for, after the `before` it started from.
pub open spec fn new_answers(before: Seq<bool>, after: Seq<bool>) -> Seq<bool> {
    after.subrange(before.len() as int, after.len() as int)
}

/// `after` extends `before` by answers that are all `false` but perhaps the
/// last.
pub open spec fn stops_at_first_abort(before: Seq<bool>, after: Seq<bool>) -> bool {
    &&& after.len() > before.len()
    &&& after.subrange(0, before.len() as int) == before
    &&& forall|j: int| before.len() <= j < after.len() - 1 ==> !#[trigger] after[j]
}

/// One transform step of a pipeline.
pub enum Operator<'a, F, V> {
    Transform(&'a F),
    /// Keeps the values on which the predicate holds.
    Filter(&'a F),
    /// Keeps the values on which the predicate does not hold.
    FilterOut(&'a F),
    /// A named kernel of the registry, with its parameters.
    MapWasm(&'a str, &'a V),
    /// Buffers the last `size` values and, once the buffer is full, emits the
    /// named aggregate of it for each value.
    WindowedAggregate(usize, &'a str),
}

fn copy_stage<'a, F, V>(s: &Operator<'a, F, V>) -> (r: Operator<'a, F, V>)
    ensures
        r == *s,
{
    match s {
        Operator::Transform(f) => Operator::Transform(*f),
        Operator::Filter(f) => Operator::Filter(*f),
        Operator::FilterOut(f) => Operator::FilterOut(*f),
        Operator::MapWasm(n, p) => Operator::MapWasm(*n, *p),
        Operator::WindowedAggregate(size, op) => Operator::WindowedAggregate(*size, *op),
    }
}

/// The window after `v` arrives: the oldest value leaves once `size` are held.
pub open spec fn spec_window_push<V>(window: Seq<V>, size: nat, v: V) -> Seq<V> {
    if window.len() >= size && window.len() > 0 {
        window.drop_first().push(v)
    } else {
        window.push(v)
    }
}

/// One stage applied to `v`, with the stage's window: the value that goes on
/// (`None` drops it) and the window afterwards.
pub open spec fn spec_stage<'a, F: Callable<V>, V, K: KernelRegistry<V>>(
    stage: Operator<'a, F, V>,
    kernels: K,
    window: Seq<V>,
    v: V,
) -> (Option<V>, Seq<V>) {
    match stage {
        Operator::Transform(f) => (f.spec_call(v), window),
        Operator::Filter(f) => (if f.spec_test(v) == Some(true) { Some(v) } else { None }, window),
        Operator::FilterOut(f) => (if f.spec_test(v) == Some(false) { Some(v) } else { None }, window),
        Operator::MapWasm(name, params) => (kernels.spec_kernel(name@, *params, v), window),
        Operator::WindowedAggregate(size, op) => {
            let w = spec_window_push(window, size as nat, v);
            (if w.len() == size { kernels.spec_aggregate(op@, w) } else { None }, w)
        },
    }
}

/// The stages from `i` on applied in order to `v`, with one window per
/// stage: the value that comes out and the windows afterwards.
pub open spec fn spec_apply_from<'a, F: Callable<V>, V, K: KernelRegistry<V>>(
    stages: Seq<Operator<'a, F, V>>,
    kernels: K,
    windows: Seq<Seq<V>>,
    v: Option<V>,
    i: int,
) -> (Option<V>, Seq<Seq<V>>)
    decreases stages.len() - i,
{
    if i < 0 || i >= stages.len() {
        (v, windows)
    } else {
        match v {
            None => (None, windows),
            Some(x) => {
                let (out, w) = spec_stage(stages[i], kernels, windows[i], x);
                spec_apply_from(stages, kernels, windows.update(i, w), out, i + 1)
            },
        }
    }
}

/// Per-subscription state of a pipeline: one window per stage.
pub struct PipelineState<V> {
    windows: Vec<Vec<V>>,
}

/// `n` empty windows.
pub open spec fn empty_windows<V>(n: nat) -> Seq<Seq<V>> {
    Seq::new(n, |i: int| Seq::<V>::empty())
}

/// The contents of each window.
pub open spec fn window_views<V>(windows: Seq<Vec<V>>) -> Seq<Seq<V>> {
    windows.map_values(|w: Vec<V>| w@)
}

impl<V> PipelineState<V> {
    pub closed spec fn spec_windows(&self) -> Seq<Seq<V>> {
        window_views(self.windows@)
    }

    /// Empty windows for a pipeline of `stages` stages.
    pub fn new(stages: usize) -> (r: Self)
        ensures
            r.spec_windows() == empty_windows::<V>(stages as nat),
    {
        let mut windows: Vec<Vec<V>> = Vec::new();
        let mut i: usize = 0;
        while i < stages
            invariant
                i <= stages,
                windows@.len() == i,
                window_views(windows@) == empty_windows::<V>(i as nat),
            decreases stages - i,
        {
            let ghost before = windows@;
            let fresh: Vec<V> = Vec::new();
            windows.push(fresh);
            proof {
                assert(windows@ == before.push(fresh));
                assert forall|j: int| 0 <= j < i + 1 implies window_views(windows@)[j] == empty_windows::<V>((i + 1) as nat)[j] by {
                    if j < i {
                        assert(window_views(before)[j] == empty_windows::<V>(i as nat)[j]);
                    }
                }
                assert(window_views(windows@) =~= empty_windows::<V>((i + 1) as nat));
            }
            i = i + 1;
        }
        PipelineState { windows }
    }
}

/// What a source failure `e` gives the observer: always the error itself;
/// then, when a rescue handler is attached and returns a value for `e`, that
/// value as the next one.
pub open spec fn spec_failure_events<'a, F: Callable<V>, V>(handler: Option<&'a F>, e: V) -> Seq<Event<V>> {
    match handler {
        Some(h) => match h.spec_call(e) {
            Some(v) => seq![Event::Error(e), Event::Next(v)],
            None => seq![Event::Error(e)],
        },
        None => seq![Event::Error(e)],
    }
}

/// What handing `item` to a pipeline gives: the events for the observer,
/// the windows afterwards, and whether the subscription goes on.
pub open spec fn spec_deliver<'a, F: Callable<V>, V, K: KernelRegistry<V>>(
    pipeline: RiverCore<'a, F, V>,
    kernels: K,
    windows: Seq<Seq<V>>,
    item: SourceItem<V>,
) -> (Seq<Event<V>>, Seq<Seq<V>>, bool) {
    match item {
        SourceItem::Value(v) => {
            let (out, w) = pipeline.spec_apply(kernels, windows, v);
            (
                match out {
                    Some(x) => seq![Event::Next(x)],
                    None => Seq::empty(),
                },
                w,
                true,
            )
        },
        SourceItem::Failure(e) => (
            spec_failure_events(pipeline.spec_handler(), e),
            windows,
            !pipeline.spec_terminates(),
        ),
        SourceItem::Done => (seq![Event::Complete], windows, false),
    }
}

/// One step of a subscription that is `active`, when the cancellation
/// signal reads `aborted`: a cancelled subscription receives nothing more.
/// Gives the events, the windows afterwards, and whether it stays active.
pub open spec fn spec_pump<'a, F: Callable<V>, V, K: KernelRegistry<V>>(
    pipeline: RiverCore<'a, F, V>,
    kernels: K,
    windows: Seq<Seq<V>>,
    active: bool,
    aborted: bool,
    item: SourceItem<V>,
) -> (Seq<Event<V>>, Seq<Seq<V>>, bool) {
    if !active || aborted {
        (Seq::empty(), windows, false)
    } else {
        spec_deliver(pipeline, kernels, windows, item)
    }
}

/// The events for `values` handed to the pipeline in order, and the windows
/// afterwards.
pub open spec fn spec_run_values<'a, F: Callable<V>, V, K: KernelRegistry<V>>(
    pipeline: RiverCore<'a, F, V>,
    kernels: K,
    windows: Seq<Seq<V>>,
    values: Seq<V>,
) -> (Seq<Event<V>>, Seq<Seq<V>>)
    decreases values.len(),
{
    if values.len() == 0 {
        (Seq::empty(), windows)
    } else {
        let (events, w) = spec_run_values(pipeline, kernels, windows, values.drop_last());
        let (more, w2, _) = spec_deliver(pipeline, kernels, w, SourceItem::Value(values.last()));
        (events + more, w2)
    }
}

/// What a source yields: a value, a failure, or the end.
pub enum SourceItem<V> {
    Value(V),
    Failure(V),
    Done,
}

/// The handle of a subscription: `Active` until it is unsubscribed, cancelled
/// or its source ends, then `Cancelled` for good.
pub struct SubscriptionHandle {
    pub id: String,
    active: bool,
}

/// Relies on `uuid::Uuid::new_v4` and the `Display` impl of `Uuid`: a random
/// id in hyphenated form, 36 characters.
#[verifier::external_body]
fn fresh_id() -> (r: String)
    ensures
        r@.len() == 36,
{
    uuid::Uuid::new_v4().to_string()
}

impl SubscriptionHandle {
    pub closed spec fn spec_active(&self) -> bool {
        self.active
    }

    pub closed spec fn spec_id(&self) -> Seq<char> {
        self.id@
    }

    /// A new active subscription with a fresh random id.
    pub fn new() -> (r: Self)
        ensures
            r.spec_active(),
            r.spec_id().len() == 36,
    {
        SubscriptionHandle { id: fresh_id(), active: true }
    }

    /// Cancels the subscription; nothing more reaches its observer.
    pub fn unsubscribe(&mut self)
        ensures
            !final(self).spec_active(),
            final(self).spec_id() == old(self).spec_id(),
    {
        self.active = false;
    }

    pub fn is_active(&self) -> (r: bool)
        ensures
            r == self.spec_active(),
    {
        self.active
    }
}

proof fn lemma_apply_keeps_len<'a, F: Callable<V>, V, K: KernelRegistry<V>>(
    pipeline: RiverCore<'a, F, V>,
    kernels: K,
    windows: Seq<Seq<V>>,
    v: Option<V>,
    i: int,
)
    requires
        windows.len() == pipeline.spec_stages().len(),
    ensures
        spec_apply_from(pipeline.spec_stages(), kernels, windows, v, i).1.len() == windows.len(),
    decreases pipeline.spec_stages().len() - i,
{
    if 0 <= i < pipeline.spec_stages().len() {
        if let Some(x) = v {
            let (out, w) = spec_stage(pipeline.spec_stages()[i], kernels, windows[i], x);
            lemma_apply_keeps_len(pipeline, kernels, windows.update(i, w), out, i + 1);
        }
    }
}

/// A persistent sequence of stages with its error policy.
pub struct RiverCore<'a, F, V> {
    operators: Vec<Operator<'a, F, V>>,
    error_handler: Option<&'a F>,
    terminate_on_error: bool,
}

impl<'a, F: Callable<V>, V> RiverCore<'a, F, V> {
    pub closed spec fn spec_stages(&self) -> Seq<Operator<'a, F, V>> {
        self.operators@
    }

    pub closed spec fn spec_handler(&self) -> Option<&'a F> {
        self.error_handler
    }

    pub closed spec fn spec_terminates(&self) -> bool {
        self.terminate_on_error
    }

    /// The value `v` becomes, and the windows afterwards.
    pub open spec fn spec_apply<K: KernelRegistry<V>>(&self, kernels: K, windows: Seq<Seq<V>>, v: V) -> (Option<V>, Seq<Seq<V>>) {
        spec_apply_from(self.spec_stages(), kernels, windows, Some(v), 0)
    }

    /// A pipeline with no stages, no rescue handler, that keeps going after
    /// source failures.
    pub fn new() -> (r: Self)
        ensures
            r.spec_stages().len() == 0,
            r.spec_handler() is None,
            !r.spec_terminates(),
    {
        RiverCore { operators: Vec::new(), error_handler: None, terminate_on_error: false }
    }

    fn copy_operators(&self) -> (r: Vec<Operator<'a, F, V>>)
        ensures
            r@ == self.spec_stages(),
    {
        let mut operators: Vec<Operator<'a, F, V>> = Vec::new();
        let mut i: usize = 0;
        while i < self.operators.len()
            invariant
                i <= self.operators.len(),
                operators@ == self.operators@.subrange(0, i as int),
            decreases self.operators.len() - i,
        {
            operators.push(copy_stage(&self.operators[i]));
            i = i + 1;
            assert(operators@ =~= self.operators@.subrange(0, i as int));
        }
        assert(operators@ =~= self.operators@);
        operators
    }

    /// A copy of this pipeline with `stage` appended.
    fn with_stage(&self, stage: Operator<'a, F, V>) -> (r: Self)
        ensures
            r.spec_stages() == self.spec_stages().push(stage),
            r.spec_handler() == self.spec_handler(),
            r.spec_terminates() == self.spec_terminates(),
    {
        let mut operators = self.copy_operators();
        operators.push(stage);
        RiverCore { operators, error_handler: self.error_handler, terminate_on_error: self.terminate_on_error }
    }

    /// A new pipeline that applies `mapper` after this one's stages. This
    /// pipeline keeps its own stages.
    pub fn map(&self, mapper: &'a F) -> (r: Self)
        ensures
            r.spec_stages() == self.spec_stages().push(Operator::Transform(mapper)),
            r.spec_handler() == self.spec_handler(),
            r.spec_terminates() == self.spec_terminates(),
    {
        self.with_stage(Operator::Transform(mapper))
    }

    /// A new pipeline that keeps only the values on which `predicate` holds.
    pub fn filter(&self, predicate: &'a F) -> (r: Self)
        ensures
            r.spec_stages() == self.spec_stages().push(Operator::Filter(predicate)),
            r.spec_handler() == self.spec_handler(),
            r.spec_terminates() == self.spec_terminates(),
    {
        self.with_stage(Operator::Filter(predicate))
    }

    /// A new pipeline that runs the registry's kernel `kernel_name` with
    /// `params` on each value.
    pub fn map_wasm(&self, kernel_name: &'a str, params: &'a V) -> (r: Self)
        ensures
            r.spec_stages() == self.spec_stages().push(Operator::MapWasm(kernel_name, params)),
            r.spec_handler() == self.spec_handler(),
            r.spec_terminates() == self.spec_terminates(),
    {
        self.with_stage(Operator::MapWasm(kernel_name, params))
    }

    /// A new pipeline that emits the aggregate `operation` of the last
    /// `window_size` values.
    pub fn windowed_aggregate(&self, window_size: usize, operation: &'a str) -> (r: Self)
        ensures
            r.spec_stages() == self.spec_stages().push(Operator::WindowedAggregate(window_size, operation)),
            r.spec_handler() == self.spec_handler(),
            r.spec_terminates() == self.spec_terminates(),
    {
        self.with_stage(Operator::WindowedAggregate(window_size, operation))
    }

    pub fn stage_count(&self) -> (r: usize)
        ensures
            r == self.spec_stages().len(),
    {
        self.operators.len()
    }

    pub fn has_rescue(&self) -> (r: bool)
        ensures
            r == self.spec_handler() is Some,
    {
        self.error_handler.is_some()
    }

    pub fn terminates_on_error(&self) -> (r: bool)
        ensures
            r == self.spec_terminates(),
    {
        self.terminate_on_error
    }

    /// Fresh state for one subscription to this pipeline.
    pub fn start(&self) -> (r: PipelineState<V>)
        ensures
            r.spec_windows() == empty_windows::<V>(self.spec_stages().len()),
    {
        PipelineState::new(self.operators.len())
    }

    fn apply_stage<K: KernelRegistry<V>>(&self, i: usize, state: &mut PipelineState<V>, kernels: &K, v: V) -> (r: Option<V>)
        requires
            i < self.spec_stages().len(),
            old(state).spec_windows().len() == self.spec_stages().len(),
        ensures
            ({
                let (out, w) = spec_stage(self.spec_stages()[i as int], *kernels, old(state).spec_windows()[i as int], v);
                r == out && final(state).spec_windows() == old(state).spec_windows().update(i as int, w)
            }),
    {
        match &self.operators[i] {
            Operator::Transform(f) => f.call(&v),
            Operator::Filter(f) => match f.test(&v) {
                Some(true) => Some(v),
                _ => None,
            },
            Operator::FilterOut(f) => match f.test(&v) {
                Some(false) => Some(v),
                _ => None,
            },
            Operator::MapWasm(name, params) => kernels.run_kernel(name, params, &v),
            Operator::WindowedAggregate(size, op) => {
                let ghost before = state.windows@;
                let mut w = state.windows.remove(i);
                assert(w@ == old(state).spec_windows()[i as int]);
                if w.len() >= *size && w.len() > 0 {
                    w.remove(0);
                }
                w.push(v);
                let out = if w.len() == *size {
                    kernels.aggregate(op, w.as_slice())
                } else {
                    None
                };
                state.windows.insert(i, w);
                proof {
                    assert(state.windows@ =~= before.update(i as int, w));
                    assert(window_views(state.windows@) =~= window_views(before).update(i as int, w@));
                    assert(w@ =~= spec_window_push(old(state).spec_windows()[i as int], *size as nat, v));
                }
                out
            },
        }
    }

    /// Folds `value` through the stages in order. A stage that drops the
    /// value ends the fold, and the stages after it see nothing.
    pub fn apply_operators<K: KernelRegistry<V>>(&self, state: &mut PipelineState<V>, kernels: &K, value: V) -> (r: Option<V>)
        requires
            old(state).spec_windows().len() == self.spec_stages().len(),
        ensures
            (r, final(state).spec_windows()) == self.spec_apply(*kernels, old(state).spec_windows(), value),
    {
        let mut current: Option<V> = Some(value);
        let mut i: usize = 0;
        while i < self.operators.len()
            invariant
                i <= self.operators.len(),
                state.spec_windows().len() == self.spec_stages().len(),
                spec_apply_from(self.spec_stages(), *kernels, state.spec_windows(), current, i as int)
                    == self.spec_apply(*kernels, old(state).spec_windows(), value),
            decreases self.operators.len() - i,
        {
            let x = match current {
                Some(x) => x,
                None => return None,
            };
            current = self.apply_stage(i, state, kernels, x);
            i = i + 1;
        }
        current
    }

    /// Hands one item of the source to the pipeline and the observer. Says
    /// whether the subscription goes on.
    pub fn deliver<K: KernelRegistry<V>, O: Observer<V>>(
        &self,
        state: &mut PipelineState<V>,
        kernels: &K,
        item: SourceItem<V>,
        observer: &mut O,
    ) -> (go_on: bool)
        requires
            old(state).spec_windows().len() == self.spec_stages().len(),
        ensures
            ({
                let (events, w, go) = spec_deliver(*self, *kernels, old(state).spec_windows(), item);
                &&& final(observer).spec_events() == old(observer).spec_events() + events
                &&& final(state).spec_windows() == w
                &&& go_on == go
            }),
            final(state).spec_windows().len() == self.spec_stages().len(),
    {
        let ghost log = observer.spec_events();
        match item {
            SourceItem::Value(v) => {
                match self.apply_operators(state, kernels, v) {
                    Some(x) => observer.on_next(x),
                    None => {
                        assert(observer.spec_events() =~= log + Seq::<Event<V>>::empty());
                    },
                }
                proof { lemma_apply_keeps_len(*self, *kernels, old(state).spec_windows(), Some(v), 0); }
                true
            },
            SourceItem::Failure(e) => {
                let rescued = match self.error_handler {
                    Some(h) => h.call(&e),
                    None => None,
                };
                observer.on_error(e);
                match rescued {
                    Some(x) => observer.on_next(x),
                    None => {},
                }
                assert(observer.spec_events() =~= log + spec_failure_events(self.spec_handler(), e));
                !self.terminate_on_error
            },
            SourceItem::Done => {
                observer.on_complete();
                false
            },
        }
    }

    /// One step of a subscription: unless it has been cancelled (by
    /// `unsubscribe` or by the signal reading `aborted`), hands `item` on.
    /// The subscription ends when the source ends, or at a source failure
    /// under `terminate_on_error`.
    pub fn pump<K: KernelRegistry<V>, O: Observer<V>>(
        &self,
        subscription: &mut SubscriptionHandle,
        state: &mut PipelineState<V>,
        kernels: &K,
        aborted: bool,
        item: SourceItem<V>,
        observer: &mut O,
    )
        requires
            old(state).spec_windows().len() == self.spec_stages().len(),
        ensures
            ({
                let (events, w, active) = spec_pump(
                    *self,
                    *kernels,
                    old(state).spec_windows(),
                    old(subscription).spec_active(),
                    aborted,
                    item,
                );
                &&& final(observer).spec_events() == old(observer).spec_events() + events
                &&& final(state).spec_windows() == w
                &&& final(subscription).spec_active() == active
            }),
            final(subscription).spec_id() == old(subscription).spec_id(),
            final(state).spec_windows().len() == self.spec_stages().len(),
    {
        if !subscription.active || aborted {
            subscription.active = false;
            assert(observer.spec_events() =~= old(observer).spec_events() + Seq::<Event<V>>::empty());
        } else {
            let go_on = self.deliver(state, kernels, item, observer);
            subscription.active = go_on;
        }
    }

    /// Subscribes `observer` to the values of `source`, in order. Before each
    /// value, and once more before completion, the signal is asked whether to
    /// stop; at its first "yes" the drain stops and nothing more, completion
    /// included, reaches the observer. Otherwise every value is handed on and
    /// the observer is told that the source is complete. The returned handle
    /// is no longer active.
    pub fn observe<K: KernelRegistry<V>, O: Observer<V>, C: CancelSignal>(
        &self,
        kernels: &K,
        source: Vec<V>,
        observer: &mut O,
        signal: &mut C,
    ) -> (r: SubscriptionHandle)
        ensures
            !r.spec_active(),
            stops_at_first_abort(old(signal).spec_answers(), final(signal).spec_answers()),
            ({
                let asked = new_answers(old(signal).spec_answers(), final(signal).spec_answers());
                let start = empty_windows::<V>(self.spec_stages().len());
                if asked.last() {
                    &&& asked.len() - 1 <= source@.len()
                    &&& final(observer).spec_events() == old(observer).spec_events()
                        + spec_run_values(*self, *kernels, start, source@.subrange(0, asked.len() - 1)).0
                } else {
                    &&& asked.len() == source@.len() + 1
                    &&& final(observer).spec_events() == old(observer).spec_events()
                        + spec_run_values(*self, *kernels, start, source@).0 + seq![Event::<V>::Complete]
                }
            }),
    {
        let mut subscription = SubscriptionHandle::new();
        let mut state = self.start();
        let ghost start = state.spec_windows();
        let ghost log = observer.spec_events();
        let ghost values = source@;
        let ghost a0 = signal.spec_answers();
        let n = source.len();
        let mut rest = source;
        let mut i: usize = 0;
        assert(values.subrange(0, 0) =~= Seq::<V>::empty());
        assert(signal.spec_answers().subrange(0, a0.len() as int) =~= a0);
        while rest.len() > 0
            invariant
                subscription.spec_active(),
                n == values.len(),
                i <= n,
                rest@ == values.subrange(i as int, n as int),
                values == source@,
                log == old(observer).spec_events(),
                a0 == old(signal).spec_answers(),
                signal.spec_answers().len() == a0.len() + i,
                signal.spec_answers().subrange(0, a0.len() as int) == a0,
                forall|j: int| a0.len() <= j < signal.spec_answers().len() ==> !#[trigger] signal.spec_answers()[j],
                state.spec_windows().len() == self.spec_stages().len(),
                start == empty_windows::<V>(self.spec_stages().len()),
                observer.spec_events() == log + spec_run_values(*self, *kernels, start, values.subrange(0, i as int)).0,
                state.spec_windows() == spec_run_values(*self, *kernels, start, values.subrange(0, i as int)).1,
            decreases rest.len(),
        {
            let ghost prev = signal.spec_answers();
            let stop = signal.aborted();
            proof {
                assert(signal.spec_answers().subrange(0, a0.len() as int) =~= prev.subrange(0, a0.len() as int));
                assert(new_answers(a0, signal.spec_answers()) =~= new_answers(a0, prev).push(stop));
            }
            if stop {
                subscription.unsubscribe();
                assert(observer.spec_events() =~= log + spec_run_values(*self, *kernels, start, values.subrange(0, i as int)).0);
                return subscription;
            }
            let v = rest.remove(0);
            proof {
                assert(v == values[i as int]);
                let next = values.subrange(0, i as int + 1);
                assert(next.drop_last() =~= values.subrange(0, i as int));
                assert(next.last() == v);
                assert(rest@ =~= values.subrange(i as int + 1, n as int));
            }
            self.deliver(&mut state, kernels, SourceItem::Value(v), observer);
            proof {
                let prev_run = spec_run_values(*self, *kernels, start, values.subrange(0, i as int));
                let (more, _, _) = spec_deliver(*self, *kernels, prev_run.1, SourceItem::Value(v));
                assert(observer.spec_events() =~= log + (prev_run.0 + more));
            }
            i = i + 1;
        }
        assert(values.subrange(0, n as int) =~= values);
        let ghost prev = signal.spec_answers();
        let stop = signal.aborted();
        proof {
            assert(signal.spec_answers().subrange(0, a0.len() as int) =~= prev.subrange(0, a0.len() as int));
            assert(new_answers(a0, signal.spec_answers()) =~= new_answers(a0, prev).push(stop));
        }
        if stop {
            subscription.unsubscribe();
            return subscription;
        }
        self.deliver(&mut state, kernels, SourceItem::Done, observer);
        subscription.unsubscribe();
        assert(observer.spec_events() =~= log + spec_run_values(*self, *kernels, start, values).0
            + seq![Event::<V>::Complete]);
        subscription
    }

    /// A new pipeline whose source failures are also handed to `handler`.
    pub fn rescue(&self, handler: &'a F) -> (r: Self)
        ensures
            r.spec_stages() == self.spec_stages(),
            r.spec_handler() == Some(handler),
            r.spec_terminates() == self.spec_terminates(),
    {
        RiverCore {
            operators: self.copy_operators(),
            error_handler: Some(handler),
            terminate_on_error: self.terminate_on_error,
        }
    }

    /// A pipeline that merges the values of `self`'s source with those of
    /// `other`'s, each handled by its own pipeline (see `MergedRiver`).
    pub fn merge(&self, other: &Self) -> (r: MergedRiver<'a, F, V>)
        ensures
            r.spec_left().spec_stages() == self.spec_stages(),
            r.spec_left().spec_handler() == self.spec_handler(),
            r.spec_left().spec_terminates() == self.spec_terminates(),
            r.spec_right().spec_stages() == other.spec_stages(),
            r.spec_right().spec_handler() == other.spec_handler(),
            r.spec_right().spec_terminates() == other.spec_terminates(),
    {
        MergedRiver {
            left: RiverCore {
                operators: self.copy_operators(),
                error_handler: self.error_handler,
                terminate_on_error: self.terminate_on_error,
            },
            right: RiverCore {
                operators: other.copy_operators(),
                error_handler: other.error_handler,
                terminate_on_error: other.terminate_on_error,
            },
        }
    }

    /// Two new pipelines that split the values of this one: the first keeps
    /// those on which `predicate` holds, the second those on which it does
    /// not. A value on which the predicate fails goes to neither.
    pub fn fork(&self, predicate: &'a F) -> (r: (Self, Self))
        ensures
            r.0.spec_stages() == self.spec_stages().push(Operator::Filter(predicate)),
            r.1.spec_stages() == self.spec_stages().push(Operator::FilterOut(predicate)),
            r.0.spec_handler() == self.spec_handler(),
            r.1.spec_handler() == self.spec_handler(),
            r.0.spec_terminates() == self.spec_terminates(),
            r.1.spec_terminates() == self.spec_terminates(),
    {
        (self.with_stage(Operator::Filter(predicate)), self.with_stage(Operator::FilterOut(predicate)))
    }

    /// A new pipeline that stops at the first source failure.
    pub fn terminate_on_error(&self) -> (r: Self)
        ensures
            r.spec_stages() == self.spec_stages(),
            r.spec_handler() == self.spec_handler(),
            r.spec_terminates(),
    {
        RiverCore { operators: self.copy_operators(), error_handler: self.error_handler, terminate_on_error: true }
    }
}

/// The two halves of a fork partition the values: none passes both final
/// filters, and every value on which the predicate can be evaluated passes
/// one of them.
pub proof fn lemma_fork_partitions<'a, F: Callable<V>, V, K: KernelRegistry<V>>(
    predicate: &'a F,
    kernels: K,
    window: Seq<V>,
    v: V,
)
    ensures
        ({
            let kept = spec_stage(Operator::<'a, F, V>::Filter(predicate), kernels, window, v).0;
            let rest = spec_stage(Operator::<'a, F, V>::FilterOut(predicate), kernels, window, v).0;
            &&& !(kept is Some && rest is Some)
            &&& predicate.spec_test(v) is Some ==> (kept is Some || rest is Some)
            &&& kept is Some ==> kept == Some(v)
            &&& rest is Some ==> rest == Some(v)
        }),
{
    let kept = spec_stage(Operator::<'a, F, V>::Filter(predicate), kernels, window, v).0;
    let rest = spec_stage(Operator::<'a, F, V>::FilterOut(predicate), kernels, window, v).0;
    assert(kept == (if predicate.spec_test(v) == Some(true) { Some(v) } else { None }));
    assert(rest == (if predicate.spec_test(v) == Some(false) { Some(v) } else { None }));
    if let Some(b) = predicate.spec_test(v) {
        if b {
            assert(kept is Some);
        } else {
            assert(rest is Some);
        }
    }
}

/// The events, windows and activity after handing each of `items` to `pump`
/// in turn, with a signal that does not abort.
pub open spec fn spec_pump_all<'a, F: Callable<V>, V, K: KernelRegistry<V>>(
    pipeline: RiverCore<'a, F, V>,
    kernels: K,
    windows: Seq<Seq<V>>,
    active: bool,
    items: Seq<SourceItem<V>>,
) -> (Seq<Event<V>>, Seq<Seq<V>>, bool)
    decreases items.len(),
{
    if items.len() == 0 {
        (Seq::empty(), windows, active)
    } else {
        let (events, w, a) = spec_pump_all(pipeline, kernels, windows, active, items.drop_last());
        let (more, w2, a2) = spec_pump(pipeline, kernels, w, a, false, items.last());
        (events + more, w2, a2)
    }
}

/// After `unsubscribe`, however many items the source still yields, none
/// reaches the observer and the subscription stays cancelled.
pub proof fn lemma_unsubscribed_stays_silent<'a, F: Callable<V>, V, K: KernelRegistry<V>>(
    pipeline: RiverCore<'a, F, V>,
    kernels: K,
    windows: Seq<Seq<V>>,
    items: Seq<SourceItem<V>>,
)
    ensures
        spec_pump_all(pipeline, kernels, windows, false, items) == (Seq::<Event<V>>::empty(), windows, false),
    decreases items.len(),
{
    if items.len() > 0 {
        lemma_unsubscribed_stays_silent(pipeline, kernels, windows, items.drop_last());
        assert(Seq::<Event<V>>::empty() + Seq::<Event<V>>::empty() =~= Seq::<Event<V>>::empty());
    }
}

/// Functions on `i64` values: `Scale` and `Offset` are transforms, which
/// fail on overflow; `Above` and `Below` are predicates. Invoking a
/// transform as a predicate, or a predicate as a transform, fails.
#[derive(Clone, Copy, Debug)]
pub enum IntFn {
    Scale(i64),
    Offset(i64),
    Above(i64),
    Below(i64),
}

/// `x` as an `i64`, when it fits.
pub open spec fn fit_i64(x: int) -> Option<i64> {
    if i64::MIN <= x <= i64::MAX {
        Some(x as i64)
    } else {
        None
    }
}

fn checked_i64(x: i128) -> (r: Option<i64>)
    ensures
        r == fit_i64(x as int),
{
    if -0x8000_0000_0000_0000i128 <= x && x <= 0x7fff_ffff_ffff_ffffi128 {
        Some(x as i64)
    } else {
        None
    }
}

impl Callable<i64> for IntFn {
    open spec fn spec_call(&self, v: i64) -> Option<i64> {
        match *self {
            IntFn::Scale(k) => fit_i64(v * k),
            IntFn::Offset(k) => fit_i64(v + k),
            _ => None,
        }
    }

    open spec fn spec_test(&self, v: i64) -> Option<bool> {
        match *self {
            IntFn::Above(k) => Some(v > k),
            IntFn::Below(k) => Some(v < k),
            _ => None,
        }
    }

    fn call(&self, v: &i64) -> (r: Option<i64>) {
        match *self {
            IntFn::Scale(k) => {
                assert(i64::MIN * i64::MAX <= (*v as int) * (k as int) <= i64::MIN * i64::MIN) by (nonlinear_arith);
                checked_i64((*v as i128) * (k as i128))
            },
            IntFn::Offset(k) => checked_i64((*v as i128) + (k as i128)),
            _ => None,
        }
    }

    fn test(&self, v: &i64) -> (r: Option<bool>) {
        match *self {
            IntFn::Above(k) => Some(*v > k),
            IntFn::Below(k) => Some(*v < k),
            _ => None,
        }
    }
}

/// The sum of `s`, or `None` if a partial sum, taken front to back, leaves
/// the `i64` range.
pub open spec fn checked_sum(s: Seq<i64>) -> Option<i64>
    decreases s.len(),
{
    if s.len() == 0 {
        Some(0)
    } else {
        match checked_sum(s.drop_last()) {
            Some(t) => fit_i64(t + s.last()),
            None => None,
        }
    }
}

/// The largest value of a non-empty `s`.
pub open spec fn seq_max(s: Seq<i64>) -> i64
    decreases s.len(),
{
    if s.len() <= 1 {
        s[0]
    } else if s.last() > seq_max(s.drop_last()) {
        s.last()
    } else {
        seq_max(s.drop_last())
    }
}

/// The smallest value of a non-empty `s`.
pub open spec fn seq_min(s: Seq<i64>) -> i64
    decreases s.len(),
{
    if s.len() <= 1 {
        s[0]
    } else if s.last() < seq_min(s.drop_last()) {
        s.last()
    } else {
        seq_min(s.drop_last())
    }
}

/// Kernels over `i64` values: `"scale"` multiplies by its parameter (failing
/// on overflow); the aggregates are `"sum"` (failing on overflow), `"max"`
/// and `"min"`, each failing on an empty window.
pub struct IntKernels;

impl KernelRegistry<i64> for IntKernels {
    open spec fn spec_kernel(&self, name: Seq<char>, params: i64, v: i64) -> Option<i64> {
        if name == seq!['s', 'c', 'a', 'l', 'e'] {
            fit_i64(v * params)
        } else {
            None
        }
    }

    open spec fn spec_aggregate(&self, op: Seq<char>, window: Seq<i64>) -> Option<i64> {
        if op == seq!['s', 'u', 'm'] {
            checked_sum(window)
        } else if window.len() == 0 {
            None
        } else if op == seq!['m', 'a', 'x'] {
            Some(seq_max(window))
        } else if op == seq!['m', 'i', 'n'] {
            Some(seq_min(window))
        } else {
            None
        }
    }

    fn run_kernel(&self, name: &str, params: &i64, v: &i64) -> (r: Option<i64>) {
        proof {
            reveal_strlit("scale");
            assert("scale"@ == seq!['s', 'c', 'a', 'l', 'e']);
        }
        if text_is(name, "scale") {
            assert(i64::MIN * i64::MAX <= (*v as int) * (*params as int) <= i64::MIN * i64::MIN) by (nonlinear_arith);
            checked_i64((*v as i128) * (*params as i128))
        } else {
            None
        }
    }

    fn aggregate(&self, op: &str, window: &[i64]) -> (r: Option<i64>) {
        proof {
            reveal_strlit("sum");
            reveal_strlit("max");
            reveal_strlit("min");
            assert("sum"@ == seq!['s', 'u', 'm']);
            assert("max"@ == seq!['m', 'a', 'x']);
            assert("min"@ == seq!['m', 'i', 'n']);
        }
        if text_is(op, "sum") {
            let mut total: i64 = 0;
            let mut i: usize = 0;
            while i < window.len()
                invariant
                    i <= window@.len(),
                    op@ == seq!['s', 'u', 'm'],
                    checked_sum(window@.subrange(0, i as int)) == Some(total),
                decreases window.len() - i,
            {
                proof {
                    assert(window@.subrange(0, i as int + 1).drop_last() =~= window@.subrange(0, i as int));
                }
                match checked_i64(total as i128 + window[i] as i128) {
                    Some(t) => total = t,
                    None => {
                        proof { lemma_checked_sum_stays_none(window@, i as int + 1); }
                        return None;
                    },
                }
                i = i + 1;
            }
            assert(window@.subrange(0, i as int) =~= window@);
            Some(total)
        } else if window.len() == 0 {
            None
        } else if text_is(op, "max") || text_is(op, "min") {
            let want_max = text_is(op, "max");
            let mut best: i64 = window[0];
            let mut i: usize = 1;
            assert(window@.subrange(0, 1).len() == 1);
            while i < window.len()
                invariant
                    1 <= i <= window@.len(),
                    want_max ==> best == seq_max(window@.subrange(0, i as int)),
                    !want_max ==> best == seq_min(window@.subrange(0, i as int)),
                decreases window.len() - i,
            {
                proof {
                    assert(window@.subrange(0, i as int + 1).drop_last() =~= window@.subrange(0, i as int));
                }
                if (want_max && window[i] > best) || (!want_max && window[i] < best) {
                    best = window[i];
                }
                i = i + 1;
            }
            assert(window@.subrange(0, i as int) =~= window@);
            Some(best)
        } else {
            None
        }
    }
}

proof fn lemma_checked_sum_stays_none(s: Seq<i64>, n: int)
    requires
        0 < n <= s.len(),
        checked_sum(s.subrange(0, n)) is None,
    ensures
        checked_sum(s) is None,
    decreases s.len() - n,
{
    if n < s.len() {
        assert(s.subrange(0, n + 1).drop_last() =~= s.subrange(0, n));
        lemma_checked_sum_stays_none(s, n + 1);
    } else {
        assert(s.subrange(0, n) =~= s);
    }
}

/// Whether `a` and `b` hold the same text.
fn text_is(a: &str, b: &str) -> (r: bool)
    ensures
        r == (a@ == b@),
{
    let x = a.as_bytes();
    let y = b.as_bytes();
    assert(x@ == encode_utf8(a@));
    assert(y@ == encode_utf8(b@));
    if x.len() != y.len() {
        return false;
    }
    let mut i: usize = 0;
    while i < x.len()
        invariant
            x@.len() == y@.len(),
            x@ == encode_utf8(a@),
            y@ == encode_utf8(b@),
            i <= x@.len(),
            forall|j: int| 0 <= j < i ==> x@[j] == y@[j],
        decreases x.len() - i,
    {
        if x[i] != y[i] {
            return false;
        }
        i = i + 1;
    }
    proof {
        assert(x@ =~= y@);
        assert(decode_utf8(encode_utf8(a@)) == decode_utf8(encode_utf8(b@)));
    }
    true
}

/// The values of `a` and `b` taken in turn, starting with `a`; once one runs
/// out, the rest of the other follows. Each is tagged `true` when it comes
/// from `a`.
pub open spec fn spec_interleave<V>(a: Seq<V>, b: Seq<V>) -> Seq<(bool, V)>
    decreases a.len() + b.len(),
{
    if a.len() == 0 {
        b.map_values(|v: V| (false, v))
    } else if b.len() == 0 {
        a.map_values(|v: V| (true, v))
    } else {
        seq![(true, a[0]), (false, b[0])] + spec_interleave(a.drop_first(), b.drop_first())
    }
}

proof fn lemma_interleave_one_side<V>(a: Seq<V>, b: Seq<V>)
    requires
        a.len() == 0 || b.len() == 0,
        a.len() + b.len() > 0,
    ensures
        a.len() > 0 ==> spec_interleave(a, b) == seq![(true, a[0])] + spec_interleave(a.drop_first(), b),
        b.len() > 0 ==> spec_interleave(a, b) == seq![(false, b[0])] + spec_interleave(a, b.drop_first()),
{
    if a.len() > 0 {
        if a.len() == 1 {
            assert(a.drop_first().map_values(|v: V| (true, v)) =~= Seq::<(bool, V)>::empty());
            assert(b.map_values(|v: V| (false, v)) =~= Seq::<(bool, V)>::empty());
        }
        assert(spec_interleave(a, b) =~= seq![(true, a[0])] + spec_interleave(a.drop_first(), b));
    } else {
        if b.len() == 1 {
            assert(b.drop_first().map_values(|v: V| (false, v)) =~= Seq::<(bool, V)>::empty());
        }
        assert(spec_interleave(a, b) =~= seq![(false, b[0])] + spec_interleave(a, b.drop_first()));
    }
}

/// Interleaves `a` and `b` as `spec_interleave` does.
pub fn interleave<V>(a: Vec<V>, b: Vec<V>) -> (r: Vec<(bool, V)>)
    ensures
        r@ == spec_interleave(a@, b@),
{
    let mut r: Vec<(bool, V)> = Vec::new();
    let mut a = a;
    let mut b = b;
    let ghost whole = spec_interleave(a@, b@);
    assert(r@ + spec_interleave(a@, b@) =~= whole);
    while a.len() > 0 && b.len() > 0
        invariant
            r@ + spec_interleave(a@, b@) == whole,
        decreases a.len() + b.len(),
    {
        let ghost (ra, rb) = (a@, b@);
        let x = a.remove(0);
        let y = b.remove(0);
        r.push((true, x));
        r.push((false, y));
        proof {
            assert(a@ =~= ra.drop_first());
            assert(b@ =~= rb.drop_first());
            assert(r@ + spec_interleave(a@, b@) =~= whole);
        }
    }
    while a.len() > 0 || b.len() > 0
        invariant
            a@.len() == 0 || b@.len() == 0,
            r@ + spec_interleave(a@, b@) == whole,
        decreases a.len() + b.len(),
    {
        let ghost (ra, rb) = (a@, b@);
        proof { lemma_interleave_one_side(ra, rb); }
        if a.len() > 0 {
            let x = a.remove(0);
            r.push((true, x));
            proof {
                assert(a@ =~= ra.drop_first());
                assert(r@ + spec_interleave(a@, b@) =~= whole);
            }
        } else {
            let y = b.remove(0);
            r.push((false, y));
            proof {
                assert(b@ =~= rb.drop_first());
                assert(r@ + spec_interleave(a@, b@) =~= whole);
            }
        }
    }
    assert(spec_interleave(a@, b@) =~= Seq::<(bool, V)>::empty());
    assert(r@ =~= whole);
    r
}

/// Two pipelines drained together: their sources' values are taken in turn,
/// one from the left, then one from the right, and so on, and once one source
/// runs out the rest of the other follows. Each value goes through its own
/// side's pipeline; the observer sees the results in that order, then one
/// completion when both sources are done.
pub struct MergedRiver<'a, F, V> {
    left: RiverCore<'a, F, V>,
    right: RiverCore<'a, F, V>,
}

/// The events for the tagged `items` handed to the left (`true`) or right
/// pipeline in order, and both sides' windows afterwards.
pub open spec fn spec_run_merged<'a, F: Callable<V>, V, K: KernelRegistry<V>>(
    left: RiverCore<'a, F, V>,
    right: RiverCore<'a, F, V>,
    kernels: K,
    lw: Seq<Seq<V>>,
    rw: Seq<Seq<V>>,
    items: Seq<(bool, V)>,
) -> (Seq<Event<V>>, Seq<Seq<V>>, Seq<Seq<V>>)
    decreases items.len(),
{
    if items.len() == 0 {
        (Seq::empty(), lw, rw)
    } else {
        let (events, l, r) = spec_run_merged(left, right, kernels, lw, rw, items.drop_last());
        let (from_left, v) = items.last();
        if from_left {
            let (more, l2, _) = spec_deliver(left, kernels, l, SourceItem::Value(v));
            (events + more, l2, r)
        } else {
            let (more, r2, _) = spec_deliver(right, kernels, r, SourceItem::Value(v));
            (events + more, l, r2)
        }
    }
}

impl<'a, F: Callable<V>, V> MergedRiver<'a, F, V> {
    pub closed spec fn spec_left(&self) -> RiverCore<'a, F, V> {
        self.left
    }

    pub closed spec fn spec_right(&self) -> RiverCore<'a, F, V> {
        self.right
    }

    /// Subscribes `observer` to the merged values of `left_source` and
    /// `right_source`. Before each value, and once more before completion,
    /// the signal is asked whether to stop; at its first "yes" nothing more,
    /// completion included, reaches the observer. The returned handle is no
    /// longer active.
    pub fn observe<K: KernelRegistry<V>, O: Observer<V>, C: CancelSignal>(
        &self,
        kernels: &K,
        left_source: Vec<V>,
        right_source: Vec<V>,
        observer: &mut O,
        signal: &mut C,
    ) -> (r: SubscriptionHandle)
        ensures
            !r.spec_active(),
            stops_at_first_abort(old(signal).spec_answers(), final(signal).spec_answers()),
            ({
                let asked = new_answers(old(signal).spec_answers(), final(signal).spec_answers());
                let items = spec_interleave(left_source@, right_source@);
                let run = |k: int|
                    spec_run_merged(
                        self.spec_left(),
                        self.spec_right(),
                        *kernels,
                        empty_windows::<V>(self.spec_left().spec_stages().len()),
                        empty_windows::<V>(self.spec_right().spec_stages().len()),
                        items.subrange(0, k),
                    ).0;
                if asked.last() {
                    &&& asked.len() - 1 <= items.len()
                    &&& final(observer).spec_events() == old(observer).spec_events() + run(asked.len() - 1)
                } else {
                    &&& asked.len() == items.len() + 1
                    &&& final(observer).spec_events() == old(observer).spec_events() + run(items.len() as int)
                        + seq![Event::<V>::Complete]
                }
            }),
    {
        let mut subscription = SubscriptionHandle::new();
        let mut left_state = self.left.start();
        let mut right_state = self.right.start();
        let ghost lstart = left_state.spec_windows();
        let ghost rstart = right_state.spec_windows();
        let ghost log = observer.spec_events();
        let ghost a0 = signal.spec_answers();
        let mut rest = interleave(left_source, right_source);
        let ghost items = rest@;
        let n = rest.len();
        let mut i: usize = 0;
        assert(items.subrange(0, 0) =~= Seq::<(bool, V)>::empty());
        assert(signal.spec_answers().subrange(0, a0.len() as int) =~= a0);
        while rest.len() > 0
            invariant
                subscription.spec_active(),
                n == items.len(),
                i <= n,
                items == spec_interleave(left_source@, right_source@),
                log == old(observer).spec_events(),
                a0 == old(signal).spec_answers(),
                signal.spec_answers().len() == a0.len() + i,
                signal.spec_answers().subrange(0, a0.len() as int) == a0,
                forall|j: int| a0.len() <= j < signal.spec_answers().len() ==> !#[trigger] signal.spec_answers()[j],
                rest@ == items.subrange(i as int, n as int),
                left_state.spec_windows().len() == self.left.spec_stages().len(),
                right_state.spec_windows().len() == self.right.spec_stages().len(),
                lstart == empty_windows::<V>(self.left.spec_stages().len()),
                rstart == empty_windows::<V>(self.right.spec_stages().len()),
                ({
                    let (events, l, r) = spec_run_merged(self.left, self.right, *kernels, lstart, rstart, items.subrange(0, i as int));
                    &&& observer.spec_events() == log + events
                    &&& left_state.spec_windows() == l
                    &&& right_state.spec_windows() == r
                }),
            decreases rest.len(),
        {
            let ghost prev = signal.spec_answers();
            let stop = signal.aborted();
            proof {
                assert(signal.spec_answers().subrange(0, a0.len() as int) =~= prev.subrange(0, a0.len() as int));
                assert(new_answers(a0, signal.spec_answers()) =~= new_answers(a0, prev).push(stop));
            }
            if stop {
                subscription.unsubscribe();
                return subscription;
            }
            let (from_left, v) = rest.remove(0);
            proof {
                assert((from_left, v) == items[i as int]);
                let next = items.subrange(0, i as int + 1);
                assert(next.drop_last() =~= items.subrange(0, i as int));
                assert(next.last() == (from_left, v));
                assert(rest@ =~= items.subrange(i as int + 1, n as int));
            }
            if from_left {
                self.left.deliver(&mut left_state, kernels, SourceItem::Value(v), observer);
            } else {
                self.right.deliver(&mut right_state, kernels, SourceItem::Value(v), observer);
            }
            proof {
                let (events, l, r) = spec_run_merged(self.left, self.right, *kernels, lstart, rstart, items.subrange(0, i as int));
                if from_left {
                    let (more, _, _) = spec_deliver(self.left, *kernels, l, SourceItem::Value(v));
                    assert(observer.spec_events() =~= log + (events + more));
                } else {
                    let (more, _, _) = spec_deliver(self.right, *kernels, r, SourceItem::Value(v));
                    assert(observer.spec_events() =~= log + (events + more));
                }
            }
            i = i + 1;
        }
        assert(items.subrange(0, n as int) =~= items);
        let ghost prev = signal.spec_answers();
        let stop = signal.aborted();
        proof {
            assert(signal.spec_answers().subrange(0, a0.len() as int) =~= prev.subrange(0, a0.len() as int));
            assert(new_answers(a0, signal.spec_answers()) =~= new_answers(a0, prev).push(stop));
        }
        if stop {
            subscription.unsubscribe();
            return subscription;
        }
        observer.on_complete();
        subscription.unsubscribe();
        subscription
    }
}

} // verus!
