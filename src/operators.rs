//! A fixed-size window over the most recent values, and batch helpers.
use rayon::iter::IntoParallelIterator;
use rayon::iter::ParallelIterator;
use std::collections::VecDeque;
use vstd::prelude::*;
use vstd::slice::*;

use crate::river::spec_window_push;

verus! {

/// Keeps the last `window_size` values pushed, oldest first, together with
/// the name of the aggregate to compute over them.
pub struct WindowedOperator<T> {
    window_size: usize,
    buffer: VecDeque<T>,
    operation: String,
}

impl<T: Clone> WindowedOperator<T> {
    /// The values held, oldest first.
    pub closed spec fn spec_buffer(&self) -> Seq<T> {
        self.buffer@
    }

    pub closed spec fn spec_window_size(&self) -> nat {
        self.window_size as nat
    }

    pub closed spec fn spec_operation(&self) -> Seq<char> {
        self.operation@
    }

    pub fn new(window_size: usize, operation: String) -> (r: Self)
        ensures
            r.spec_buffer().len() == 0,
            r.spec_window_size() == window_size,
            r.spec_operation() == operation@,
    {
        WindowedOperator { window_size, buffer: VecDeque::with_capacity(window_size), operation }
    }

    /// Adds `value`; the oldest value leaves once `window_size` are held.
    pub fn push(&mut self, value: T)
        ensures
            final(self).spec_buffer() == spec_window_push(old(self).spec_buffer(), old(self).spec_window_size(), value),
            final(self).spec_window_size() == old(self).spec_window_size(),
            final(self).spec_operation() == old(self).spec_operation(),
    {
        if self.buffer.len() >= self.window_size && self.buffer.len() > 0 {
            self.buffer.pop_front();
        }
        self.buffer.push_back(value);
        assert(self.buffer@ =~= spec_window_push(old(self).spec_buffer(), old(self).spec_window_size(), value));
    }

    /// Whether exactly `window_size` values are held.
    pub fn is_ready(&self) -> (r: bool)
        ensures
            r == (self.spec_buffer().len() == self.spec_window_size()),
    {
        self.buffer.len() == self.window_size
    }

    /// Copies of the values held, oldest first.
    pub fn get_window(&self) -> (r: Vec<T>)
        ensures
            r@.len() == self.spec_buffer().len(),
            forall|i: int| 0 <= i < r@.len() ==> cloned::<T>(self.spec_buffer()[i], #[trigger] r@[i]),
    {
        let mut r: Vec<T> = Vec::new();
        let mut i: usize = 0;
        while i < self.buffer.len()
            invariant
                i <= self.buffer@.len(),
                r@.len() == i,
                forall|j: int| 0 <= j < i ==> cloned::<T>(self.buffer@[j], #[trigger] r@[j]),
            decreases self.buffer.len() - i,
        {
            let x = self.buffer[i].clone();
            r.push(x);
            i = i + 1;
        }
        r
    }

    /// The name of the aggregate.
    pub fn operation(&self) -> (r: &str)
        ensures
            r@ == self.spec_operation(),
    {
        self.operation.as_str()
    }
}

/// Number of batches of `size` that `len` items make, the last one possibly
/// shorter.
pub open spec fn batch_count(len: nat, size: nat) -> nat
    recommends
        size > 0,
{
    if len == 0 {
        0
    } else {
        (((len - 1) as int) / (size as int) + 1) as nat
    }
}

/// The `i`-th batch of `size` items of `s`.
pub open spec fn batch_of<T>(s: Seq<T>, size: nat, i: int) -> Seq<T> {
    let lo = i * size;
    let hi = if lo + size < s.len() { lo + size } else { s.len() as int };
    s.subrange(lo, hi)
}

/// The sequences of `parts`, one after the other.
pub open spec fn concat<R>(parts: Seq<Seq<R>>) -> Seq<R>
    decreases parts.len(),
{
    if parts.len() == 0 {
        Seq::empty()
    } else {
        concat(parts.drop_last()) + parts.last()
    }
}

/// `processor` returned `out` when handed a slice holding `chunk`.
pub open spec fn produced_by<T, F: Fn(&[T]) -> Vec<R>, R>(processor: F, chunk: Seq<T>, out: Seq<R>) -> bool {
    exists|c: &[T], o: Vec<R>|
        #![trigger processor.ensures((c,), o)]
        c@ == chunk && o@ == out && processor.ensures((c,), o)
}

/// Hands `input` to `processor` in batches of `batch_size` items, in order
/// (the last batch may be shorter), and joins what it returns.
pub fn batch_process<T: Clone, F: Fn(&[T]) -> Vec<R>, R>(input: Vec<T>, batch_size: usize, processor: F) -> (r: Vec<R>)
    requires
        batch_size > 0,
        forall|chunk: &[T]| #[trigger] processor.requires((chunk,)),
    ensures
        exists|outs: Seq<Seq<R>>|
            {
                &&& outs.len() == batch_count(input@.len(), batch_size as nat)
                &&& r@ == concat(outs)
                &&& forall|i: int|
                    0 <= i < outs.len() ==> #[trigger] produced_by(processor, batch_of(input@, batch_size as nat, i), outs[i])
            },
{
    let mut r: Vec<R> = Vec::new();
    let ghost mut outs: Seq<Seq<R>> = Seq::empty();
    let mut start: usize = 0;
    let n = input.len();
    assert(outs.len() * batch_size == 0) by (nonlinear_arith)
        requires
            outs.len() == 0,
    ;
    while start < n
        invariant
            n == input@.len(),
            batch_size > 0,
            forall|chunk: &[T]| #[trigger] processor.requires((chunk,)),
            start <= n,
            start < n ==> start == outs.len() * batch_size && outs.len() < batch_count(n as nat, batch_size as nat),
            start == n ==> outs.len() == batch_count(n as nat, batch_size as nat),
            r@ == concat(outs),
            forall|i: int|
                0 <= i < outs.len() ==> #[trigger] produced_by(processor, batch_of(input@, batch_size as nat, i), outs[i]),
        decreases n - start,
    {
        let end = if n - start > batch_size { start + batch_size } else { n };
        let chunk = slice_subrange(input.as_slice(), start, end);
        let mut out = processor(chunk);
        let ghost piece = out@;
        let ghost produced = out;
        proof {
            assert(chunk@ == batch_of(input@, batch_size as nat, outs.len() as int));
            assert(processor.ensures((chunk,), produced));
        }
        r.append(&mut out);
        proof {
            let old_outs = outs;
            outs = outs.push(piece);
            assert(outs.drop_last() == old_outs);
            assert forall|i: int|
                0 <= i < outs.len() implies #[trigger] produced_by(processor, batch_of(input@, batch_size as nat, i), outs[i]) by {
                if i < old_outs.len() {
                    assert(outs[i] == old_outs[i]);
                    assert(produced_by(processor, batch_of(input@, batch_size as nat, i), old_outs[i]));
                } else {
                    assert(produced@ == outs[i]);
                    assert(processor.ensures((chunk,), produced));
                }
            }
            assert(r@ == concat(outs));
            lemma_batch_count_step(n as nat, batch_size as nat, old_outs.len());
            assert((old_outs.len() + 1) * batch_size == old_outs.len() * batch_size + batch_size) by (nonlinear_arith);
        }
        start = end;
    }
    assert({
        &&& outs.len() == batch_count(input@.len(), batch_size as nat)
        &&& r@ == concat(outs)
        &&& forall|i: int|
            0 <= i < outs.len() ==> #[trigger] produced_by(processor, batch_of(input@, batch_size as nat, i), outs[i])
    });
    r
}

proof fn lemma_batch_count_step(n: nat, size: nat, k: nat)
    requires
        size > 0,
        k * size < n,
    ensures
        k < batch_count(n, size),
        (k + 1) * size < n ==> k + 1 < batch_count(n, size),
        (k + 1) * size >= n ==> k + 1 == batch_count(n, size),
{
    assert(k * size <= n - 1);
    assert(k <= ((n - 1) as int) / (size as int)) by (nonlinear_arith)
        requires
            k * size <= n - 1,
            size > 0,
    ;
    if (k + 1) * size < n {
        assert(k + 1 <= ((n - 1) as int) / (size as int)) by (nonlinear_arith)
            requires
                (k + 1) * size <= n - 1,
                size > 0,
        ;
    } else {
        assert(((n - 1) as int) / (size as int) < k + 1) by (nonlinear_arith)
            requires
                (k + 1) * size >= n,
                size > 0,
        ;
    }
}

/// Relies on rayon: a `Vec`'s parallel iterator is indexed, and collecting a
/// mapped indexed iterator into a `Vec` puts `mapper`'s result for each item
/// at that item's position.
#[verifier::external_body]
fn par_map<T: Send, F: Fn(T) -> R + Send + Sync, R: Send>(input: Vec<T>, mapper: F) -> (r: Vec<R>)
    requires
        forall|t: T| #[trigger] mapper.requires((t,)),
    ensures
        r@.len() == input@.len(),
        forall|i: int| 0 <= i < r@.len() ==> mapper.ensures((input@[i],), #[trigger] r@[i]),
{
    input.into_par_iter().map(mapper).collect()
}

/// Applies `mapper` to every item, possibly in parallel; the results keep
/// the order of the items.
pub fn parallel_map<T: Send, F: Fn(T) -> R + Send + Sync, R: Send>(input: Vec<T>, mapper: F) -> (r: Vec<R>)
    requires
        forall|t: T| #[trigger] mapper.requires((t,)),
    ensures
        r@.len() == input@.len(),
        forall|i: int| 0 <= i < r@.len() ==> mapper.ensures((input@[i],), #[trigger] r@[i]),
{
    par_map(input, mapper)
}

} // verus!
