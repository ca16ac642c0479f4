//! The processing-unit contract and its model.
//!
//! A unit is a Mealy machine over frames: from its current state, one frame
//! of input samples (one per input channel) gives one frame of output samples
//! and a next state. `run_output` and `run_state` describe what a sequence of
//! frames does, and block processing is held to exactly that.

use vstd::prelude::*;

use crate::hash::{mix, AttoHash};

verus! {

/// The largest block that a plain unit processes in one call.
pub const MAX_BUFFER_SIZE: usize = 64;

/// Outputs of `frames.len()` successive ticks starting in state `s`.
pub open spec fn run_output<S, U: UnitModel<S>>(s: U::State, frames: Seq<Seq<S>>) -> Seq<Seq<S>>
    decreases frames.len(),
{
    if frames.len() == 0 {
        Seq::empty()
    } else {
        let before = frames.drop_last();
        run_output::<S, U>(s, before).push(U::emit(run_state::<S, U>(s, before), frames.last()))
    }
}

/// State after `frames.len()` successive ticks starting in state `s`.
pub open spec fn run_state<S, U: UnitModel<S>>(s: U::State, frames: Seq<Seq<S>>) -> U::State
    decreases frames.len(),
{
    if frames.len() == 0 {
        s
    } else {
        U::next_state(run_state::<S, U>(s, frames.drop_last()), frames.last())
    }
}

/// The frames held by channel buffers: frame `j` gathers sample `start + j`
/// of every channel.
pub open spec fn frames_of<S>(buffers: Seq<Vec<S>>, start: int, size: nat) -> Seq<Seq<S>> {
    Seq::new(size, |j: int| Seq::new(buffers.len(), |c: int| buffers[c]@[start + j]))
}

/// Running a unit on `a` and then on `b` is running it on `a + b`: processing
/// in consecutive pieces gives the same outputs and the same final state as
/// processing all frames at once.
pub proof fn lemma_run_split<S, U: UnitModel<S>>(s: U::State, a: Seq<Seq<S>>, b: Seq<Seq<S>>)
    ensures
        run_state::<S, U>(s, a + b) == run_state::<S, U>(run_state::<S, U>(s, a), b),
        run_output::<S, U>(s, a + b) == run_output::<S, U>(s, a) + run_output::<S, U>(
            run_state::<S, U>(s, a),
            b,
        ),
    decreases b.len(),
{
    if b.len() == 0 {
        assert(a + b =~= a);
        assert(run_output::<S, U>(s, a) + Seq::empty() =~= run_output::<S, U>(s, a));
    } else {
        lemma_run_split::<S, U>(s, a, b.drop_last());
        assert((a + b).drop_last() =~= a + b.drop_last());
        assert((a + b).last() == b.last());
        let mid = run_state::<S, U>(s, a);
        let last = U::emit(run_state::<S, U>(mid, b.drop_last()), b.last());
        assert(run_output::<S, U>(s, a) + run_output::<S, U>(mid, b.drop_last()).push(last)
            =~= (run_output::<S, U>(s, a) + run_output::<S, U>(mid, b.drop_last())).push(last));
    }
}

/// A run gives one output frame per input frame.
pub proof fn lemma_run_output_len<S, U: UnitModel<S>>(s: U::State, frames: Seq<Seq<S>>)
    ensures
        run_output::<S, U>(s, frames).len() == frames.len(),
    decreases frames.len(),
{
    if frames.len() > 0 {
        lemma_run_output_len::<S, U>(s, frames.drop_last());
    }
}

/// `n` frames of a unit without inputs.
pub open spec fn silence<S>(n: nat) -> Seq<Seq<S>> {
    Seq::new(n, |j: int| Seq::<S>::empty())
}

/// Silent frames split as their counts do.
pub proof fn lemma_silence_split<S>(a: nat, b: nat)
    ensures
        silence::<S>(a) + silence::<S>(b) =~= silence::<S>(a + b),
{
}

/// Sum of the call sizes `sizes`.
pub open spec fn total(sizes: Seq<nat>) -> nat
    decreases sizes.len(),
{
    if sizes.len() == 0 {
        0
    } else {
        sizes[0] + total(sizes.drop_first())
    }
}

/// Frames handed out by successive calls for `sizes[0]`, `sizes[1]`, ...
/// frames to a unit without inputs that starts in state `s`, concatenated.
pub open spec fn pulled<S, U: UnitModel<S>>(s: U::State, sizes: Seq<nat>) -> Seq<Seq<S>>
    decreases sizes.len(),
{
    if sizes.len() == 0 {
        Seq::empty()
    } else {
        run_output::<S, U>(s, silence(sizes[0])) + pulled::<S, U>(
            run_state::<S, U>(s, silence(sizes[0])),
            sizes.drop_first(),
        )
    }
}

/// Pulling frames in calls of any sizes gives the frames of one run over
/// their total.
pub proof fn lemma_pulled<S, U: UnitModel<S>>(s: U::State, sizes: Seq<nat>)
    ensures
        pulled::<S, U>(s, sizes) == run_output::<S, U>(s, silence(total(sizes))),
    decreases sizes.len(),
{
    if sizes.len() == 0 {
        assert(silence::<S>(0) =~= Seq::<Seq<S>>::empty());
        assert(run_output::<S, U>(s, silence(0)) =~= Seq::<Seq<S>>::empty());
    } else {
        let first = sizes[0];
        let rest = sizes.drop_first();
        lemma_pulled::<S, U>(run_state::<S, U>(s, silence(first)), rest);
        lemma_silence_split::<S>(first, total(rest));
        lemma_run_split::<S, U>(s, silence(first), silence(total(rest)));
    }
}

/// Every channel buffer holds `frames` from position `start` on, and every
/// frame has one sample per buffer.
pub open spec fn holds_frames<S>(buffers: Seq<Vec<S>>, start: int, frames: Seq<Seq<S>>) -> bool {
    &&& forall|j: int| 0 <= j < frames.len() ==> (#[trigger] frames[j]).len() == buffers.len()
    &&& forall|c: int, j: int|
        0 <= c < buffers.len() && 0 <= j < frames.len() ==> #[trigger] buffers[c]@[start + j]
            == frames[j][c]
}

/// Every buffer has room for `size` samples.
pub open spec fn room_for<S>(buffers: Seq<Vec<S>>, size: nat) -> bool {
    forall|c: int| 0 <= c < buffers.len() ==> size <= #[trigger] buffers[c]@.len()
}

/// `after` differs from `before` only at positions `start .. end` of each
/// buffer; the number and lengths of the buffers are kept.
pub open spec fn changed_only<S>(before: Seq<Vec<S>>, after: Seq<Vec<S>>, start: int, end: int) -> bool {
    &&& after.len() == before.len()
    &&& forall|c: int| 0 <= c < before.len() ==> #[trigger] after[c]@.len() == before[c]@.len()
    &&& forall|c: int, j: int|
        0 <= c < before.len() && 0 <= j < before[c]@.len() && !(start <= j < end)
            ==> #[trigger] after[c]@[j] == before[c]@[j]
}

/// The fixed attributes of a unit agree in `a` and `b`.
pub open spec fn same_shape<S, U: UnitModel<S>>(a: &U, b: &U) -> bool {
    &&& a.inv() == b.inv()
    &&& a.input_count() == b.input_count()
    &&& a.output_count() == b.output_count()
    &&& a.id() == b.id()
    &&& a.accepts_any_size() == b.accepts_any_size()
}

/// The mathematical model of a unit: a Mealy machine over frames together
/// with the unit's fixed attributes.
///
/// Every unit in this crate defines each of these functions. Their default
/// bodies say nothing, so that units written outside verified code need not
/// define them, and nothing is proved of such units.
pub trait UnitModel<S>: Sized {
    /// What determines the unit's future behaviour.
    type State;

    /// Well-formedness of the unit's representation.
    closed spec fn inv(&self) -> bool {
        arbitrary()
    }

    closed spec fn state(&self) -> Self::State {
        arbitrary()
    }

    closed spec fn input_count(&self) -> nat {
        arbitrary()
    }

    closed spec fn output_count(&self) -> nat {
        arbitrary()
    }

    /// The identifier of this kind of unit, used in hashing.
    closed spec fn id(&self) -> u64 {
        arbitrary()
    }

    /// The unit processes blocks of any size, not only up to `MAX_BUFFER_SIZE`.
    closed spec fn accepts_any_size(&self) -> bool {
        arbitrary()
    }

    /// State after one tick on `frame`.
    closed spec fn next_state(s: Self::State, frame: Seq<S>) -> Self::State {
        arbitrary()
    }

    /// Output frame of one tick on `frame`.
    closed spec fn emit(s: Self::State, frame: Seq<S>) -> Seq<S> {
        arbitrary()
    }

    /// State after a reset: time back to zero, parameters kept.
    closed spec fn reset_state(s: Self::State) -> Self::State {
        arbitrary()
    }

    /// State after installing the pseudorandom seed `seed`.
    closed spec fn seeded(s: Self::State, seed: u64) -> Self::State {
        arbitrary()
    }

    /// Hash returned by a ping that starts from `hash`.
    closed spec fn ping_hash(&self, hash: u64) -> u64 {
        arbitrary()
    }

    /// State after a committing ping that starts from `hash`.
    closed spec fn pinged(s: Self::State, hash: u64) -> Self::State {
        arbitrary()
    }
}

/// An audio processor with an object safe interface.
/// Once constructed, it has a fixed number of inputs and outputs.
pub trait AudioUnit<S: Copy + Default>: UnitModel<S> {
    /// Reset the unit to an initial state where it has not processed any data.
    fn reset(&mut self)
        requires
            old(self).inv(),
        ensures
            same_shape(old(self), final(self)),
            final(self).state() == Self::reset_state(old(self).state()),
    ;

    /// Process one frame.
    fn tick(&mut self, input: &[S], output: &mut [S])
        requires
            old(self).inv(),
            input@.len() == old(self).input_count(),
            old(output)@.len() == old(self).output_count(),
        ensures
            same_shape(old(self), final(self)),
            final(self).state() == Self::next_state(old(self).state(), input@),
            final(output)@ == Self::emit(old(self).state(), input@),
    ;

    /// Process `size` frames, taken from the first `size` samples of each
    /// input buffer and written to the first `size` samples of each output
    /// buffer. Up to `MAX_BUFFER_SIZE` frames, unless the unit accepts any
    /// size. This is the same as `size` successive calls of `tick`.
    fn process(&mut self, size: usize, input: &Vec<Vec<S>>, output: &mut Vec<Vec<S>>)
        requires
            old(self).inv(),
            size <= MAX_BUFFER_SIZE || old(self).accepts_any_size(),
            input@.len() == old(self).input_count(),
            room_for(input@, size as nat),
            old(output)@.len() == old(self).output_count(),
            room_for(old(output)@, size as nat),
        ensures
            same_shape(old(self), final(self)),
            final(self).state() == run_state::<S, Self>(
                old(self).state(),
                frames_of(input@, 0, size as nat),
            ),
            changed_only(old(output)@, final(output)@, 0, size as int),
            holds_frames(
                final(output)@,
                0,
                run_output::<S, Self>(old(self).state(), frames_of(input@, 0, size as nat)),
            ),
    ;

    /// Number of inputs to this unit.
    fn inputs(&self) -> (r: usize)
        ensures
            r == self.input_count(),
    ;

    /// Number of outputs from this unit.
    fn outputs(&self) -> (r: usize)
        ensures
            r == self.output_count(),
    ;

    /// Return an ID code for this type of unit.
    fn get_id(&self) -> (r: u64)
        ensures
            r == self.id(),
    ;

    /// Install the pseudorandom seed `hash`. Called by `ping` only.
    fn set_hash(&mut self, hash: u64)
        requires
            old(self).inv(),
        ensures
            same_shape(old(self), final(self)),
            final(self).state() == Self::seeded(old(self).state(), hash),
    ;

    /// Ping this unit and the units it contains to obtain a deterministic
    /// pseudorandom hash. If `probe` is true, this only computes the hash
    /// and installs nothing.
    fn ping(&mut self, probe: bool, hash: AttoHash) -> (r: AttoHash)
        requires
            old(self).inv(),
        ensures
            same_shape(old(self), final(self)),
            r@ == old(self).ping_hash(hash@),
            probe ==> final(self).state() == old(self).state(),
            !probe ==> final(self).state() == Self::pinged(old(self).state(), hash@),
    ;

    /// Memory footprint of this unit in bytes, without counting buffers and
    /// other allocations.
    fn footprint(&self) -> usize;

    /// Preallocate all memory needed for block processing.
    /// The default implementation does nothing.
    fn allocate(&mut self)
        requires
            old(self).inv(),
        ensures
            same_shape(old(self), final(self)),
            final(self).state() == old(self).state(),
    {
    }

    /// Retrieve the next stereo frame (left, right) from a generator with no
    /// inputs. A single output is duplicated.
    fn get_stereo(&mut self) -> (r: (S, S))
        requires
            old(self).inv(),
            old(self).input_count() == 0,
            old(self).output_count() == 1 || old(self).output_count() == 2,
        ensures
            same_shape(old(self), final(self)),
            final(self).state() == Self::next_state(old(self).state(), Seq::empty()),
            old(self).output_count() == 1 ==> r == (
                Self::emit(old(self).state(), Seq::empty())[0],
                Self::emit(old(self).state(), Seq::empty())[0],
            ),
            old(self).output_count() == 2 ==> r == (
                Self::emit(old(self).state(), Seq::empty())[0],
                Self::emit(old(self).state(), Seq::empty())[1],
            ),
    {
        let silent: [S; 0] = [];
        proof {
            assert(silent@ =~= Seq::<S>::empty());
        }
        let zero = S::default();
        if self.outputs() == 1 {
            let mut output = [zero];
            self.tick(&silent, &mut output);
            (output[0], output[0])
        } else {
            let mut output = [zero, zero];
            self.tick(&silent, &mut output);
            (output[0], output[1])
        }
    }

    /// Filter the next mono sample `x` through a unit with one input and one
    /// output.
    fn filter_mono(&mut self, x: S) -> (r: S)
        requires
            old(self).inv(),
            old(self).input_count() == 1,
            old(self).output_count() == 1,
        ensures
            same_shape(old(self), final(self)),
            final(self).state() == Self::next_state(old(self).state(), seq![x]),
            r == Self::emit(old(self).state(), seq![x])[0],
    {
        let input = [x];
        proof {
            assert(input@ =~= seq![x]);
        }
        let mut output = [x];
        self.tick(&input, &mut output);
        output[0]
    }

    /// Filter the next stereo frame `(x, y)` through a unit with two inputs
    /// and two outputs.
    fn filter_stereo(&mut self, x: S, y: S) -> (r: (S, S))
        requires
            old(self).inv(),
            old(self).input_count() == 2,
            old(self).output_count() == 2,
        ensures
            same_shape(old(self), final(self)),
            final(self).state() == Self::next_state(old(self).state(), seq![x, y]),
            r == (
                Self::emit(old(self).state(), seq![x, y])[0],
                Self::emit(old(self).state(), seq![x, y])[1],
            ),
    {
        let input = [x, y];
        proof {
            assert(input@ =~= seq![x, y]);
        }
        let mut output = [x, y];
        self.tick(&input, &mut output);
        (output[0], output[1])
    }
}

/// The ping of a leaf unit: install the current hash state as the unit's
/// seed (unless probing), then absorb the unit's identifier.
pub fn ping_leaf<S: Copy + Default, U: AudioUnit<S>>(unit: &mut U, probe: bool, hash: AttoHash) -> (r: AttoHash)
    requires
        old(unit).inv(),
    ensures
        same_shape(old(unit), final(unit)),
        r@ == mix(hash@, old(unit).id()),
        probe ==> final(unit).state() == old(unit).state(),
        !probe ==> final(unit).state() == U::seeded(old(unit).state(), hash@),
{
    if !probe {
        unit.set_hash(hash.state());
    }
    hash.hash(unit.get_id())
}

} // verus!
