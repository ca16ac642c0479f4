//! Block adapters: wrappers that reconcile the block sizes that callers ask
//! for with the fixed maximum block of the engine.

use vstd::prelude::*;

use crate::hash::AttoHash;
use crate::unit::{
    changed_only, frames_of, holds_frames, lemma_pulled, lemma_run_output_len, lemma_run_split,
    lemma_silence_split, pulled, room_for, run_output, run_state, same_shape, silence, total,
    AudioUnit, UnitModel, MAX_BUFFER_SIZE,
};

verus! {

/// Copy `n` samples of every channel: sample `from + j` of `src` goes to
/// sample `to + j` of `dst`.
fn copy_block<S: Copy>(src: &Vec<Vec<S>>, from: usize, dst: &mut Vec<Vec<S>>, to: usize, n: usize)
    requires
        from + n <= usize::MAX,
        to + n <= usize::MAX,
        src@.len() == old(dst)@.len(),
        room_for(src@, (from + n) as nat),
        room_for(old(dst)@, (to + n) as nat),
    ensures
        changed_only(old(dst)@, final(dst)@, to as int, to + n),
        forall|c: int, j: int|
            0 <= c < src@.len() && 0 <= j < n ==> #[trigger] final(dst)@[c]@[to + j]
                == src@[c]@[from + j],
{
    let mut c: usize = 0;
    while c < src.len()
        invariant
            from + n <= usize::MAX,
            to + n <= usize::MAX,
            c <= src@.len(),
            src@.len() == dst@.len(),
            room_for(src@, (from + n) as nat),
            room_for(dst@, (to + n) as nat),
            changed_only(old(dst)@, dst@, to as int, to + n),
            forall|k: int, j: int|
                0 <= k < c && 0 <= j < n ==> #[trigger] dst@[k]@[to + j] == src@[k]@[from + j],
        decreases src@.len() - c,
    {
        let mut j: usize = 0;
        while j < n
            invariant
                from + n <= usize::MAX,
                to + n <= usize::MAX,
                c < src@.len(),
                j <= n,
                src@.len() == dst@.len(),
                room_for(src@, (from + n) as nat),
                room_for(dst@, (to + n) as nat),
                changed_only(old(dst)@, dst@, to as int, to + n),
                forall|k: int, i: int|
                    0 <= k < c && 0 <= i < n ==> #[trigger] dst@[k]@[to + i] == src@[k]@[from + i],
                forall|i: int| 0 <= i < j ==> #[trigger] dst@[c as int]@[to + i] == src@[c as int]@[from + i],
            decreases n - j,
        {
            let x = src[c][from + j];
            dst[c].set(to + j, x);
            j += 1;
        }
        c += 1;
    }
}

/// Make every buffer `MAX_BUFFER_SIZE` samples long.
fn reserve_blocks<S: Copy + Default>(buffers: &mut Vec<Vec<S>>)
    ensures
        final(buffers)@.len() == old(buffers)@.len(),
        forall|c: int| 0 <= c < final(buffers)@.len() ==> #[trigger] final(buffers)@[c]@.len() == MAX_BUFFER_SIZE,
        forall|c: int|
            0 <= c < old(buffers)@.len() && old(buffers)@[c]@.len() == MAX_BUFFER_SIZE
                ==> #[trigger] final(buffers)@[c]@ == old(buffers)@[c]@,
{
    let mut c: usize = 0;
    while c < buffers.len()
        invariant
            c <= buffers@.len(),
            buffers@.len() == old(buffers)@.len(),
            forall|k: int| 0 <= k < c ==> #[trigger] buffers@[k]@.len() == MAX_BUFFER_SIZE,
            forall|k: int| c <= k < buffers@.len() ==> #[trigger] buffers@[k] == old(buffers)@[k],
            forall|k: int|
                0 <= k < c && old(buffers)@[k]@.len() == MAX_BUFFER_SIZE
                    ==> #[trigger] buffers@[k]@ == old(buffers)@[k]@,
        decreases buffers@.len() - c,
    {
        let ghost before = buffers@[c as int]@;
        buffers[c].resize(MAX_BUFFER_SIZE, S::default());
        proof {
            if before.len() == MAX_BUFFER_SIZE {
                assert(buffers@[c as int]@ =~= before);
            }
        }
        c += 1;
    }
}

/// A big block adapter: lets `process` be called with any number of frames
/// by handing them to the wrapped unit in blocks of at most
/// `MAX_BUFFER_SIZE`.
#[derive(Clone)]
pub struct BigBlockAdapter<S, U> {
    source: U,
    input: Vec<Vec<S>>,
    output: Vec<Vec<S>>,
}

impl<S: Copy + Default, U: AudioUnit<S>> UnitModel<S> for BigBlockAdapter<S, U> {
    type State = U::State;

    closed spec fn inv(&self) -> bool {
        &&& self.source.inv()
        &&& self.input@.len() == self.source.input_count()
        &&& self.output@.len() == self.source.output_count()
    }

    closed spec fn state(&self) -> U::State {
        self.source.state()
    }

    closed spec fn input_count(&self) -> nat {
        self.source.input_count()
    }

    closed spec fn output_count(&self) -> nat {
        self.source.output_count()
    }

    closed spec fn id(&self) -> u64 {
        self.source.id()
    }

    open spec fn accepts_any_size(&self) -> bool {
        true
    }

    open spec fn next_state(s: U::State, frame: Seq<S>) -> U::State {
        U::next_state(s, frame)
    }

    open spec fn emit(s: U::State, frame: Seq<S>) -> Seq<S> {
        U::emit(s, frame)
    }

    open spec fn reset_state(s: U::State) -> U::State {
        U::reset_state(s)
    }

    open spec fn seeded(s: U::State, seed: u64) -> U::State {
        s
    }

    closed spec fn ping_hash(&self, hash: u64) -> u64 {
        self.source.ping_hash(hash)
    }

    open spec fn pinged(s: U::State, hash: u64) -> U::State {
        U::pinged(s, hash)
    }
}

/// The adapter behaves as the unit it wraps.
pub proof fn lemma_big_block_runs<S: Copy + Default, U: AudioUnit<S>>(s: U::State, frames: Seq<Seq<S>>)
    ensures
        run_state::<S, BigBlockAdapter<S, U>>(s, frames) == run_state::<S, U>(s, frames),
        run_output::<S, BigBlockAdapter<S, U>>(s, frames) == run_output::<S, U>(s, frames),
    decreases frames.len(),
{
    if frames.len() > 0 {
        lemma_big_block_runs::<S, U>(s, frames.drop_last());
    }
}

impl<S: Copy + Default, U: AudioUnit<S>> BigBlockAdapter<S, U> {
    /// The wrapped unit.
    pub closed spec fn wrapped(&self) -> U {
        self.source
    }

    /// Create a new big block adapter around `source`.
    pub fn new(source: U) -> (r: Self)
        requires
            source.inv(),
        ensures
            r.inv(),
            r.wrapped() == source,
            r.state() == source.state(),
            r.input_count() == source.input_count(),
            r.output_count() == source.output_count(),
            r.id() == source.id(),
    {
        let input = vec![Vec::new(); source.inputs()];
        let output = vec![Vec::new(); source.outputs()];
        BigBlockAdapter { source, input, output }
    }

    /// The wrapped unit, for changes that this adapter does not model.
    pub fn source_mut(&mut self) -> (r: &mut U)
        ensures
            *r == old(self).wrapped(),
            final(self).wrapped() == *final(r),
    {
        &mut self.source
    }
}

impl<S: Copy + Default, U: AudioUnit<S>> AudioUnit<S> for BigBlockAdapter<S, U> {
    fn reset(&mut self) {
        self.source.reset();
    }

    fn tick(&mut self, input: &[S], output: &mut [S]) {
        self.source.tick(input, output);
    }

    fn process(&mut self, size: usize, input: &Vec<Vec<S>>, output: &mut Vec<Vec<S>>) {
        let ghost s0 = self.source.state();
        let ghost frames = frames_of(input@, 0, size as nat);
        if size > MAX_BUFFER_SIZE {
            reserve_blocks(&mut self.input);
            reserve_blocks(&mut self.output);
            let mut i: usize = 0;
            proof {
                assert(frames.take(0) =~= Seq::<Seq<S>>::empty());
            }
            while i < size
                invariant
                    i <= size,
                    self.source.inv(),
                    same_shape(&old(self).source, &self.source),
                    self.input@.len() == self.source.input_count(),
                    self.output@.len() == self.source.output_count(),
                    forall|c: int| 0 <= c < self.input@.len() ==> #[trigger] self.input@[c]@.len() == MAX_BUFFER_SIZE,
                    forall|c: int| 0 <= c < self.output@.len() ==> #[trigger] self.output@[c]@.len() == MAX_BUFFER_SIZE,
                    input@.len() == self.source.input_count(),
                    room_for(input@, size as nat),
                    old(output)@.len() == self.source.output_count(),
                    room_for(old(output)@, size as nat),
                    frames == frames_of(input@, 0, size as nat),
                    self.source.state() == run_state::<S, U>(s0, frames.take(i as int)),
                    changed_only(old(output)@, output@, 0, i as int),
                    holds_frames(output@, 0, run_output::<S, U>(s0, frames.take(i as int))),
                decreases size - i,
            {
                let n: usize = if size - i < MAX_BUFFER_SIZE { size - i } else { MAX_BUFFER_SIZE };
                copy_block(input, i, &mut self.input, 0, n);
                let ghost chunk = frames.subrange(i as int, (i + n) as int);
                let ghost mid = self.source.state();
                proof {
                    assert(frames_of(self.input@, 0, n as nat) =~~= chunk);
                }
                self.source.process(n, &self.input, &mut self.output);
                let ghost prev = output@;
                copy_block(&self.output, 0, output, i, n);
                proof {
                    let before = frames.take(i as int);
                    let after = frames.take((i + n) as int);
                    assert(before + chunk =~= after);
                    lemma_run_split::<S, U>(s0, before, chunk);
                    lemma_run_output_len::<S, U>(s0, before);
                    lemma_run_output_len::<S, U>(mid, chunk);
                    let out_a = run_output::<S, U>(s0, before);
                    let out_b = run_output::<S, U>(mid, chunk);
                    let outs = run_output::<S, U>(s0, after);
                    assert(outs == out_a + out_b);
                    assert forall|c: int, j: int| 0 <= c < output@.len() && 0 <= j < outs.len()
                        implies #[trigger] output@[c]@[0 + j] == outs[j][c] by {
                        if j < i {
                            assert(output@[c]@[j] == prev[c]@[j]);
                            assert(prev[c]@[0 + j] == out_a[j][c]);
                        } else {
                            assert(output@[c]@[i + (j - i)] == self.output@[c]@[0 + (j - i)]);
                        }
                    }
                    assert forall|j: int| 0 <= j < outs.len() implies (#[trigger] outs[j]).len() == output@.len() by {
                        if j < i {
                            assert(outs[j] == out_a[j]);
                        } else {
                            assert(outs[j] == out_b[j - i]);
                        }
                    }
                }
                i = i + n;
            }
            proof {
                assert(frames.take(size as int) =~= frames);
                lemma_big_block_runs::<S, U>(s0, frames);
            }
        } else {
            self.source.process(size, input, output);
            proof {
                lemma_big_block_runs::<S, U>(s0, frames);
            }
        }
    }

    fn inputs(&self) -> usize {
        self.source.inputs()
    }

    fn outputs(&self) -> usize {
        self.source.outputs()
    }

    fn get_id(&self) -> u64 {
        self.source.get_id()
    }

    fn set_hash(&mut self, hash: u64) {
    }

    fn ping(&mut self, probe: bool, hash: AttoHash) -> AttoHash {
        self.source.ping(probe, hash)
    }

    fn footprint(&self) -> usize {
        self.source.footprint()
    }

    fn allocate(&mut self) {
        reserve_blocks(&mut self.input);
        reserve_blocks(&mut self.output);
        self.source.allocate();
    }
}

/// State of a block-rate adapter once it has frames to hand out: when
/// nothing is pending, the source's next full block.
pub open spec fn refilled<S, U: UnitModel<S>>(st: (Seq<Seq<S>>, U::State)) -> (Seq<Seq<S>>, U::State) {
    if st.0.len() == 0 {
        let block = silence::<S>(MAX_BUFFER_SIZE as nat);
        (run_output::<S, U>(st.1, block), run_state::<S, U>(st.1, block))
    } else {
        st
    }
}

/// Block rate adapter: converts processing calls to maximum length block
/// processing of a unit without inputs. Maximizes throughput at the expense
/// of up to one block of latency.
#[derive(Clone)]
pub struct BlockRateAdapter<S, U> {
    unit: U,
    channels: usize,
    buffer: Vec<Vec<S>>,
    index: usize,
}

impl<S: Copy + Default, U: AudioUnit<S>> BlockRateAdapter<S, U> {
    /// The wrapped unit.
    pub closed spec fn wrapped(&self) -> U {
        self.unit
    }

    /// Frames computed by the source and not yet handed out.
    pub closed spec fn pending(&self) -> Seq<Seq<S>> {
        Seq::new(
            (MAX_BUFFER_SIZE - self.index) as nat,
            |t: int| Seq::new(self.channels as nat, |c: int| self.buffer@[c]@[self.index + t]),
        )
    }
}

impl<S: Copy + Default, U: AudioUnit<S>> UnitModel<S> for BlockRateAdapter<S, U> {
    /// Pending frames, then the source's state.
    type State = (Seq<Seq<S>>, U::State);

    closed spec fn inv(&self) -> bool {
        &&& self.unit.inv()
        &&& self.unit.input_count() == 0
        &&& self.unit.output_count() == self.channels
        &&& self.index <= MAX_BUFFER_SIZE
        &&& self.buffer@.len() == self.channels
        &&& self.index < MAX_BUFFER_SIZE ==> forall|c: int|
            0 <= c < self.channels ==> #[trigger] self.buffer@[c]@.len() == MAX_BUFFER_SIZE
    }

    closed spec fn state(&self) -> (Seq<Seq<S>>, U::State) {
        (self.pending(), self.unit.state())
    }

    open spec fn input_count(&self) -> nat {
        0
    }

    closed spec fn output_count(&self) -> nat {
        self.channels as nat
    }

    closed spec fn id(&self) -> u64 {
        self.unit.id()
    }

    open spec fn accepts_any_size(&self) -> bool {
        true
    }

    open spec fn next_state(st: (Seq<Seq<S>>, U::State), frame: Seq<S>) -> (Seq<Seq<S>>, U::State) {
        let r = refilled::<S, U>(st);
        (r.0.drop_first(), r.1)
    }

    open spec fn emit(st: (Seq<Seq<S>>, U::State), frame: Seq<S>) -> Seq<S> {
        refilled::<S, U>(st).0[0]
    }

    open spec fn reset_state(st: (Seq<Seq<S>>, U::State)) -> (Seq<Seq<S>>, U::State) {
        (Seq::empty(), U::reset_state(st.1))
    }

    open spec fn seeded(st: (Seq<Seq<S>>, U::State), seed: u64) -> (Seq<Seq<S>>, U::State) {
        st
    }

    closed spec fn ping_hash(&self, hash: u64) -> u64 {
        self.unit.ping_hash(hash)
    }

    open spec fn pinged(st: (Seq<Seq<S>>, U::State), hash: u64) -> (Seq<Seq<S>>, U::State) {
        (st.0, U::pinged(st.1, hash))
    }
}

/// Handing out `n` frames, where that many are pending once refilled, takes
/// them from the front of the pending frames.
proof fn lemma_take_pending<S: Copy + Default, U: AudioUnit<S>>(st: (Seq<Seq<S>>, U::State), n: nat)
    requires
        1 <= n <= refilled::<S, U>(st).0.len(),
    ensures
        run_state::<S, BlockRateAdapter<S, U>>(st, silence(n)) == (
            refilled::<S, U>(st).0.skip(n as int),
            refilled::<S, U>(st).1,
        ),
        run_output::<S, BlockRateAdapter<S, U>>(st, silence(n)) == refilled::<S, U>(st).0.take(
            n as int,
        ),
    decreases n,
{
    let r = refilled::<S, U>(st);
    let frames = silence::<S>(n);
    assert(frames.drop_last() =~= silence::<S>((n - 1) as nat));
    if n == 1 {
        assert(run_state::<S, BlockRateAdapter<S, U>>(st, silence(0)) == st);
        assert(run_output::<S, BlockRateAdapter<S, U>>(st, silence(0)) =~= Seq::<Seq<S>>::empty());
        assert(r.0.drop_first() =~= r.0.skip(1));
        assert(Seq::<Seq<S>>::empty().push(r.0[0]) =~= r.0.take(1));
    } else {
        lemma_take_pending::<S, U>(st, (n - 1) as nat);
        let prev = (r.0.skip(n - 1), r.1);
        assert(run_state::<S, BlockRateAdapter<S, U>>(st, silence((n - 1) as nat)) == prev);
        assert(refilled::<S, U>(prev) == prev);
        assert(r.0.skip(n - 1).drop_first() =~= r.0.skip(n as int));
        assert(r.0.take(n - 1).push(r.0.skip(n - 1)[0]) =~= r.0.take(n as int));
    }
}

/// Output `j` of a run depends on the first `m` frames only, for `j < m`.
proof fn lemma_run_prefix<S: Copy + Default, U: AudioUnit<S>>(s: U::State, k: nat, m: nat, j: int)
    requires
        0 <= j < m <= k,
    ensures
        run_output::<S, U>(s, silence(k))[j] == run_output::<S, U>(s, silence(m))[j],
{
    lemma_silence_split::<S>(m, (k - m) as nat);
    lemma_run_split::<S, U>(s, silence(m), silence((k - m) as nat));
    lemma_run_output_len::<S, U>(s, silence(m));
}

/// After `m` frames, an adapter that started with nothing pending holds the
/// source's frames `m .. k` for some `k`, its source has produced `k` frames,
/// and it has handed out the source's first `m` frames.
proof fn lemma_block_rate_position<S: Copy + Default, U: AudioUnit<S>>(s: U::State, m: nat) -> (k: nat)
    ensures
        m <= k,
        run_state::<S, BlockRateAdapter<S, U>>((Seq::empty(), s), silence(m)) == (
            run_output::<S, U>(s, silence(k)).subrange(m as int, k as int),
            run_state::<S, U>(s, silence(k)),
        ),
        run_output::<S, BlockRateAdapter<S, U>>((Seq::empty(), s), silence(m)) == run_output::<
            S,
            U,
        >(s, silence(m)),
    decreases m,
{
    let a0 = (Seq::<Seq<S>>::empty(), s);
    if m == 0 {
        assert(silence::<S>(0) =~= Seq::<Seq<S>>::empty());
        assert(run_output::<S, U>(s, silence(0)).subrange(0, 0) =~= Seq::<Seq<S>>::empty());
        0
    } else {
        let p = (m - 1) as nat;
        let kp = lemma_block_rate_position::<S, U>(s, p);
        assert(silence::<S>(m).drop_last() =~= silence::<S>(p));
        let st = run_state::<S, BlockRateAdapter<S, U>>(a0, silence(p));
        let u = run_state::<S, U>(s, silence(kp));
        lemma_run_output_len::<S, U>(s, silence(kp));
        let k = if p < kp {
            kp
        } else {
            (kp + MAX_BUFFER_SIZE) as nat
        };
        let block = silence::<S>(MAX_BUFFER_SIZE as nat);
        if p == kp {
            lemma_silence_split::<S>(kp, MAX_BUFFER_SIZE as nat);
            lemma_run_split::<S, U>(s, silence(kp), block);
            lemma_run_output_len::<S, U>(u, block);
            assert(refilled::<S, U>(st) == (run_output::<S, U>(u, block), run_state::<S, U>(u, block)));
            assert(run_output::<S, U>(u, block) =~= run_output::<S, U>(s, silence(k)).subrange(
                p as int,
                k as int,
            ));
        } else {
            assert(refilled::<S, U>(st) == st);
        }
        lemma_run_output_len::<S, U>(s, silence(k));
        let whole = run_output::<S, U>(s, silence(k));
        assert(refilled::<S, U>(st).0 =~= whole.subrange(p as int, k as int));
        assert(whole.subrange(p as int, k as int).drop_first() =~= whole.subrange(m as int, k as int));
        lemma_run_prefix::<S, U>(s, k, m, p as int);
        lemma_run_output_len::<S, U>(s, silence(m));
        lemma_run_output_len::<S, U>(s, silence(p));
        assert(run_output::<S, U>(s, silence(p)).push(whole[p as int]) =~= run_output::<S, U>(
            s,
            silence(m),
        ));
        k
    }
}

/// A block-rate adapter that starts with nothing pending hands out its
/// source's frames unchanged, whatever the sizes of the calls that ask for
/// them: successive calls for `sizes[0]`, `sizes[1]`, ... frames together
/// give the source's first `total(sizes)` frames, in order.
pub proof fn lemma_block_rate_chunking<S: Copy + Default, U: AudioUnit<S>>(s: U::State, sizes: Seq<nat>)
    ensures
        pulled::<S, BlockRateAdapter<S, U>>((Seq::empty(), s), sizes) == run_output::<S, U>(
            s,
            silence(total(sizes)),
        ),
{
    lemma_pulled::<S, BlockRateAdapter<S, U>>((Seq::empty(), s), sizes);
    lemma_block_rate_position::<S, U>(s, total(sizes));
}

impl<S: Copy + Default, U: AudioUnit<S>> BlockRateAdapter<S, U> {
    /// Create a new block rate adapter around `unit`, which has no inputs.
    pub fn new(unit: U) -> (r: Self)
        requires
            unit.inv(),
            unit.input_count() == 0,
        ensures
            r.inv(),
            r.wrapped() == unit,
            r.state() == (Seq::<Seq<S>>::empty(), unit.state()),
            r.output_count() == unit.output_count(),
            r.id() == unit.id(),
    {
        let channels = unit.outputs();
        let buffer = vec![Vec::new(); channels];
        BlockRateAdapter { unit, channels, buffer, index: MAX_BUFFER_SIZE }
    }

    /// The wrapped unit, for changes that this adapter does not model.
    pub fn source_mut(&mut self) -> (r: &mut U)
        ensures
            *r == old(self).wrapped(),
            final(self).wrapped() == *final(r),
    {
        &mut self.unit
    }

    /// Fill the buffer with the source's next block.
    fn refill(&mut self)
        requires
            old(self).inv(),
            old(self).index == MAX_BUFFER_SIZE,
        ensures
            final(self).inv(),
            final(self).index == 0,
            final(self).channels == old(self).channels,
            same_shape(&old(self).unit, &final(self).unit),
            final(self).state() == refilled::<S, U>(old(self).state()),
    {
        reserve_blocks(&mut self.buffer);
        let silent: Vec<Vec<S>> = Vec::new();
        let ghost u = self.unit.state();
        let ghost block = silence::<S>(MAX_BUFFER_SIZE as nat);
        proof {
            assert(frames_of(silent@, 0, MAX_BUFFER_SIZE as nat) =~~= block);
        }
        self.unit.process(MAX_BUFFER_SIZE, &silent, &mut self.buffer);
        self.index = 0;
        proof {
            let out = run_output::<S, U>(u, block);
            lemma_run_output_len::<S, U>(u, block);
            assert(self.pending() =~~= out);
            assert(old(self).pending() =~= Seq::<Seq<S>>::empty());
        }
    }
}

impl<S: Copy + Default, U: AudioUnit<S>> AudioUnit<S> for BlockRateAdapter<S, U> {
    fn reset(&mut self) {
        self.unit.reset();
        self.index = MAX_BUFFER_SIZE;
        proof {
            assert(self.pending() =~= Seq::<Seq<S>>::empty());
        }
    }

    fn tick(&mut self, input: &[S], output: &mut [S]) {
        if self.index == MAX_BUFFER_SIZE {
            self.refill();
        }
        let ghost pending = self.pending();
        let mut c: usize = 0;
        while c < self.channels
            invariant
                self.inv(),
                self.index < MAX_BUFFER_SIZE,
                pending == self.pending(),
                c <= self.channels,
                output@.len() == self.channels,
                forall|k: int| 0 <= k < c ==> #[trigger] output@[k] == pending[0][k],
            decreases self.channels - c,
        {
            output[c] = self.buffer[c][self.index];
            c += 1;
        }
        self.index += 1;
        proof {
            assert(output@ =~= pending[0]);
            assert(self.pending() =~~= pending.drop_first());
        }
    }

    fn process(&mut self, size: usize, input: &Vec<Vec<S>>, output: &mut Vec<Vec<S>>) {
        let ghost a0 = self.state();
        let mut i: usize = 0;
        proof {
            assert(silence::<S>(0) =~= Seq::<Seq<S>>::empty());
        }
        while i < size
            invariant
                i <= size,
                self.inv(),
                self.channels == old(self).channels,
                same_shape(&old(self).unit, &self.unit),
                old(output)@.len() == self.channels,
                room_for(old(output)@, size as nat),
                self.state() == run_state::<S, Self>(a0, silence(i as nat)),
                changed_only(old(output)@, output@, 0, i as int),
                holds_frames(output@, 0, run_output::<S, Self>(a0, silence(i as nat))),
            decreases size - i,
        {
            let ghost st = self.state();
            if self.index == MAX_BUFFER_SIZE {
                self.refill();
            }
            let ghost pending = self.pending();
            let n: usize = if size - i < MAX_BUFFER_SIZE - self.index {
                size - i
            } else {
                MAX_BUFFER_SIZE - self.index
            };
            let ghost prev = output@;
            copy_block(&self.buffer, self.index, output, i, n);
            self.index += n;
            proof {
                lemma_take_pending::<S, U>(st, n as nat);
                lemma_silence_split::<S>(i as nat, n as nat);
                lemma_run_split::<S, Self>(a0, silence(i as nat), silence(n as nat));
                lemma_run_output_len::<S, Self>(a0, silence(i as nat));
                assert(self.pending() =~~= pending.skip(n as int));
                let out_a = run_output::<S, Self>(a0, silence(i as nat));
                let out_b = pending.take(n as int);
                let outs = run_output::<S, Self>(a0, silence((i + n) as nat));
                assert(outs == out_a + out_b);
                assert forall|c: int, j: int| 0 <= c < output@.len() && 0 <= j < outs.len()
                    implies #[trigger] output@[c]@[0 + j] == outs[j][c] by {
                    if j < i {
                        assert(output@[c]@[j] == prev[c]@[j]);
                        assert(prev[c]@[0 + j] == out_a[j][c]);
                    } else {
                        assert(output@[c]@[i + (j - i)] == self.buffer@[c]@[(self.index - n) + (j - i)]);
                    }
                }
                assert forall|j: int| 0 <= j < outs.len() implies (#[trigger] outs[j]).len() == output@.len() by {
                    if j < i {
                        assert(outs[j] == out_a[j]);
                    } else {
                        assert(outs[j] == pending[j - i]);
                    }
                }
            }
            i = i + n;
        }
        proof {
            assert(frames_of(input@, 0, size as nat) =~~= silence::<S>(size as nat));
        }
    }

    fn inputs(&self) -> usize {
        0
    }

    fn outputs(&self) -> usize {
        self.channels
    }

    fn get_id(&self) -> u64 {
        self.unit.get_id()
    }

    fn set_hash(&mut self, hash: u64) {
    }

    fn ping(&mut self, probe: bool, hash: AttoHash) -> AttoHash {
        self.unit.ping(probe, hash)
    }

    fn footprint(&self) -> usize {
        self.unit.footprint()
    }

    fn allocate(&mut self) {
        let ghost pending = self.pending();
        reserve_blocks(&mut self.buffer);
        self.unit.allocate();
        proof {
            assert(self.pending() =~~= pending);
        }
    }
}

} // verus!
