use fundsp::adapter::{BigBlockAdapter, BlockRateAdapter};
use fundsp::hash::AttoHash;
use fundsp::unit::{ping_leaf, AudioUnit, UnitModel, MAX_BUFFER_SIZE};

/// Two inputs, two outputs: running sums of each input, the second scaled.
#[derive(Clone)]
struct Integrator {
    sums: [f64; 2],
}

impl UnitModel<f64> for Integrator {
    type State = ();
}

impl AudioUnit<f64> for Integrator {
    fn reset(&mut self) {
        self.sums = [0.0, 0.0];
    }
    fn tick(&mut self, input: &[f64], output: &mut [f64]) {
        self.sums[0] += input[0];
        self.sums[1] += 2.0 * input[1];
        output[0] = self.sums[0];
        output[1] = self.sums[1];
    }
    fn process(&mut self, size: usize, input: &Vec<Vec<f64>>, output: &mut Vec<Vec<f64>>) {
        assert!(size <= MAX_BUFFER_SIZE, "block too large for a plain unit");
        for j in 0..size {
            self.sums[0] += input[0][j];
            self.sums[1] += 2.0 * input[1][j];
            output[0][j] = self.sums[0];
            output[1][j] = self.sums[1];
        }
    }
    fn inputs(&self) -> usize {
        2
    }
    fn outputs(&self) -> usize {
        2
    }
    fn get_id(&self) -> u64 {
        101
    }
    fn set_hash(&mut self, _hash: u64) {}
    fn ping(&mut self, probe: bool, hash: AttoHash) -> AttoHash {
        ping_leaf(self, probe, hash)
    }
    fn footprint(&self) -> usize {
        std::mem::size_of::<Self>()
    }
}

/// A generator without inputs: a counter on channel 0, its square on channel 1.
#[derive(Clone)]
struct Counter {
    n: u64,
}

impl UnitModel<f64> for Counter {
    type State = ();
}

impl AudioUnit<f64> for Counter {
    fn reset(&mut self) {
        self.n = 0;
    }
    fn tick(&mut self, _input: &[f64], output: &mut [f64]) {
        output[0] = self.n as f64;
        output[1] = (self.n * self.n) as f64;
        self.n += 1;
    }
    fn process(&mut self, size: usize, _input: &Vec<Vec<f64>>, output: &mut Vec<Vec<f64>>) {
        assert!(size <= MAX_BUFFER_SIZE, "block too large for a plain unit");
        for j in 0..size {
            output[0][j] = self.n as f64;
            output[1][j] = (self.n * self.n) as f64;
            self.n += 1;
        }
    }
    fn inputs(&self) -> usize {
        0
    }
    fn outputs(&self) -> usize {
        2
    }
    fn get_id(&self) -> u64 {
        102
    }
    fn set_hash(&mut self, _hash: u64) {}
    fn ping(&mut self, probe: bool, hash: AttoHash) -> AttoHash {
        ping_leaf(self, probe, hash)
    }
    fn footprint(&self) -> usize {
        std::mem::size_of::<Self>()
    }
}

fn signal(channel: usize, j: usize) -> f64 {
    ((j * 7 + channel * 3) % 11) as f64 - 5.0
}

fn input_buffers(size: usize) -> Vec<Vec<f64>> {
    (0..2).map(|c| (0..size).map(|j| signal(c, j)).collect()).collect()
}

fn ticked(size: usize) -> Vec<Vec<f64>> {
    let mut unit = Integrator { sums: [0.0, 0.0] };
    let mut out = vec![vec![0.0; size]; 2];
    for j in 0..size {
        let mut frame = [0.0, 0.0];
        unit.tick(&[signal(0, j), signal(1, j)], &mut frame);
        out[0][j] = frame[0];
        out[1][j] = frame[1];
    }
    out
}

fn check_big_block(size: usize) {
    let mut adapter = BigBlockAdapter::new(Integrator { sums: [0.0, 0.0] });
    let input = input_buffers(size);
    let mut output = vec![vec![99.0; size + 3]; 2];
    adapter.process(size, &input, &mut output);
    let expected = ticked(size);
    for c in 0..2 {
        assert_eq!(&output[c][..size], &expected[c][..]);
        assert_eq!(&output[c][size..], &[99.0, 99.0, 99.0]);
    }
}

#[test]
fn big_block_matches_ticks_below_block_size() {
    check_big_block(1);
    check_big_block(63);
}

#[test]
fn big_block_matches_ticks_at_block_size() {
    check_big_block(MAX_BUFFER_SIZE);
}

#[test]
fn big_block_matches_ticks_above_block_size() {
    check_big_block(MAX_BUFFER_SIZE + 1);
    check_big_block(200);
    check_big_block(1000);
}

#[test]
fn big_block_size_zero_is_no_op() {
    let mut adapter = BigBlockAdapter::new(Integrator { sums: [0.0, 0.0] });
    let input = input_buffers(0);
    let mut output = vec![vec![4.0; 2]; 2];
    adapter.process(0, &input, &mut output);
    assert_eq!(output, vec![vec![4.0; 2]; 2]);
    let mut frame = [0.0, 0.0];
    adapter.tick(&[1.0, 1.0], &mut frame);
    assert_eq!(frame, [1.0, 2.0]);
}

#[test]
fn big_block_consecutive_calls_continue_the_signal() {
    let mut adapter = BigBlockAdapter::new(Integrator { sums: [0.0, 0.0] });
    adapter.allocate();
    let input = vec![vec![1.0; 150]; 2];
    let mut first = vec![vec![0.0; 150]; 2];
    adapter.process(150, &input, &mut first);
    let mut second = vec![vec![0.0; 150]; 2];
    adapter.process(100, &input, &mut second);
    assert_eq!(first[0][149], 150.0);
    assert_eq!(second[0][0], 151.0);
    assert_eq!(second[0][99], 250.0);
    assert_eq!(second[1][99], 500.0);
    assert_eq!(second[0][100], 0.0);
    assert_eq!(adapter.inputs(), 2);
    assert_eq!(adapter.outputs(), 2);
    assert_eq!(adapter.get_id(), 101);
}

fn direct_counter(total: usize) -> Vec<(f64, f64)> {
    (0..total as u64).map(|n| (n as f64, (n * n) as f64)).collect()
}

fn pull_in_chunks(chunk: usize, total: usize) -> Vec<(f64, f64)> {
    let mut adapter = BlockRateAdapter::new(Counter { n: 0 });
    let mut got = Vec::new();
    let none: Vec<Vec<f64>> = Vec::new();
    while got.len() < total {
        let n = chunk.min(total - got.len());
        let mut out = vec![vec![0.0; n]; 2];
        adapter.process(n, &none, &mut out);
        for j in 0..n {
            got.push((out[0][j], out[1][j]));
        }
    }
    got
}

#[test]
fn block_rate_chunk_sizes_give_same_sequence() {
    let total = 2500;
    let expected = direct_counter(total);
    for chunk in [1, 7, 64, 1000] {
        assert_eq!(pull_in_chunks(chunk, total), expected, "chunk size {}", chunk);
    }
}

#[test]
fn block_rate_mixed_ticks_and_blocks() {
    let mut adapter = BlockRateAdapter::new(Counter { n: 0 });
    let none: Vec<Vec<f64>> = Vec::new();
    let mut got = Vec::new();
    let mut frame = [0.0, 0.0];
    adapter.tick(&[], &mut frame);
    got.push((frame[0], frame[1]));
    let mut out = vec![vec![0.0; 130]; 2];
    adapter.process(130, &none, &mut out);
    for j in 0..130 {
        got.push((out[0][j], out[1][j]));
    }
    for _ in 0..5 {
        adapter.tick(&[], &mut frame);
        got.push((frame[0], frame[1]));
    }
    assert_eq!(got, direct_counter(136));
    assert_eq!(adapter.inputs(), 0);
    assert_eq!(adapter.outputs(), 2);
}

#[test]
fn block_rate_reset_starts_over() {
    let mut adapter = BlockRateAdapter::new(Counter { n: 0 });
    let mut frame = [0.0, 0.0];
    for _ in 0..10 {
        adapter.tick(&[], &mut frame);
    }
    assert_eq!(frame, [9.0, 81.0]);
    adapter.reset();
    adapter.tick(&[], &mut frame);
    assert_eq!(frame, [0.0, 0.0]);
    adapter.tick(&[], &mut frame);
    assert_eq!(frame, [1.0, 1.0]);
}

#[test]
fn block_rate_get_stereo_pulls_frames() {
    let mut adapter = BlockRateAdapter::new(Counter { n: 5 });
    assert_eq!(adapter.get_stereo(), (5.0, 25.0));
    assert_eq!(adapter.get_stereo(), (6.0, 36.0));
}
