use fundsp::hash::AttoHash;
use fundsp::unit::{ping_leaf, AudioUnit, UnitModel};

/// A constant generator with one or two outputs.
#[derive(Clone)]
struct Dc {
    values: Vec<f64>,
}

impl UnitModel<f64> for Dc {
    type State = ();
}

impl AudioUnit<f64> for Dc {
    fn reset(&mut self) {}
    fn tick(&mut self, _input: &[f64], output: &mut [f64]) {
        output.copy_from_slice(&self.values);
    }
    fn process(&mut self, size: usize, _input: &Vec<Vec<f64>>, output: &mut Vec<Vec<f64>>) {
        for (c, v) in self.values.iter().enumerate() {
            for j in 0..size {
                output[c][j] = *v;
            }
        }
    }
    fn inputs(&self) -> usize {
        0
    }
    fn outputs(&self) -> usize {
        self.values.len()
    }
    fn get_id(&self) -> u64 {
        7
    }
    fn set_hash(&mut self, _hash: u64) {}
    fn ping(&mut self, probe: bool, hash: AttoHash) -> AttoHash {
        ping_leaf(self, probe, hash)
    }
    fn footprint(&self) -> usize {
        std::mem::size_of::<Self>()
    }
}

/// Adds a constant to each channel.
#[derive(Clone)]
struct Bias {
    offsets: Vec<f64>,
}

impl UnitModel<f64> for Bias {
    type State = ();
}

impl AudioUnit<f64> for Bias {
    fn reset(&mut self) {}
    fn tick(&mut self, input: &[f64], output: &mut [f64]) {
        for c in 0..self.offsets.len() {
            output[c] = input[c] + self.offsets[c];
        }
    }
    fn process(&mut self, size: usize, input: &Vec<Vec<f64>>, output: &mut Vec<Vec<f64>>) {
        for c in 0..self.offsets.len() {
            for j in 0..size {
                output[c][j] = input[c][j] + self.offsets[c];
            }
        }
    }
    fn inputs(&self) -> usize {
        self.offsets.len()
    }
    fn outputs(&self) -> usize {
        self.offsets.len()
    }
    fn get_id(&self) -> u64 {
        8
    }
    fn set_hash(&mut self, _hash: u64) {}
    fn ping(&mut self, probe: bool, hash: AttoHash) -> AttoHash {
        ping_leaf(self, probe, hash)
    }
    fn footprint(&self) -> usize {
        std::mem::size_of::<Self>()
    }
}

#[test]
fn get_stereo_duplicates_single_output() {
    let mut dc = Dc { values: vec![7.0] };
    assert_eq!(dc.get_stereo(), (7.0, 7.0));
}

#[test]
fn get_stereo_keeps_two_outputs() {
    let mut dc = Dc { values: vec![5.0, 6.0] };
    assert_eq!(dc.get_stereo(), (5.0, 6.0));
    assert_eq!(dc.get_stereo(), (5.0, 6.0));
}

#[test]
fn filter_mono_adds_bias() {
    let mut add = Bias { offsets: vec![4.0] };
    assert_eq!(add.filter_mono(5.0), 9.0);
    assert_eq!(add.filter_mono(-1.5), 2.5);
}

#[test]
fn filter_stereo_adds_bias() {
    let mut add = Bias { offsets: vec![2.0, 3.0] };
    assert_eq!(add.filter_stereo(4.0, 5.0), (6.0, 8.0));
}
