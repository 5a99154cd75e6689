use vstd::prelude::*;

verus! {

/// A reference to a graph node together with a polarity bit.
///
/// Index 0 is reserved: `(0, false)` is the constant 0 and `(0, true)` the constant 1.
#[derive(Debug, Clone, Copy, PartialEq, Eq, Hash, Structural)]
pub struct Signal {
    pub index: usize,
    pub inverted: bool,
}

/// The constant-0 signal.
pub open spec fn const0() -> Signal {
    Signal { index: 0, inverted: false }
}

/// The constant-1 signal.
pub open spec fn const1() -> Signal {
    Signal { index: 0, inverted: true }
}

impl Signal {
    pub fn new(index: usize, inverted: bool) -> (r: Signal)
        ensures
            r.index == index,
            r.inverted == inverted,
    {
        Signal { index, inverted }
    }

    /// The same node with the opposite polarity.
    pub open spec fn spec_invert(self) -> Signal {
        Signal { index: self.index, inverted: !self.inverted }
    }

    pub fn invert(self) -> (r: Signal)
        ensures
            r == self.spec_invert(),
    {
        Signal::new(self.index, !self.inverted)
    }
}

} // verus!
