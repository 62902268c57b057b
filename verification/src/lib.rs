//! Sample-rate conversion library.
//!
//! The library turns a stream of input samples into a stream at a new rate,
//! related by a positive ratio.  Two interpolation engines are offered: a
//! two-tap linear engine and a windowed-sinc FIR engine whose filter is
//! designed from high-level parameters.  Construction validates every
//! parameter eagerly; the streaming interfaces never fail and can resume
//! after the input runs dry.

use vstd::prelude::*;

pub mod linear;
pub mod ratio;
pub mod sinc;

verus! {

/// The ways construction of a resampling plan can fail.
#[derive(Clone, Copy, PartialEq, Eq, Structural, Debug)]
pub enum Error {
    UnsupportedRatio,
    InvalidParam,
    NotEnoughParam,
}

/// Pairs an input source with a converter, so that the two travel together.
pub struct ConvertIter<I, C> {
    pub iter: I,
    pub cvtr: C,
}

impl<I, C> ConvertIter<I, C> {
    /// Bundle a source of input samples with the converter that will drain it.
    pub fn new(iter: I, cvtr: C) -> (r: Self)
        ensures
            r.iter == iter,
            r.cvtr == cvtr,
    {
        Self { iter, cvtr }
    }
}

} // verus!
