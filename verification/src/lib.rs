//! Radix-2 number theoretic transforms over `Z_q[X]/(X^N+1)`, with several
//! backends, transient-fault injection and software fault mitigation.
use vstd::prelude::*;

pub mod error;
pub mod modarith;
pub mod params;
pub mod fault;
pub mod mitigation;
pub mod timing;
pub mod ntt;
pub mod validation;
pub mod ckks;
pub mod convolution;
pub mod demo;
