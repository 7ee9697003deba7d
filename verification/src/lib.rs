//! A state-vector simulator for quantum circuits, with verified kernels.
//!
//! A state of `n` qubits is a vector of `2^n` amplitudes; a gate on `k` qubits
//! is a matrix of dimension `2^k` that acts on chosen lines of a state. The
//! crate holds
//!
//! * the scalar interface of an amplitude ([`amplitude`]) and an exact model
//!   of it ([`residue`]);
//! * dense matrices and in-place arithmetic on slices ([`cmatrix`]);
//! * the gates: what a gate reports about itself, the kernels that transform
//!   a slice in place, the built-in gates and the dense fallback ([`gates`]);
//! * the addressing of qubit lines ([`lines`], [`fiber`]) and the application
//!   of a gate to lines of a state or of a batch of states ([`qustate`]);
//! * the rendering of instructions in two assembly dialects ([`qasm`]);
//! * the identities between the built-in gates that hold for exact amplitudes
//!   ([`algebra`], [`identities`], [`norm`]).
//!
//! Every function states what it computes over the operations of the
//! amplitude type, so its contract holds for any such type; only the
//! identities need the operations to obey the laws of a ring.

pub mod algebra;
pub mod amplitude;
pub mod cmatrix;
pub mod error;
pub mod fiber;
pub mod gates;
pub mod identities;
pub mod lines;
pub mod norm;
pub mod qasm;
pub mod qustate;
pub mod residue;
