//! Rendering an instruction in one of two assembly dialects.
//!
//! An instruction is one line: the opcode of a gate in the dialect, a
//! space, and the names of the qubits acted on. The names are the caller's.

use crate::gates::{Gate, Sdg, H, I, S};
use vstd::prelude::*;
use vstd::string::StringExecFns;

verus! {

/// The line `opcode` followed by the name of the first qubit of `bits`.
pub open spec fn unary_instruction(opcode: Seq<char>, bit_names: Seq<String>, bits: Seq<usize>) -> Seq<
    char,
> {
    opcode + bit_names[bits[0] as int]@
}

/// Whether `bits` names one qubit for each qubit of a gate of arity `k`, each
/// with a name in `bit_names`.
pub open spec fn names_cover(k: nat, bit_names: Seq<String>, bits: Seq<usize>) -> bool {
    &&& bits.len() == k
    &&& forall|t: int| 0 <= t < bits.len() ==> #[trigger] bits[t] < bit_names.len()
}

/// A gate that can be written as an OpenQasm instruction.
pub trait OpenQasm: Gate {
    /// The instruction, as text.
    spec fn spec_open_qasm(&self, bit_names: Seq<String>, bits: Seq<usize>) -> Seq<char>;

    /// The OpenQasm instruction that applies this gate to the qubits `bits`,
    /// where `bit_names` holds the name of every qubit.
    fn open_qasm(&self, bit_names: &[String], bits: &[usize]) -> (text: String)
        requires
            names_cover(self.spec_nr_affected_bits(), bit_names@, bits@),
        ensures
            text@ == self.spec_open_qasm(bit_names@, bits@),
    ;
}

/// A gate that can be written as a c-Qasm instruction.
pub trait CQasm: Gate {
    /// The instruction, as text.
    spec fn spec_c_qasm(&self, bit_names: Seq<String>, bits: Seq<usize>) -> Seq<char>;

    /// The c-Qasm instruction that applies this gate to the qubits `bits`,
    /// where `bit_names` holds the name of every qubit.
    fn c_qasm(&self, bit_names: &[String], bits: &[usize]) -> (text: String)
        requires
            names_cover(self.spec_nr_affected_bits(), bit_names@, bits@),
        ensures
            text@ == self.spec_c_qasm(bit_names@, bits@),
    ;
}

/// The instruction of a gate on one qubit: `opcode`, which ends in a space,
/// and the name of the qubit.
fn render_unary(opcode: &str, bit_names: &[String], bits: &[usize]) -> (text: String)
    requires
        names_cover(1, bit_names@, bits@),
    ensures
        text@ == unary_instruction(opcode@, bit_names@, bits@),
{
    let name = &bit_names[bits[0]];
    String::from_str(opcode).concat(name.as_str())
}

impl OpenQasm for H {
    open spec fn spec_open_qasm(&self, bit_names: Seq<String>, bits: Seq<usize>) -> Seq<char> {
        unary_instruction("h "@, bit_names, bits)
    }

    fn open_qasm(&self, bit_names: &[String], bits: &[usize]) -> (text: String) {
        render_unary("h ", bit_names, bits)
    }
}

impl CQasm for H {
    open spec fn spec_c_qasm(&self, bit_names: Seq<String>, bits: Seq<usize>) -> Seq<char> {
        unary_instruction("h "@, bit_names, bits)
    }

    fn c_qasm(&self, bit_names: &[String], bits: &[usize]) -> (text: String) {
        render_unary("h ", bit_names, bits)
    }
}

impl OpenQasm for I {
    open spec fn spec_open_qasm(&self, bit_names: Seq<String>, bits: Seq<usize>) -> Seq<char> {
        unary_instruction("id "@, bit_names, bits)
    }

    fn open_qasm(&self, bit_names: &[String], bits: &[usize]) -> (text: String) {
        render_unary("id ", bit_names, bits)
    }
}

impl CQasm for I {
    open spec fn spec_c_qasm(&self, bit_names: Seq<String>, bits: Seq<usize>) -> Seq<char> {
        unary_instruction("i "@, bit_names, bits)
    }

    fn c_qasm(&self, bit_names: &[String], bits: &[usize]) -> (text: String) {
        render_unary("i ", bit_names, bits)
    }
}

impl OpenQasm for S {
    open spec fn spec_open_qasm(&self, bit_names: Seq<String>, bits: Seq<usize>) -> Seq<char> {
        unary_instruction("s "@, bit_names, bits)
    }

    fn open_qasm(&self, bit_names: &[String], bits: &[usize]) -> (text: String) {
        render_unary("s ", bit_names, bits)
    }
}

impl CQasm for S {
    open spec fn spec_c_qasm(&self, bit_names: Seq<String>, bits: Seq<usize>) -> Seq<char> {
        unary_instruction("s "@, bit_names, bits)
    }

    fn c_qasm(&self, bit_names: &[String], bits: &[usize]) -> (text: String) {
        render_unary("s ", bit_names, bits)
    }
}

impl OpenQasm for Sdg {
    open spec fn spec_open_qasm(&self, bit_names: Seq<String>, bits: Seq<usize>) -> Seq<char> {
        unary_instruction("sdg "@, bit_names, bits)
    }

    fn open_qasm(&self, bit_names: &[String], bits: &[usize]) -> (text: String) {
        render_unary("sdg ", bit_names, bits)
    }
}

impl CQasm for Sdg {
    open spec fn spec_c_qasm(&self, bit_names: Seq<String>, bits: Seq<usize>) -> Seq<char> {
        unary_instruction("sdag "@, bit_names, bits)
    }

    fn c_qasm(&self, bit_names: &[String], bits: &[usize]) -> (text: String) {
        render_unary("sdag ", bit_names, bits)
    }
}

} // verus!
