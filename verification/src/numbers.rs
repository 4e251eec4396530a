//! The binary forms of the numbers that a file embeds. Choosing a number's
//! width and writing its bits is floating-point work, done by the caller;
//! the encoder places the results.
use vstd::prelude::*;

use crate::text::{chars_eq, chars_of};

verus! {

/// The binary forms of one number, as written by its literal text.
#[derive(Clone, Debug, PartialEq, Eq)]
pub struct NumberCode {
    /// The number as the file writes it, e.g. `-1.5`.
    pub literal: String,
    /// The opcode that announces the number as an iota of its own.
    pub scalar_opcode: String,
    /// The bits of the number as an iota of its own.
    pub scalar_bits: String,
    /// The opcode that announces the number as a component of a vector.
    pub component_opcode: String,
    /// The bits of the number as a component of a vector.
    pub component_bits: String,
}

impl NumberCode {
    /// A number's binary forms.
    pub fn new(
        literal: String,
        scalar_opcode: String,
        scalar_bits: String,
        component_opcode: String,
        component_bits: String,
    ) -> (c: NumberCode)
        ensures
            c.literal@ == literal@,
            c.scalar_opcode@ == scalar_opcode@,
            c.scalar_bits@ == scalar_bits@,
            c.component_opcode@ == component_opcode@,
            c.component_bits@ == component_bits@,
    {
        NumberCode { literal, scalar_opcode, scalar_bits, component_opcode, component_bits }
    }
}

/// The place of the first code for the number written `lit`.
pub open spec fn number_index(codes: Seq<NumberCode>, lit: Seq<char>) -> Option<int>
    decreases codes.len(),
{
    if codes.len() == 0 {
        None
    } else {
        match number_index(codes.drop_last(), lit) {
            Some(i) => Some(i),
            None => if codes.last().literal@ == lit {
                Some(codes.len() - 1)
            } else {
                None
            },
        }
    }
}

/// The first code for the number written `lit`.
pub open spec fn lookup_number(codes: Seq<NumberCode>, lit: Seq<char>) -> Option<NumberCode> {
    match number_index(codes, lit) {
        Some(i) => Some(codes[i]),
        None => None,
    }
}

/// `number_index` finds the first code for `lit`.
pub proof fn lemma_number_index(codes: Seq<NumberCode>, lit: Seq<char>)
    ensures
        match number_index(codes, lit) {
            Some(i) => 0 <= i < codes.len() && codes[i].literal@ == lit,
            None => forall|j: int| 0 <= j < codes.len() ==> codes[j].literal@ != lit,
        },
    decreases codes.len(),
{
    if codes.len() > 0 {
        let init = codes.drop_last();
        lemma_number_index(init, lit);
        match number_index(init, lit) {
            Some(i) => {
                assert(codes[i] == init[i]);
            },
            None => {
                assert forall|j: int| 0 <= j < codes.len() - 1 implies codes[j].literal@ != lit by {
                    assert(codes[j] == init[j]);
                }
            },
        }
    }
}

proof fn lemma_number_index_extend(codes: Seq<NumberCode>, lit: Seq<char>, n: int)
    requires
        0 <= n <= codes.len(),
        number_index(codes.take(n), lit) is Some,
    ensures
        number_index(codes, lit) == number_index(codes.take(n), lit),
    decreases codes.len() - n,
{
    if n < codes.len() {
        assert(codes.take(n + 1).drop_last() =~= codes.take(n));
        lemma_number_index_extend(codes, lit, n + 1);
    } else {
        assert(codes.take(n) =~= codes);
    }
}

/// The place of the first code for the number written `lit`.
pub fn find_number(codes: &Vec<NumberCode>, lit: &Vec<char>) -> (r: Option<usize>)
    ensures
        match r {
            Some(i) => number_index(codes@, lit@) == Some(i as int) && i < codes.len(),
            None => number_index(codes@, lit@) is None,
        },
{
    let mut i: usize = 0;
    while i < codes.len()
        invariant
            i <= codes.len(),
            number_index(codes@.take(i as int), lit@) is None,
        decreases codes.len() - i,
    {
        assert(codes@.take(i + 1).drop_last() =~= codes@.take(i as int));
        let l = chars_of(codes[i].literal.as_str());
        if chars_eq(&l, lit) {
            proof {
                assert(number_index(codes@.take(i + 1), lit@) == Some(i as int));
                lemma_number_index_extend(codes@, lit@, i + 1);
            }
            return Some(i);
        }
        i = i + 1;
    }
    assert(codes@.take(codes.len() as int) =~= codes@);
    None
}

} // verus!
