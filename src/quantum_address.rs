//! The start address of a virtual quantum.

use crate::util::{align_down, VIRTUAL_QUANTUM_SIZE};
use vstd::prelude::*;

verus! {

/// Exclusive bound of the addresses a quantum may cover (the lower half of
/// the 48-bit canonical space).
pub const ADDRESS_LIMIT: u64 = 0x8000_0000_0000;

/// The starting address of a virtual quantum: non-zero, aligned to the
/// quantum size, and with the whole quantum below `ADDRESS_LIMIT`.
#[derive(Clone, Copy)]
pub struct QuantumAddress {
    start: u64,
}

impl QuantumAddress {
    /// The start addresses a quantum may have.
    pub open spec fn valid(addr: int) -> bool {
        &&& addr != 0
        &&& addr % (VIRTUAL_QUANTUM_SIZE as int) == 0
        &&& addr + VIRTUAL_QUANTUM_SIZE <= ADDRESS_LIMIT
    }

    #[verifier::type_invariant]
    spec fn inv(&self) -> bool {
        Self::valid(self.start as int)
    }

    pub closed spec fn view(&self) -> int {
        self.start as int
    }

    pub fn start(self) -> (r: u64)
        ensures
            r == self@,
            Self::valid(r as int),
    {
        proof {
            use_type_invariant(&self);
        }
        self.start
    }

    pub fn from_start(addr: u64) -> (r: Self)
        requires
            Self::valid(addr as int),
        ensures
            r@ == addr,
    {
        QuantumAddress { start: addr }
    }

    /// The quantum that holds address `addr`.
    pub fn containing(addr: u64) -> (r: Self)
        requires
            VIRTUAL_QUANTUM_SIZE <= addr < ADDRESS_LIMIT,
        ensures
            r@ == addr - (addr as int) % (VIRTUAL_QUANTUM_SIZE as int),
            r@ <= addr < r@ + VIRTUAL_QUANTUM_SIZE,
    {
        proof {
            vstd::arithmetic::power2::lemma2_to64();
            assert(VIRTUAL_QUANTUM_SIZE == vstd::arithmetic::power2::pow2(24));
        }
        let start = align_down(addr, VIRTUAL_QUANTUM_SIZE);
        assert(start + VIRTUAL_QUANTUM_SIZE <= ADDRESS_LIMIT) by {
            assert((ADDRESS_LIMIT as int) % (VIRTUAL_QUANTUM_SIZE as int) == 0);
        }
        QuantumAddress { start }
    }
}

} // verus!
