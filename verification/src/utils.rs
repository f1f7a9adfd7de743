use vstd::prelude::*;

verus! {

/// Identifier of a controller (a logic gate or a switch) in a blueprint.
pub type Id = u32;

/// The name of a signal: a letter and a bit index, written `A0`, `O7`, ...
#[derive(Debug, Clone, Copy, PartialEq, Eq, Structural, Hash)]
pub struct SignalName(pub char, pub u8);

impl SignalName {
    /// The order of signal names: by letter, then by bit index.
    pub open spec fn spec_before(self, other: SignalName) -> bool {
        (self.0 as u32) < (other.0 as u32) || (self.0 == other.0 && self.1 < other.1)
    }

    /// `true` when `self` comes strictly before `other` (letter first, then index).
    pub fn before(&self, other: &SignalName) -> (r: bool)
        ensures
            r == self.spec_before(*other),
    {
        (self.0 as u32) < (other.0 as u32) || (self.0 == other.0 && self.1 < other.1)
    }
}

/// The contents of the test ROM: word `i` holds `4 * i`.
pub open spec fn test_rom_word(i: int) -> u32 {
    (4 * i) as u32
}

/// A ROM image of 1024 words where word `i` is `4 * i`.
pub fn gen_test_rom_vec() -> (arr: Vec<u32>)
    ensures
        arr@.len() == 1024,
        forall|i: int| 0 <= i < 1024 ==> arr@[i] == test_rom_word(i),
{
    let mut arr: Vec<u32> = Vec::new();
    let mut i: usize = 0;
    while i < 1024
        invariant
            i <= 1024,
            arr@.len() == i,
            forall|j: int| 0 <= j < i ==> arr@[j] == test_rom_word(j),
        decreases 1024 - i,
    {
        arr.push((i * 4) as u32);
        i += 1;
    }
    arr
}

} // verus!
