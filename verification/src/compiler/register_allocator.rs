//! Which of the 256 registers of a function are in use.

use crate::opcode::RegisterIndex;
use vstd::prelude::*;

verus! {

/// How many registers a function can have.
pub const REGISTERS: u16 = 256;

/// Hands out the registers of one function.
///
/// Single registers are handed out anywhere, blocks of registers only at the top of the stack.
/// The top lies above every register in use. Mostly it lies directly above the highest one;
/// after [`RegisterAllocator::pop_to`] it may lie higher, so that values which a call left at
/// the top can still be claimed where they are by the very next block.
#[derive(Debug)]
pub struct RegisterAllocator {
    registers: [bool; 256],
    stack_top: u16,
    stack_size: u16,
}

/// The state of a [`RegisterAllocator`].
#[verifier::ext_equal]
pub struct Registers {
    /// The registers in use.
    pub used: Set<int>,
    /// Where the next block begins.
    pub top: int,
    /// The highest top so far.
    pub size: int,
}

/// The lowest register that is not in use, from `from` on, or 256.
pub open spec fn lowest_free(used: Set<int>, from: int) -> int
    decreases REGISTERS - from,
{
    if from >= REGISTERS {
        REGISTERS as int
    } else if !used.contains(from) {
        from
    } else {
        lowest_free(used, from + 1)
    }
}

/// One more than the highest register in use below `below`, or 0.
pub open spec fn height(used: Set<int>, below: int) -> int
    decreases below,
{
    if below <= 0 {
        0
    } else if used.contains(below - 1) {
        below
    } else {
        height(used, below - 1)
    }
}

pub open spec fn max(a: int, b: int) -> int {
    if a >= b {
        a
    } else {
        b
    }
}

impl Registers {
    /// No register is in use, and none has been.
    pub open spec fn empty() -> Registers {
        Registers { used: Set::empty(), top: 0, size: 0 }
    }

    /// The register that is handed out next.
    pub open spec fn next(self) -> int {
        lowest_free(self.used, 0)
    }

    /// The lowest free register has been taken.
    pub open spec fn allocate(self) -> Registers {
        let top = max(self.top, self.next() + 1);
        Registers { used: self.used.insert(self.next()), top, size: max(self.size, top) }
    }

    /// The top lies directly above the highest register in use.
    pub open spec fn settle(self) -> Registers {
        Registers { top: height(self.used, REGISTERS as int), ..self }
    }

    /// A register has been given back.
    pub open spec fn free(self, register: int) -> Registers {
        Registers { used: self.used.remove(register), ..self }.settle()
    }

    /// Whether there is room for a block of `count` registers.
    pub open spec fn has_room(self, count: int) -> bool {
        0 < count && self.top + count <= REGISTERS
    }

    /// A block of `count` registers has been taken at the top.
    pub open spec fn push(self, count: int) -> Registers {
        let top = self.top + count;
        Registers {
            used: self.used.union(Set::new(|i: int| self.top <= i < top)),
            top,
            size: max(self.size, top),
        }
    }

    /// All registers from `new_top` on have been given back, and `new_top` is the top.
    pub open spec fn pop_to(self, new_top: int) -> Registers {
        if new_top < self.top {
            Registers {
                used: self.used.intersect(Set::new(|i: int| i < new_top)),
                top: new_top,
                size: self.size,
            }
        } else {
            self
        }
    }
}

impl View for RegisterAllocator {
    type V = Registers;

    closed spec fn view(&self) -> Registers {
        Registers {
            used: Set::new(|i: int| 0 <= i < 256 && self.registers@[i]),
            top: self.stack_top as int,
            size: self.stack_size as int,
        }
    }
}

impl RegisterAllocator {
    /// The top is within bounds and above every register in use.
    pub closed spec fn well_formed(self) -> bool {
        &&& self.stack_top <= self.stack_size <= 256
        &&& forall|i: int| 0 <= i < 256 && self.registers@[i] ==> i < self.stack_top
    }

    /// The top is at most 256 and lies above every register in use.
    pub proof fn law_bounds(self)
        requires
            self.well_formed(),
        ensures
            0 <= self@.top <= self@.size <= REGISTERS,
            forall|i: int| #[trigger] self@.used.contains(i) ==> 0 <= i < self@.top,
    {
    }

    pub fn new() -> (allocator: RegisterAllocator)
        ensures
            allocator.well_formed(),
            allocator@ == Registers::empty(),
    {
        let allocator = RegisterAllocator {
            registers: [false; 256],
            stack_top: 0,
            stack_size: 0,
        };
        assert(allocator@.used =~= Set::empty());
        allocator
    }

    /// Takes the lowest free register, or `None` where all are in use.
    pub fn allocate(&mut self) -> (register: Option<RegisterIndex>)
        requires
            old(self).well_formed(),
        ensures
            final(self).well_formed(),
            register matches Some(r) ==> r.0 == old(self)@.next() && final(self)@ == old(
                self,
            )@.allocate(),
            register is None ==> old(self)@.next() == REGISTERS && final(self)@ == old(self)@,
            register is Some <==> old(self)@.next() < REGISTERS,
    {
        let mut i: u16 = 0;
        while i < REGISTERS
            invariant
                i <= 256,
                old(self)@.next() == lowest_free(self@.used, i as int),
                *self == *old(self),
                self.well_formed(),
            decreases 256 - i,
        {
            if !self.registers[i as usize] {
                let ghost before = self@;
                self.registers[i as usize] = true;
                if i >= self.stack_top {
                    self.stack_top = i + 1;
                }
                if self.stack_top > self.stack_size {
                    self.stack_size = self.stack_top;
                }
                assert(self@.used =~= before.used.insert(i as int));
                return Some(RegisterIndex(i as u8));
            }
            i += 1;
        }
        None
    }

    /// Lets the top fall back to directly above the highest register in use, and returns it.
    pub fn stack_top(&mut self) -> (top: u16)
        requires
            old(self).well_formed(),
        ensures
            final(self).well_formed(),
            final(self)@ == old(self)@.settle(),
            top == final(self)@.top,
    {
        let ghost used = self@.used;
        let mut i: u16 = REGISTERS;
        while i > 0 && !self.registers[i as usize - 1]
            invariant
                i <= 256,
                *self == *old(self),
                used == self@.used,
                forall|j: int| i <= j < 256 ==> !used.contains(j),
                height(used, i as int) == height(used, 256),
            decreases i,
        {
            i -= 1;
        }
        assert forall|j: int| 0 <= j < 256 && self.registers@[j] implies j < i by {
            assert(used.contains(j));
        }
        if i > 0 {
            assert(self.registers@[i - 1]);
        }
        self.stack_top = i;
        assert(self@.used =~= used);
        i
    }

    /// The highest top so far.
    pub fn stack_size(&self) -> (size: u16)
        ensures
            size == self@.size,
    {
        self.stack_size
    }

    /// Whether a register is in use.
    pub fn is_used(&self, register: RegisterIndex) -> (used: bool)
        ensures
            used == self@.used.contains(register.0 as int),
    {
        self.registers[register.0 as usize]
    }

    /// Gives a register back.
    pub fn free(&mut self, register: RegisterIndex)
        requires
            old(self).well_formed(),
            old(self)@.used.contains(register.0 as int),
        ensures
            final(self).well_formed(),
            final(self)@ == old(self)@.free(register.0 as int),
    {
        self.registers[register.0 as usize] = false;
        assert(self@.used =~= old(self)@.used.remove(register.0 as int));
        let _ = self.stack_top();
    }

    /// Takes a block of `count` registers at the top and returns the first of them, or `None`
    /// where `count` is 0 or there is no room.
    pub fn push(&mut self, count: u8) -> (first: Option<RegisterIndex>)
        requires
            old(self).well_formed(),
        ensures
            final(self).well_formed(),
            first matches Some(r) ==> r.0 == old(self)@.top && final(self)@ == old(self)@.push(
                count as int,
            ),
            first is None ==> final(self)@ == old(self)@,
            first is Some <==> old(self)@.has_room(count as int),
    {
        if count == 0 || self.stack_top + count as u16 > REGISTERS {
            return None;
        }
        let first: u16 = self.stack_top;
        let top: u16 = first + count as u16;
        let mut i: u16 = first;
        while i < top
            invariant
                first <= i <= top <= 256,
                self.stack_top == old(self).stack_top,
                self.stack_size == old(self).stack_size,
                forall|j: int|
                    0 <= j < 256 ==> self.registers@[j] == (old(self).registers@[j] || first <= j
                        < i),
            decreases top - i,
        {
            self.registers[i as usize] = true;
            i += 1;
        }
        self.stack_top = top;
        if top > self.stack_size {
            self.stack_size = top;
        }
        assert(self@.used =~= old(self)@.push(count as int).used);
        Some(RegisterIndex(first as u8))
    }

    /// Gives back all registers from `new_top` on and makes `new_top` the top.
    pub fn pop_to(&mut self, new_top: u16)
        requires
            old(self).well_formed(),
        ensures
            final(self).well_formed(),
            final(self)@ == old(self)@.pop_to(new_top as int),
    {
        if new_top < self.stack_top {
            let mut i: u16 = new_top;
            while i < self.stack_top
                invariant
                    new_top <= i <= self.stack_top <= 256,
                    self.stack_top == old(self).stack_top,
                    self.stack_size == old(self).stack_size,
                    forall|j: int| 0 <= j < 256 ==> self.registers@[j] == (old(self).registers@[j]
                        && !(new_top <= j < i)),
                decreases self.stack_top - i,
            {
                self.registers[i as usize] = false;
                i += 1;
            }
            self.stack_top = new_top;
            assert(self@.used =~= old(self)@.pop_to(new_top as int).used);
        }
    }
}

} // verus!
