use vstd::prelude::*;

verus! {

/// What a target CPU offers: its register count and its RAM and ROM sizes.
#[derive(Debug, Clone, Copy, PartialEq, Eq)]
pub struct CPUSpecs {
    registers: u8,
    ram: u64,
    rom: u64,
}

impl CPUSpecs {
    pub closed spec fn spec_registers(&self) -> u8 {
        self.registers
    }

    pub closed spec fn spec_ram(&self) -> u64 {
        self.ram
    }

    pub closed spec fn spec_rom(&self) -> u64 {
        self.rom
    }

    pub fn new(registers: u8, ram: u64, rom: u64) -> (r: Self)
        ensures
            r.spec_registers() == registers,
            r.spec_ram() == ram,
            r.spec_rom() == rom,
    {
        CPUSpecs { registers, ram, rom }
    }

    /// The number of registers; valid register indices are below it.
    pub fn registers(&self) -> (r: u8)
        ensures
            r == self.spec_registers(),
    {
        self.registers
    }

    pub fn ram(&self) -> (r: u64)
        ensures
            r == self.spec_ram(),
    {
        self.ram
    }

    pub fn rom(&self) -> (r: u64)
        ensures
            r == self.spec_rom(),
    {
        self.rom
    }
}

} // verus!
