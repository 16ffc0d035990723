//! Real-mode addressing and the register state handed to real-mode services.
use vstd::prelude::*;

verus! {

/// The registers and selectors loaded before, and read back after, a real-mode interrupt.
#[derive(Clone, Copy, Debug, Default, PartialEq, Eq, Structural)]
pub struct RegSelState {
    pub eax: u32,
    pub ecx: u32,
    pub edx: u32,
    pub ebx: u32,
    pub esp: u32,
    pub ebp: u32,
    pub esi: u32,
    pub edi: u32,
    pub eflags: u32,
    pub ds: u16,
    pub es: u16,
    pub ss: u16,
    pub gs: u16,
    pub fs: u16,
}

/// A real-mode address: a 16-bit segment and a 16-bit offset into it.
#[derive(Clone, Copy, Debug, Default, PartialEq, Eq, Structural)]
pub struct RealModeAddr {
    pub off: u16,
    pub seg: u16,
}

impl RealModeAddr {
    /// The linear address `seg * 16 + off`.
    pub open spec fn linear_spec(self) -> int {
        self.seg * 16 + self.off
    }

    pub fn new(seg: u16, off: u16) -> (r: Self)
        ensures
            r.seg == seg,
            r.off == off,
    {
        Self { seg, off }
    }

    /// The address as a linear value.
    pub fn linear(&self) -> (r: u32)
        ensures
            r == self.linear_spec(),
    {
        let seg = self.seg as u32;
        proof {
            assert(seg << 4u32 == seg * 16 && seg * 16 <= 0xf_fff0) by (bit_vector)
                requires
                    seg <= 0xffff,
            ;
        }
        (seg << 4u32) + self.off as u32
    }

    /// The real-mode address of a linear address below 1 MiB: the offset holds the low 16 bits
    /// and the segment the bits above them. `None` for an address that needs more than 20 bits.
    pub fn _from_linear(addr: u32) -> (r: Option<Self>)
        ensures
            r is Some <==> addr <= 0xf_ffff,
            r matches Some(a) ==> a.linear_spec() == addr && a.off == addr % 0x1_0000,
    {
        if addr > 0xf_ffff {
            return None;
        }
        let seg = ((0xf_0000u32 & addr) >> 4u32) as u16;
        let off = (addr & 0xffffu32) as u16;
        proof {
            assert(((0xf_0000u32 & addr) >> 4u32) < 0x1_0000 && (addr & 0xffffu32) < 0x1_0000
                && addr & 0xffffu32 == addr % 0x1_0000 && ((0xf_0000u32 & addr) >> 4u32) * 16
                + (addr & 0xffffu32) == addr) by (bit_vector)
                requires
                    addr <= 0xf_ffff,
            ;
        }
        Some(Self { off, seg })
    }
}

} // verus!
