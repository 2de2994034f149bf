//! The addressable memory image: 4096 bytes, the first 80 of which hold the
//! built-in glyph font (one 5-byte sprite per hexadecimal digit).

use vstd::prelude::*;

verus! {

/// Number of addressable bytes.
pub const MEM_SIZE: usize = 4096;

/// Number of bytes taken by the built-in glyph font: 16 glyphs of 5 bytes.
pub const FONT_SIZE: usize = 80;

/// The glyph font: for each digit 0 to F, five bytes of row pixels.
pub open spec fn font_seq() -> Seq<u8> {
    seq![
        0xF0u8, 0x90u8, 0x90u8, 0x90u8, 0xF0u8, // 0
        0x20u8, 0x60u8, 0x20u8, 0x20u8, 0x70u8, // 1
        0xF0u8, 0x10u8, 0xF0u8, 0x80u8, 0xF0u8, // 2
        0xF0u8, 0x10u8, 0xF0u8, 0x10u8, 0xF0u8, // 3
        0x90u8, 0x90u8, 0xF0u8, 0x10u8, 0x10u8, // 4
        0xF0u8, 0x80u8, 0xF0u8, 0x10u8, 0xF0u8, // 5
        0xF0u8, 0x80u8, 0xF0u8, 0x90u8, 0xF0u8, // 6
        0xF0u8, 0x10u8, 0x20u8, 0x40u8, 0x40u8, // 7
        0xF0u8, 0x90u8, 0xF0u8, 0x90u8, 0xF0u8, // 8
        0xF0u8, 0x90u8, 0xF0u8, 0x10u8, 0xF0u8, // 9
        0xF0u8, 0x90u8, 0xF0u8, 0x90u8, 0x90u8, // A
        0xE0u8, 0x90u8, 0xE0u8, 0x90u8, 0xE0u8, // B
        0xF0u8, 0x80u8, 0x80u8, 0x80u8, 0xF0u8, // C
        0xE0u8, 0x90u8, 0x90u8, 0x90u8, 0xE0u8, // D
        0xF0u8, 0x80u8, 0xF0u8, 0x80u8, 0xF0u8, // E
        0xF0u8, 0x80u8, 0xF0u8, 0x80u8, 0x80u8, // F
    ]
}

/// The memory contents right after construction: the glyph font followed by
/// zeroes up to `MEM_SIZE`.
pub open spec fn mem_init() -> Seq<u8> {
    Seq::new(MEM_SIZE as nat, |a: int| if a < FONT_SIZE { font_seq()[a] } else { 0u8 })
}

/// The big-endian 16-bit value stored at `adr`: the byte at `adr` is the high
/// byte, the byte at `adr + 1` the low byte.
pub open spec fn halfword_spec(mem: Seq<u8>, adr: int) -> u16 {
    ((mem[adr] as int) * 256 + (mem[adr + 1] as int)) as u16
}

/// A fixed 4096-byte addressable space.
pub struct Ram {
    mem: Vec<u8>,
}

impl View for Ram {
    type V = Seq<u8>;

    closed spec fn view(&self) -> Seq<u8> {
        self.mem@
    }
}

impl Ram {
    /// A memory image holds exactly `MEM_SIZE` bytes.
    pub open spec fn wf(&self) -> bool {
        self@.len() == MEM_SIZE
    }

    /// A fresh memory image: the glyph font at addresses 0 to 79, zeroes
    /// everywhere above.
    pub fn new() -> (r: Ram)
        ensures
            r.wf(),
            r@ == mem_init(),
    {
        let mut mem: Vec<u8> = Vec::new();
        mem.push(0xF0); mem.push(0x90); mem.push(0x90); mem.push(0x90); mem.push(0xF0);
        mem.push(0x20); mem.push(0x60); mem.push(0x20); mem.push(0x20); mem.push(0x70);
        mem.push(0xF0); mem.push(0x10); mem.push(0xF0); mem.push(0x80); mem.push(0xF0);
        mem.push(0xF0); mem.push(0x10); mem.push(0xF0); mem.push(0x10); mem.push(0xF0);
        mem.push(0x90); mem.push(0x90); mem.push(0xF0); mem.push(0x10); mem.push(0x10);
        mem.push(0xF0); mem.push(0x80); mem.push(0xF0); mem.push(0x10); mem.push(0xF0);
        mem.push(0xF0); mem.push(0x80); mem.push(0xF0); mem.push(0x90); mem.push(0xF0);
        mem.push(0xF0); mem.push(0x10); mem.push(0x20); mem.push(0x40); mem.push(0x40);
        mem.push(0xF0); mem.push(0x90); mem.push(0xF0); mem.push(0x90); mem.push(0xF0);
        mem.push(0xF0); mem.push(0x90); mem.push(0xF0); mem.push(0x10); mem.push(0xF0);
        mem.push(0xF0); mem.push(0x90); mem.push(0xF0); mem.push(0x90); mem.push(0x90);
        mem.push(0xE0); mem.push(0x90); mem.push(0xE0); mem.push(0x90); mem.push(0xE0);
        mem.push(0xF0); mem.push(0x80); mem.push(0x80); mem.push(0x80); mem.push(0xF0);
        mem.push(0xE0); mem.push(0x90); mem.push(0x90); mem.push(0x90); mem.push(0xE0);
        mem.push(0xF0); mem.push(0x80); mem.push(0xF0); mem.push(0x80); mem.push(0xF0);
        mem.push(0xF0); mem.push(0x80); mem.push(0xF0); mem.push(0x80); mem.push(0x80);
        proof {
            assert(mem@ =~= font_seq());
        }
        while mem.len() < MEM_SIZE
            invariant
                FONT_SIZE <= mem@.len() <= MEM_SIZE,
                forall|k: int| 0 <= k < FONT_SIZE ==> mem@[k] == font_seq()[k],
                forall|k: int| FONT_SIZE <= k < mem@.len() ==> mem@[k] == 0u8,
            decreases MEM_SIZE - mem@.len(),
        {
            mem.push(0);
        }
        let r = Ram { mem };
        proof {
            assert(r@ =~= mem_init());
        }
        r
    }

    /// The byte stored at `adr`.
    pub fn read_byte(&self, adr: usize) -> (r: u8)
        requires
            self.wf(),
            adr < MEM_SIZE,
        ensures
            r == self@[adr as int],
    {
        self.mem[adr]
    }

    /// The big-endian 16-bit value whose high byte sits at `adr`.
    pub fn read_halfword(&self, adr: usize) -> (r: u16)
        requires
            self.wf(),
            adr + 1 < MEM_SIZE,
        ensures
            r == halfword_spec(self@, adr as int),
    {
        (self.mem[adr] as u16) * 256 + (self.mem[adr + 1] as u16)
    }

    /// Stores `data` at `adr`, leaving every other byte unchanged.
    pub fn write(&mut self, adr: u16, data: u8)
        requires
            old(self).wf(),
            adr < 4096,
        ensures
            final(self).wf(),
            final(self)@ == old(self)@.update(adr as int, data),
    {
        self.mem[adr as usize] = data;
    }
}

} // verus!
