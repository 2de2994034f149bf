//! The interpreter: machine state, fetch/decode/execute of one instruction
//! per step, and the faults a step can report.

use vstd::prelude::*;

use crate::display::{clear_spec, disp_wf, draw_row_spec, DispV, Display, RowDraw};
use crate::ram::{halfword_spec, mem_init, Ram, MEM_SIZE};

verus! {

/// Address where loaded programs begin; everything below is reserved for the
/// glyph font and system data.
pub const START_ADR: u16 = 0x200;

/// What a step or a load can report instead of a new state.
#[derive(Clone, Copy, Debug, PartialEq, Eq, Structural)]
pub enum Fault {
    /// The instruction pattern is not recognized; carries the address it was
    /// fetched from and the raw instruction bits.
    Decode { address: u16, instruction: u16 },
    /// A read or write outside the valid memory range; carries the highest
    /// address the instruction tried to touch.
    Address { address: u32 },
    /// The program does not fit between `START_ADR` and the end of memory.
    LoadOverflow,
}

/// Mathematical model of the whole machine: the interpreter registers and
/// the memory image.
#[verifier::ext_equal]
pub struct CpuV {
    pub pc: u16,
    pub i: u16,
    pub regs: Seq<u8>,
    pub stack: Seq<u16>,
    pub timer: u8,
    pub mem: Seq<u8>,
}

/// Outcome of one step: the machine, the frame buffer, and the report.
#[verifier::ext_equal]
pub struct StepOut {
    pub cpu: CpuV,
    pub disp: DispV,
    pub res: Result<(), Fault>,
}

/// The machine is well formed when it has 16 registers and 4096 memory
/// bytes.
pub open spec fn cpu_wf(c: CpuV) -> bool {
    &&& c.regs.len() == 16
    &&& c.mem.len() == MEM_SIZE
}

/// Memory after a program load: the ROM bytes sit at `START_ADR` and up,
/// every other byte keeps its value.
pub open spec fn load_spec(mem: Seq<u8>, data: Seq<u8>) -> Seq<u8> {
    Seq::new(
        mem.len(),
        |a: int|
            if 0x200 <= a < 0x200 + data.len() {
                data[a - 0x200]
            } else {
                mem[a]
            },
    )
}

/// Memory after dumping registers 0 through `k` to the addresses starting at
/// `base`.
pub open spec fn dump_regs_spec(mem: Seq<u8>, base: int, regs: Seq<u8>, k: int) -> Seq<u8>
    decreases k + 1,
{
    if k < 0 {
        mem
    } else {
        dump_regs_spec(mem, base, regs, k - 1).update(base + k, regs[k])
    }
}

/// Registers after loading registers 0 through `k` from the addresses
/// starting at `base`.
pub open spec fn load_regs_spec(regs: Seq<u8>, mem: Seq<u8>, base: int, k: int) -> Seq<u8>
    decreases k + 1,
{
    if k < 0 {
        regs
    } else {
        load_regs_spec(regs, mem, base, k - 1).update(k, mem[base + k])
    }
}

/// Drawing the first `n` sprite rows fetched from `mem[base]` on: row `r`
/// goes to the 8-bit-wrapped vertical position `y0 + r`, and the flag
/// records whether any row's draw reported an unset transition.
pub open spec fn draw_sprite_spec(
    s: Seq<u8>,
    w: nat,
    h: nat,
    x0: u8,
    y0: u8,
    mem: Seq<u8>,
    base: int,
    n: int,
) -> RowDraw
    decreases n,
{
    if n <= 0 {
        RowDraw { screen: s, unset: false }
    } else {
        let prev = draw_sprite_spec(s, w, h, x0, y0, mem, base, n - 1);
        let rd = draw_row_spec(
            prev.screen,
            w,
            h,
            x0,
            (((y0 as int) + (n - 1)) % 256) as u8,
            mem[base + n - 1],
            8,
        );
        RowDraw { screen: rd.screen, unset: prev.unset || rd.unset }
    }
}

/// The register file after an arithmetic/logic instruction of the `8XY_`
/// family, or `None` when the low selector is unrecognized. The result
/// register is written before the flag register, which matters when X is
/// the flag register itself.
pub open spec fn alu_spec(regs: Seq<u8>, xi: int, yi: int, sel: u16) -> Option<Seq<u8>> {
    let vx = regs[xi];
    let vy = regs[yi];
    if sel == 0x0 {
        Some(regs.update(xi, vy))
    } else if sel == 0x1 {
        Some(regs.update(xi, vx | vy))
    } else if sel == 0x2 {
        Some(regs.update(xi, vx & vy))
    } else if sel == 0x3 {
        Some(regs.update(xi, vx ^ vy))
    } else if sel == 0x4 {
        let s = vx as int + vy as int;
        let r1 = regs.update(xi, (s % 256) as u8);
        Some(
            if s > 255 {
                r1.update(15, 1u8)
            } else {
                r1
            },
        )
    } else if sel == 0x5 {
        let r1 = regs.update(xi, (((vx as int - vy as int) + 256) % 256) as u8);
        Some(
            r1.update(
                15,
                if vx < vy {
                    1u8
                } else {
                    0u8
                },
            ),
        )
    } else if sel == 0x6 {
        let r1 = regs.update(15, vx & 1);
        Some(r1.update(xi, ((r1[xi] as int) / 2) as u8))
    } else if sel == 0x7 {
        let r1 = regs.update(xi, (((vy as int - vx as int) + 256) % 256) as u8);
        Some(
            r1.update(
                15,
                if vy < vx {
                    1u8
                } else {
                    0u8
                },
            ),
        )
    } else if sel == 0xE {
        let r1 = regs.update(15, (((vx & 0x80) as int) / 128) as u8);
        Some(r1.update(xi, ((r1[xi] as int * 2) % 256) as u8))
    } else {
        None
    }
}

/// The machine after an instruction of the `FX__` family, a fault, or
/// `None` when the low byte is unrecognized.
pub open spec fn misc_spec(c: CpuV, key: u8, xi: int, nn: u8, pc2: u16) -> Option<
    Result<CpuV, Fault>,
> {
    if nn == 0x07 {
        let t = if c.timer > 0 {
            (c.timer - 1) as u8
        } else {
            0u8
        };
        Some(Ok(CpuV { pc: pc2, timer: t, regs: c.regs.update(xi, t), ..c }))
    } else if nn == 0x0A {
        if key == 0 {
            Some(Ok(c))
        } else {
            Some(Ok(CpuV { pc: pc2, regs: c.regs.update(xi, key), ..c }))
        }
    } else if nn == 0x15 {
        Some(Ok(CpuV { pc: pc2, timer: c.regs[xi], ..c }))
    } else if nn == 0x18 {
        Some(Ok(CpuV { pc: pc2, ..c }))
    } else if nn == 0x1E {
        Some(Ok(CpuV { pc: pc2, i: ((c.i as int + c.regs[xi] as int) % 0x10000) as u16, ..c }))
    } else if nn == 0x29 {
        Some(Ok(CpuV { pc: pc2, i: (c.regs[xi] as int * 5) as u16, ..c }))
    } else if nn == 0x33 {
        if c.i as int + 2 >= MEM_SIZE as int {
            Some(Err(Fault::Address { address: (c.i as int + 2) as u32 }))
        } else {
            let vx = c.regs[xi];
            Some(
                Ok(
                    CpuV {
                        pc: pc2,
                        mem: c.mem.update(c.i as int, ((vx as int) / 100) as u8).update(
                            c.i as int + 2,
                            (((vx as int) % 100) / 10) as u8,
                        ),
                        ..c
                    },
                ),
            )
        }
    } else if nn == 0x55 {
        if c.i as int + xi >= MEM_SIZE as int {
            Some(Err(Fault::Address { address: (c.i as int + xi) as u32 }))
        } else {
            Some(Ok(CpuV { pc: pc2, mem: dump_regs_spec(c.mem, c.i as int, c.regs, xi), ..c }))
        }
    } else if nn == 0x65 {
        if c.i as int + xi >= MEM_SIZE as int {
            Some(Err(Fault::Address { address: (c.i as int + xi) as u32 }))
        } else {
            Some(Ok(CpuV { pc: pc2, regs: load_regs_spec(c.regs, c.mem, c.i as int, xi), ..c }))
        }
    } else {
        None
    }
}

/// One decoded instruction executed on a fetched machine: the complete
/// dispatch table of the instruction set.
pub open spec fn step_instr(c: CpuV, d: DispV, key: u8, rnd: u8, instr: u16) -> StepOut {
    let op = instr >> 12;
    let xi = ((instr >> 8) & 0xF) as int;
    let yi = ((instr >> 4) & 0xF) as int;
    let nn = (instr & 0xFF) as u8;
    let nnn = instr & 0xFFF;
    let pc2 = (c.pc + 2) as u16;
    let pc4 = (c.pc + 4) as u16;
    let decode = (StepOut {
        cpu: c,
        disp: d,
        res: Err(Fault::Decode { address: c.pc, instruction: instr }),
    });
    if op == 0x0 {
        if nn == 0xE0 {
            StepOut { cpu: (CpuV { pc: pc2, ..c }), disp: clear_spec(d), res: Ok(()) }
        } else if nn == 0xEE {
            if c.stack.len() > 0 {
                StepOut {
                    cpu: (CpuV { pc: c.stack.last(), stack: c.stack.drop_last(), ..c }),
                    disp: d,
                    res: Ok(()),
                }
            } else {
                StepOut { cpu: (CpuV { pc: pc2, ..c }), disp: d, res: Ok(()) }
            }
        } else {
            decode
        }
    } else if op == 0x1 {
        StepOut { cpu: (CpuV { pc: nnn, ..c }), disp: d, res: Ok(()) }
    } else if op == 0x2 {
        StepOut { cpu: (CpuV { pc: nnn, stack: c.stack.push(pc2), ..c }), disp: d, res: Ok(()) }
    } else if op == 0x3 {
        let npc = if c.regs[xi] == nn {
            pc4
        } else {
            pc2
        };
        StepOut { cpu: (CpuV { pc: npc, ..c }), disp: d, res: Ok(()) }
    } else if op == 0x4 {
        let npc = if c.regs[xi] != nn {
            pc4
        } else {
            pc2
        };
        StepOut { cpu: (CpuV { pc: npc, ..c }), disp: d, res: Ok(()) }
    } else if op == 0x5 {
        let npc = if c.regs[xi] == c.regs[yi] {
            pc4
        } else {
            pc2
        };
        StepOut { cpu: (CpuV { pc: npc, ..c }), disp: d, res: Ok(()) }
    } else if op == 0x6 {
        StepOut { cpu: (CpuV { pc: pc2, regs: c.regs.update(xi, nn), ..c }), disp: d, res: Ok(()) }
    } else if op == 0x7 {
        StepOut {
            cpu: (CpuV {
                pc: pc2,
                regs: c.regs.update(xi, ((c.regs[xi] as int + nn as int) % 256) as u8),
                ..c
            }),
            disp: d,
            res: Ok(()),
        }
    } else if op == 0x8 {
        match alu_spec(c.regs, xi, yi, instr & 0xF) {
            Option::Some(r2) => StepOut {
                cpu: (CpuV { pc: pc2, regs: r2, ..c }),
                disp: d,
                res: Ok(()),
            },
            Option::None => decode,
        }
    } else if op == 0x9 {
        let npc = if c.regs[xi] != c.regs[yi] {
            pc4
        } else {
            pc2
        };
        StepOut { cpu: (CpuV { pc: npc, ..c }), disp: d, res: Ok(()) }
    } else if op == 0xA {
        StepOut { cpu: (CpuV { pc: pc2, i: nnn, ..c }), disp: d, res: Ok(()) }
    } else if op == 0xB {
        StepOut {
            cpu: (CpuV { pc: (c.regs[0] as int + nnn as int) as u16, ..c }),
            disp: d,
            res: Ok(()),
        }
    } else if op == 0xC {
        StepOut {
            cpu: (CpuV { pc: pc2, regs: c.regs.update(xi, rnd & nn), ..c }),
            disp: d,
            res: Ok(()),
        }
    } else if op == 0xD {
        let n = (instr & 0xF) as int;
        if n > 0 && c.i as int + n - 1 >= MEM_SIZE as int {
            StepOut { cpu: c, disp: d, res: Err(Fault::Address { address: (c.i as int + n - 1) as u32 }) }
        } else {
            let regs0 = c.regs.update(15, 0u8);
            let rd = draw_sprite_spec(d.screen, d.width, d.height, regs0[xi], regs0[yi], c.mem, c.i as int, n);
            StepOut {
                cpu: (CpuV {
                    pc: pc2,
                    regs: regs0.update(
                        15,
                        if rd.unset {
                            1u8
                        } else {
                            0u8
                        },
                    ),
                    ..c
                }),
                disp: (DispV { screen: rd.screen, ..d }),
                res: Ok(()),
            }
        }
    } else if op == 0xE {
        if nn == 0x9E {
            let npc = if key == c.regs[xi] {
                pc4
            } else {
                pc2
            };
            StepOut { cpu: (CpuV { pc: npc, ..c }), disp: d, res: Ok(()) }
        } else if nn == 0xA1 {
            let npc = if key != c.regs[xi] {
                pc4
            } else {
                pc2
            };
            StepOut { cpu: (CpuV { pc: npc, ..c }), disp: d, res: Ok(()) }
        } else {
            decode
        }
    } else if op == 0xF {
        match misc_spec(c, key, xi, nn, pc2) {
            Option::Some(Result::Ok(c2)) => StepOut { cpu: c2, disp: d, res: Ok(()) },
            Option::Some(Result::Err(f)) => StepOut { cpu: c, disp: d, res: Err(f) },
            Option::None => decode,
        }
    } else {
        decode
    }
}

/// One full step: fetch the halfword at the program counter, then execute
/// it. A fetch outside memory is an address fault that leaves the machine
/// unchanged. `rnd` stands for the byte the random source produced.
pub open spec fn step_spec(c: CpuV, d: DispV, key: u8, rnd: u8) -> StepOut {
    if c.pc as int + 1 >= MEM_SIZE as int {
        StepOut { cpu: c, disp: d, res: Err(Fault::Address { address: (c.pc as int + 1) as u32 }) }
    } else {
        step_instr(c, d, key, rnd, halfword_spec(c.mem, c.pc as int))
    }
}

/// What a finished step guarantees: some random byte below 255 explains the
/// new machine, the new frame buffer and the report through `step_spec`.
pub open spec fn next_matches(
    pre_c: CpuV,
    pre_d: DispV,
    key: u8,
    post_c: CpuV,
    post_d: DispV,
    r: Result<(), Fault>,
) -> bool {
    exists|rnd: u8|
        rnd < 0xFF && step_spec(pre_c, pre_d, key, rnd) == (StepOut {
            cpu: post_c,
            disp: post_d,
            res: r,
        })
}

proof fn lemma_instr_fields(instr: u16)
    ensures
        (instr >> 12) < 16,
        ((instr >> 8) & 0xF) < 16,
        ((instr >> 4) & 0xF) < 16,
        (instr & 0xFF) < 256,
        (instr & 0xFFF) < 4096,
        (instr & 0xF) < 16,
{
    assert((instr >> 12) < 16 && ((instr >> 8) & 0xF) < 16 && ((instr >> 4) & 0xF) < 16 && (instr
        & 0xFF) < 256 && (instr & 0xFFF) < 4096 && (instr & 0xF) < 16) by (bit_vector);
}

/// Relies on rand::random_range: returns a value drawn from the given
/// range, here 0 to 254 inclusive.
#[verifier::external_body]
fn random_below_255() -> (r: u8)
    ensures
        r < 0xFF,
{
    rand::random_range(0u8..0xFF)
}

/// The interpreter: machine registers plus the owned memory image.
pub struct Cpu {
    pc: u16,
    i: u16,
    regs: Vec<u8>,
    ram: Ram,
    stack: Vec<u16>,
    timer: u8,
}

impl View for Cpu {
    type V = CpuV;

    closed spec fn view(&self) -> CpuV {
        CpuV {
            pc: self.pc,
            i: self.i,
            regs: self.regs@,
            stack: self.stack@,
            timer: self.timer,
            mem: self.ram@,
        }
    }
}

impl Cpu {
    /// Well-formedness of the machine state.
    pub open spec fn wf(&self) -> bool {
        cpu_wf(self@)
    }

    /// A fresh machine: program counter at `START_ADR`, all registers, the
    /// index register, the call stack and the delay counter cleared, memory
    /// holding only the glyph font.
    pub fn new() -> (r: Cpu)
        ensures
            r.wf(),
            r@.pc == START_ADR,
            r@.i == 0,
            r@.timer == 0,
            r@.stack == Seq::<u16>::empty(),
            r@.regs == Seq::new(16, |k: int| 0u8),
            r@.mem == mem_init(),
    {
        let mut regs: Vec<u8> = Vec::new();
        let mut k: usize = 0;
        while k < 16
            invariant
                k <= 16,
                regs@.len() == k,
                forall|j: int| 0 <= j < k ==> regs@[j] == 0u8,
            decreases 16 - k,
        {
            regs.push(0);
            k += 1;
        }
        let c = Cpu { pc: START_ADR, i: 0, regs, ram: Ram::new(), stack: Vec::new(), timer: 0 };
        proof {
            assert(c@.regs =~= Seq::new(16, |j: int| 0u8));
            assert(c@.stack =~= Seq::<u16>::empty());
        }
        c
    }

    /// Copies the ROM into memory starting at `START_ADR`. A ROM that would
    /// run past the end of memory is rejected whole.
    pub fn load(&mut self, data: Vec<u8>) -> (r: Result<(), Fault>)
        requires
            old(self).wf(),
        ensures
            final(self).wf(),
            (r == Ok::<(), Fault>(())) <==> data@.len() + 0x200 <= MEM_SIZE,
            r == Ok::<(), Fault>(()) ==> final(self)@ == (CpuV {
                mem: load_spec(old(self)@.mem, data@),
                ..old(self)@
            }),
            r != Ok::<(), Fault>(()) ==> r == Err::<(), Fault>(Fault::LoadOverflow)
                && final(self)@ == old(self)@,
    {
        if data.len() > MEM_SIZE - 0x200 {
            return Err(Fault::LoadOverflow);
        }
        let mut k: usize = 0;
        while k < data.len()
            invariant
                k <= data@.len(),
                data@.len() + 0x200 <= MEM_SIZE,
                cpu_wf(self@),
                self@.pc == old(self)@.pc,
                self@.i == old(self)@.i,
                self@.timer == old(self)@.timer,
                self@.stack == old(self)@.stack,
                self@.regs == old(self)@.regs,
                forall|a: int| 0x200 <= a < 0x200 + k ==> self@.mem[a] == data@[a - 0x200],
                forall|a: int|
                    0 <= a < MEM_SIZE && !(0x200 <= a < 0x200 + k) ==> self@.mem[a] == old(
                        self,
                    )@.mem[a],
            decreases data@.len() - k,
        {
            self.ram.write(0x200 + k as u16, data[k]);
            k += 1;
        }
        proof {
            assert(self@.mem =~= load_spec(old(self)@.mem, data@));
            assert(self@ =~= (CpuV { mem: load_spec(old(self)@.mem, data@), ..old(self)@ }));
        }
        Ok(())
    }

    /// The current program counter.
    pub fn program_counter(&self) -> (r: u16)
        ensures
            r == self@.pc,
    {
        self.pc
    }

    /// The current index register.
    pub fn index_register(&self) -> (r: u16)
        ensures
            r == self@.i,
    {
        self.i
    }

    /// The current delay counter.
    pub fn delay_counter(&self) -> (r: u8)
        ensures
            r == self@.timer,
    {
        self.timer
    }

    /// The current depth of the call stack.
    pub fn stack_depth(&self) -> (r: usize)
        ensures
            r == self@.stack.len(),
    {
        self.stack.len()
    }

    /// The current value of register `x`.
    pub fn register(&self, x: usize) -> (r: u8)
        requires
            self.wf(),
            x < 16,
        ensures
            r == self@.regs[x as int],
    {
        self.regs[x]
    }

    /// The byte at memory address `adr`.
    pub fn memory_byte(&self, adr: usize) -> (r: u8)
        requires
            self.wf(),
            adr < MEM_SIZE,
        ensures
            r == self@.mem[adr as int],
    {
        self.ram.read_byte(adr)
    }

    /// Runs the next instruction: fetches the halfword at the program
    /// counter, decodes it, executes it against this machine and the frame
    /// buffer given the currently observed key code, and advances the
    /// program counter. An unrecognized pattern or an access outside memory
    /// is reported as a fault that leaves machine and frame buffer as they
    /// were.
    pub fn next(&mut self, display: &mut Display, key: u8) -> (r: Result<(), Fault>)
        requires
            old(self).wf(),
            old(display).wf(),
        ensures
            final(self).wf(),
            final(display).wf(),
            final(display)@.width == old(display)@.width,
            final(display)@.height == old(display)@.height,
            next_matches(old(self)@, old(display)@, key, final(self)@, final(display)@, r),
    {
        let ghost pre = self@;
        let ghost pred = display@;
        if self.pc >= 4095 {
            let r: Result<(), Fault> = Err(Fault::Address { address: self.pc as u32 + 1 });
            proof {
                assert(step_spec(pre, pred, key, 0) =~= (StepOut {
                    cpu: self@,
                    disp: display@,
                    res: r,
                }));
                assert(next_matches(pre, pred, key, self@, display@, r));
            }
            return r;
        }
        let instr = self.ram.read_halfword(self.pc as usize);
        proof {
            lemma_instr_fields(instr);
        }
        let op = instr >> 12;
        let x = ((instr >> 8) & 0xF) as usize;
        let y = ((instr >> 4) & 0xF) as usize;
        let nn = (instr & 0xFF) as u8;
        let nnn = instr & 0xFFF;
        let pc2 = self.pc + 2;
        if op == 0x0 {
            if nn == 0xE0 {
                display.clear();
                self.pc = pc2;
            } else if nn == 0xEE {
                if self.stack.len() > 0 {
                    let item = self.stack.pop().unwrap();
                    self.pc = item;
                    proof {
                        assert(self@.stack =~= pre.stack.drop_last());
                    }
                } else {
                    self.pc = pc2;
                }
            } else {
                let r: Result<(), Fault> = Err(Fault::Decode {
                    address: self.pc,
                    instruction: instr,
                });
                proof {
                    assert(step_spec(pre, pred, key, 0) =~= (StepOut {
                        cpu: self@,
                        disp: display@,
                        res: r,
                    }));
                    assert(next_matches(pre, pred, key, self@, display@, r));
                }
                return r;
            }
        } else if op == 0x1 {
            self.pc = nnn;
        } else if op == 0x2 {
            self.stack.push(pc2);
            self.pc = nnn;
        } else if op == 0x3 {
            if self.regs[x] == nn {
                self.pc = pc2 + 2;
            } else {
                self.pc = pc2;
            }
        } else if op == 0x4 {
            if self.regs[x] != nn {
                self.pc = pc2 + 2;
            } else {
                self.pc = pc2;
            }
        } else if op == 0x5 {
            if self.regs[x] == self.regs[y] {
                self.pc = pc2 + 2;
            } else {
                self.pc = pc2;
            }
        } else if op == 0x6 {
            self.regs[x] = nn;
            self.pc = pc2;
        } else if op == 0x7 {
            let sum = self.regs[x] as u16 + nn as u16;
            self.regs[x] = (sum % 256) as u8;
            self.pc = pc2;
        } else if op == 0x8 {
            let sel = instr & 0xF;
            if sel == 0x0 {
                let vy = self.regs[y];
                self.regs[x] = vy;
            } else if sel == 0x1 {
                let v = self.regs[x] | self.regs[y];
                self.regs[x] = v;
            } else if sel == 0x2 {
                let v = self.regs[x] & self.regs[y];
                self.regs[x] = v;
            } else if sel == 0x3 {
                let v = self.regs[x] ^ self.regs[y];
                self.regs[x] = v;
            } else if sel == 0x4 {
                let s = self.regs[x] as u16 + self.regs[y] as u16;
                self.regs[x] = (s % 256) as u8;
                if s > 0xFF {
                    self.regs[15] = 1;
                }
            } else if sel == 0x5 {
                let vx = self.regs[x];
                let vy = self.regs[y];
                self.regs[x] = (((vx as u16 + 256) - vy as u16) % 256) as u8;
                self.regs[15] = if vx < vy {
                    1
                } else {
                    0
                };
            } else if sel == 0x6 {
                let vx = self.regs[x];
                self.regs[15] = vx & 1;
                let v = self.regs[x];
                self.regs[x] = v / 2;
            } else if sel == 0x7 {
                let vx = self.regs[x];
                let vy = self.regs[y];
                self.regs[x] = (((vy as u16 + 256) - vx as u16) % 256) as u8;
                self.regs[15] = if vy < vx {
                    1
                } else {
                    0
                };
            } else if sel == 0xE {
                let vx = self.regs[x];
                self.regs[15] = (vx & 0x80) / 128;
                let v = self.regs[x];
                self.regs[x] = ((v as u16 * 2) % 256) as u8;
            } else {
                let r: Result<(), Fault> = Err(Fault::Decode {
                    address: self.pc,
                    instruction: instr,
                });
                proof {
                    assert(step_spec(pre, pred, key, 0) =~= (StepOut {
                        cpu: self@,
                        disp: display@,
                        res: r,
                    }));
                    assert(next_matches(pre, pred, key, self@, display@, r));
                }
                return r;
            }
            self.pc = pc2;
        } else if op == 0x9 {
            if self.regs[x] != self.regs[y] {
                self.pc = pc2 + 2;
            } else {
                self.pc = pc2;
            }
        } else if op == 0xA {
            self.i = nnn;
            self.pc = pc2;
        } else if op == 0xB {
            self.pc = self.regs[0] as u16 + nnn;
        } else if op == 0xC {
            let rv = random_below_255();
            self.regs[x] = rv & nn;
            self.pc = pc2;
            proof {
                assert(step_spec(pre, pred, key, rv) =~= (StepOut {
                    cpu: self@,
                    disp: display@,
                    res: Ok::<(), Fault>(()),
                }));
                assert(next_matches(pre, pred, key, self@, display@, Ok::<(), Fault>(())));
            }
            return Ok(());
        } else if op == 0xD {
            let n = (instr & 0xF) as usize;
            if n > 0 && self.i as usize + n - 1 >= MEM_SIZE {
                let r: Result<(), Fault> = Err(Fault::Address {
                    address: self.i as u32 + n as u32 - 1,
                });
                proof {
                    assert(step_spec(pre, pred, key, 0) =~= (StepOut {
                        cpu: self@,
                        disp: display@,
                        res: r,
                    }));
                    assert(next_matches(pre, pred, key, self@, display@, r));
                }
                return r;
            }
            self.regs[15] = 0;
            let x0 = self.regs[x];
            let y0 = self.regs[y];
            let mut flag = false;
            let mut rowc: usize = 0;
            while rowc < n
                invariant
                    rowc <= n,
                    n < 16,
                    n > 0 ==> pre.i as int + n - 1 < MEM_SIZE as int,
                    cpu_wf(self@),
                    self@.pc == pre.pc,
                    self@.i == pre.i,
                    self@.timer == pre.timer,
                    self@.stack == pre.stack,
                    self@.mem == pre.mem,
                    self@.regs == pre.regs.update(15, 0u8),
                    x0 == pre.regs.update(15, 0u8)[x as int],
                    y0 == pre.regs.update(15, 0u8)[y as int],
                    x < 16,
                    y < 16,
                    disp_wf(display@),
                    display@.width == pred.width,
                    display@.height == pred.height,
                    display@.screen == draw_sprite_spec(
                        pred.screen,
                        pred.width,
                        pred.height,
                        x0,
                        y0,
                        pre.mem,
                        pre.i as int,
                        rowc as int,
                    ).screen,
                    flag == draw_sprite_spec(
                        pred.screen,
                        pred.width,
                        pred.height,
                        x0,
                        y0,
                        pre.mem,
                        pre.i as int,
                        rowc as int,
                    ).unset,
                decreases n - rowc,
            {
                let byte = self.ram.read_byte(self.i as usize + rowc);
                let yrow = ((y0 as usize + rowc) % 256) as u8;
                let f = display.draw(x0, yrow, byte);
                if f {
                    flag = true;
                }
                rowc += 1;
            }
            self.regs[15] = if flag {
                1
            } else {
                0
            };
            self.pc = pc2;
        } else if op == 0xE {
            if nn == 0x9E {
                if key == self.regs[x] {
                    self.pc = pc2 + 2;
                } else {
                    self.pc = pc2;
                }
            } else if nn == 0xA1 {
                if key != self.regs[x] {
                    self.pc = pc2 + 2;
                } else {
                    self.pc = pc2;
                }
            } else {
                let r: Result<(), Fault> = Err(Fault::Decode {
                    address: self.pc,
                    instruction: instr,
                });
                proof {
                    assert(step_spec(pre, pred, key, 0) =~= (StepOut {
                        cpu: self@,
                        disp: display@,
                        res: r,
                    }));
                    assert(next_matches(pre, pred, key, self@, display@, r));
                }
                return r;
            }
        } else {
            if nn == 0x07 {
                if self.timer > 0 {
                    self.timer = self.timer - 1;
                }
                let t = self.timer;
                self.regs[x] = t;
                self.pc = pc2;
            } else if nn == 0x0A {
                if key == 0 {
                    proof {
                        assert(step_spec(pre, pred, key, 0) =~= (StepOut {
                            cpu: self@,
                            disp: display@,
                            res: Ok::<(), Fault>(()),
                        }));
                        assert(next_matches(pre, pred, key, self@, display@, Ok::<(), Fault>(())));
                    }
                    return Ok(());
                }
                self.regs[x] = key;
                self.pc = pc2;
            } else if nn == 0x15 {
                self.timer = self.regs[x];
                self.pc = pc2;
            } else if nn == 0x18 {
                self.pc = pc2;
            } else if nn == 0x1E {
                let sum = self.i as u32 + self.regs[x] as u32;
                self.i = (sum % 0x10000) as u16;
                self.pc = pc2;
            } else if nn == 0x29 {
                self.i = self.regs[x] as u16 * 5;
                self.pc = pc2;
            } else if nn == 0x33 {
                if self.i >= 4094 {
                    let r: Result<(), Fault> = Err(Fault::Address {
                        address: self.i as u32 + 2,
                    });
                    proof {
                        assert(step_spec(pre, pred, key, 0) =~= (StepOut {
                            cpu: self@,
                            disp: display@,
                            res: r,
                        }));
                        assert(next_matches(pre, pred, key, self@, display@, r));
                    }
                    return r;
                }
                let vx = self.regs[x];
                self.ram.write(self.i, vx / 100);
                self.ram.write(self.i + 2, (vx % 100) / 10);
                self.pc = pc2;
            } else if nn == 0x55 {
                if self.i as usize + x >= MEM_SIZE {
                    let r: Result<(), Fault> = Err(Fault::Address {
                        address: self.i as u32 + x as u32,
                    });
                    proof {
                        assert(step_spec(pre, pred, key, 0) =~= (StepOut {
                            cpu: self@,
                            disp: display@,
                            res: r,
                        }));
                        assert(next_matches(pre, pred, key, self@, display@, r));
                    }
                    return r;
                }
                let mut j: usize = 0;
                while j < x + 1
                    invariant
                        j <= x + 1,
                        x < 16,
                        pre.i as int + x < MEM_SIZE as int,
                        cpu_wf(self@),
                        self@.pc == pre.pc,
                        self@.i == pre.i,
                        self@.timer == pre.timer,
                        self@.stack == pre.stack,
                        self@.regs == pre.regs,
                        self@.mem == dump_regs_spec(pre.mem, pre.i as int, pre.regs, j as int - 1),
                    decreases x + 1 - j,
                {
                    let v = self.regs[j];
                    self.ram.write(self.i + j as u16, v);
                    j += 1;
                }
                self.pc = pc2;
            } else if nn == 0x65 {
                if self.i as usize + x >= MEM_SIZE {
                    let r: Result<(), Fault> = Err(Fault::Address {
                        address: self.i as u32 + x as u32,
                    });
                    proof {
                        assert(step_spec(pre, pred, key, 0) =~= (StepOut {
                            cpu: self@,
                            disp: display@,
                            res: r,
                        }));
                        assert(next_matches(pre, pred, key, self@, display@, r));
                    }
                    return r;
                }
                let mut j: usize = 0;
                while j < x + 1
                    invariant
                        j <= x + 1,
                        x < 16,
                        pre.i as int + x < MEM_SIZE as int,
                        cpu_wf(self@),
                        self@.pc == pre.pc,
                        self@.i == pre.i,
                        self@.timer == pre.timer,
                        self@.stack == pre.stack,
                        self@.mem == pre.mem,
                        self@.regs == load_regs_spec(pre.regs, pre.mem, pre.i as int, j as int - 1),
                    decreases x + 1 - j,
                {
                    let v = self.ram.read_byte(self.i as usize + j);
                    self.regs[j] = v;
                    j += 1;
                }
                self.pc = pc2;
            } else {
                let r: Result<(), Fault> = Err(Fault::Decode {
                    address: self.pc,
                    instruction: instr,
                });
                proof {
                    assert(step_spec(pre, pred, key, 0) =~= (StepOut {
                        cpu: self@,
                        disp: display@,
                        res: r,
                    }));
                    assert(next_matches(pre, pred, key, self@, display@, r));
                }
                return r;
            }
        }
        proof {
            assert(step_spec(pre, pred, key, 0) =~= (StepOut {
                cpu: self@,
                disp: display@,
                res: Ok::<(), Fault>(()),
            }));
            assert(next_matches(pre, pred, key, self@, display@, Ok::<(), Fault>(())));
        }
        Ok(())
    }
}

/// Law: after loading a ROM of at least two bytes, its bytes sit at
/// `START_ADR` and up, and the halfword fetched at `START_ADR` is the first
/// two ROM bytes, big-endian.
pub proof fn lemma_load_then_halfword(mem: Seq<u8>, data: Seq<u8>)
    requires
        mem.len() == MEM_SIZE,
        2 <= data.len(),
        data.len() + 0x200 <= MEM_SIZE,
    ensures
        forall|k: int| 0 <= k < data.len() ==> load_spec(mem, data)[0x200 + k] == data[k],
        halfword_spec(load_spec(mem, data), 0x200) as int == (data[0] as int) * 256 + (
        data[1] as int),
{
}

proof fn lemma_dump_regs_at(mem: Seq<u8>, base: int, regs: Seq<u8>, k: int, j: int)
    requires
        regs.len() == 16,
        0 <= base,
        base + k < mem.len(),
        0 <= j <= k < 16,
    ensures
        dump_regs_spec(mem, base, regs, k).len() == mem.len(),
        dump_regs_spec(mem, base, regs, k)[base + j] == regs[j],
    decreases k,
{
    lemma_dump_regs_len(mem, base, regs, k);
    lemma_dump_regs_len(mem, base, regs, k - 1);
    if j < k {
        lemma_dump_regs_at(mem, base, regs, k - 1, j);
    }
}

proof fn lemma_dump_regs_len(mem: Seq<u8>, base: int, regs: Seq<u8>, k: int)
    requires
        0 <= base,
        base + k < mem.len(),
    ensures
        dump_regs_spec(mem, base, regs, k).len() == mem.len(),
    decreases k + 1,
{
    if k >= 0 {
        lemma_dump_regs_len(mem, base, regs, k - 1);
    }
}

proof fn lemma_load_regs_at(regs2: Seq<u8>, dmem: Seq<u8>, base: int, k: int)
    requires
        regs2.len() == 16,
        -1 <= k < 16,
    ensures
        load_regs_spec(regs2, dmem, base, k).len() == 16,
        forall|j: int| 0 <= j <= k ==> load_regs_spec(regs2, dmem, base, k)[j] == dmem[base + j],
        forall|j: int| k < j < 16 ==> load_regs_spec(regs2, dmem, base, k)[j] == regs2[j],
    decreases k + 1,
{
    if k >= 0 {
        lemma_load_regs_at(regs2, dmem, base, k - 1);
    }
}

/// Law: dumping registers 0 through `k` to memory and then loading 0 through
/// `k` back from the same base address restores exactly those registers;
/// the registers above `k` keep the values they had at load time.
pub proof fn lemma_dump_then_load(
    mem: Seq<u8>,
    base: int,
    regs: Seq<u8>,
    regs2: Seq<u8>,
    k: int,
)
    requires
        mem.len() == MEM_SIZE,
        regs.len() == 16,
        regs2.len() == 16,
        0 <= k < 16,
        0 <= base,
        base + k < MEM_SIZE,
    ensures
        forall|j: int|
            0 <= j <= k ==> load_regs_spec(regs2, dump_regs_spec(mem, base, regs, k), base, k)[j]
                == regs[j],
        forall|j: int|
            k < j < 16 ==> load_regs_spec(regs2, dump_regs_spec(mem, base, regs, k), base, k)[j]
                == regs2[j],
{
    let dmem = dump_regs_spec(mem, base, regs, k);
    lemma_load_regs_at(regs2, dmem, base, k);
    assert forall|j: int| 0 <= j <= k implies load_regs_spec(regs2, dmem, base, k)[j] == regs[j] by {
        lemma_dump_regs_at(mem, base, regs, k, j);
    }
}

} // verus!
