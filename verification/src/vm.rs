use vstd::prelude::*;

use crate::arith::{
    bool_value, checked_div, checked_rem, spec_bool, spec_checked_div, spec_checked_rem, trunc_div, trunc_rem, wadd_i32,
    wadd_u32, wadd_u64, wmul_i32, wshl_i32, wshr_u32, wsub_i32,
};
use crate::bytes::{copy_bytes, filled_bytes};
use crate::error::{Error, Result};
use crate::program::{AddressWidth, LAV_HEADER_SIZE, Program};

verus! {

/// Size of the guest address space in bytes.
pub const GUEST_MEMORY_SIZE: usize = 0x0100_0000;

/// Guest address of the evaluation stack.
pub const EVALUATION_STACK_ADDRESS: usize = 0x1b00;

/// Size of the evaluation stack in bytes (64 values).
pub const EVALUATION_STACK_SIZE: usize = 0x100;

/// Guest address of the ring buffer that holds string literals.
pub const STRING_STACK_ADDRESS: u32 = 0x1c00;

/// Size of the string literal ring buffer.
pub const STRING_STACK_SIZE: u32 = 0x300;

/// Largest opcode that names a system call (0x80..=0xd6).
pub const MAX_SYSTEM_OPCODE: u8 = 0xd6;

/// The LavaX truth value.
pub const LAVA_TRUE: i32 = -1;

/// What a single instruction did.
#[derive(Debug, Clone, Copy, PartialEq, Eq)]
pub enum StepOutcome {
    /// An ordinary instruction ran.
    Continue,
    /// The guest asks the host for a system call.
    SystemCall(u8),
    /// The guest asks the host for a floating-point operation; the host
    /// pushes the result (see `FloatRequest`).
    FloatOperation(FloatRequest),
    /// The program has ended with an exit code.
    Halted(i32),
}

/// How a run of instructions ended.
#[derive(Debug, Clone, Copy, PartialEq, Eq)]
pub enum RunOutcome {
    BudgetExhausted,
    SystemCall(u8),
    FloatOperation(FloatRequest),
    Halted(i32),
}

/// A floating-point instruction whose operands the VM has already popped:
/// `lhs` and `rhs` are the raw 32-bit operands (single-precision bit
/// patterns or integers, depending on the opcode; `rhs` is 0 for the unary
/// opcodes 0x54, 0x55 and 0x62). The host computes the result and pushes it.
#[derive(Debug, Clone, Copy, PartialEq, Eq)]
pub struct FloatRequest {
    pub opcode: u8,
    pub lhs: i32,
    pub rhs: i32,
}

/// The abstract machine state: the program image and its address width,
/// guest memory, registers and bookkeeping.
#[verifier::ext_equal]
pub struct VmView {
    pub image: Seq<u8>,
    pub width: AddressWidth,
    pub memory: Seq<u8>,
    pub pc: usize,
    pub evaluation_top: usize,
    pub local_sp: u32,
    pub local_bp: u32,
    pub result: i32,
    pub exit_code: i32,
    pub secret: u8,
    pub string_ptr: u32,
    pub current_line: Option<u32>,
    pub current_function: u32,
    pub function_stack: Seq<u32>,
    pub running: bool,
    pub instructions_executed: u64,
}

impl VmView {
    /// A machine with zeroed memory, ready to run `image` from its first
    /// bytecode byte.
    pub open spec fn fresh(image: Seq<u8>, width: AddressWidth) -> VmView {
        VmView {
            image,
            width,
            memory: Seq::new(GUEST_MEMORY_SIZE as nat, |_i: int| 0u8),
            pc: LAV_HEADER_SIZE,
            evaluation_top: 0,
            local_sp: 0,
            local_bp: 0,
            result: 0,
            exit_code: 0,
            secret: 0,
            string_ptr: STRING_STACK_ADDRESS,
            current_line: None,
            current_function: 0,
            function_stack: seq![],
            running: true,
            instructions_executed: 0,
        }
    }
}

/// A byte that names no instruction: 0, 0x75 to 0x7f, or above the last
/// system call.
pub open spec fn is_invalid_opcode(op: u8) -> bool {
    op == 0 || (0x75 <= op <= 0x7f) || op > MAX_SYSTEM_OPCODE
}

/// The result of a state transition: a value and the next state, or an error.
pub type Next<T> = core::result::Result<(T, VmView), Error>;

/// The address mask of an address width.
pub open spec fn spec_address_mask(width: AddressWidth) -> u32 {
    match width {
        AddressWidth::Bits16 => 0xffff,
        _ => 0x00ff_ffff,
    }
}

/// Little-endian 16-bit value of two bytes.
pub open spec fn le_u16(b0: u8, b1: u8) -> u16 {
    (b0 as u16) | ((b1 as u16) << 8u16)
}

/// Little-endian 24-bit value of three bytes.
pub open spec fn le_u24(b0: u8, b1: u8, b2: u8) -> u32 {
    (b0 as u32) | ((b1 as u32) << 8u32) | ((b2 as u32) << 16u32)
}

/// Little-endian 32-bit value of four bytes.
pub open spec fn le_u32(b0: u8, b1: u8, b2: u8, b3: u8) -> u32 {
    (b0 as u32) | ((b1 as u32) << 8u32) | ((b2 as u32) << 16u32) | ((b3 as u32) << 24u32)
}

/// Little-endian bytes of a 32-bit value.
pub open spec fn bytes_u32(v: u32) -> Seq<u8> {
    seq![v as u8, (v >> 8u32) as u8, (v >> 16u32) as u8, (v >> 24u32) as u8]
}

/// Little-endian bytes of a 24-bit value.
pub open spec fn bytes_u24(v: u32) -> Seq<u8> {
    seq![v as u8, (v >> 8u32) as u8, (v >> 16u32) as u8]
}

/// Little-endian bytes of a 16-bit value.
pub open spec fn bytes_u16(v: u16) -> Seq<u8> {
    seq![v as u8, (v >> 8u16) as u8]
}

impl VmView {
    /// The evaluation stack as a list of values, bottom first.
    pub open spec fn stack_value(self, slot: int) -> i32 {
        let a = EVALUATION_STACK_ADDRESS + slot * 4;
        le_u32(self.memory[a], self.memory[a + 1], self.memory[a + 2], self.memory[a + 3]) as i32
    }

    pub open spec fn fetch_u8(self) -> Next<u8> {
        if self.pc < self.image.len() {
            Ok((self.image[self.pc as int], VmView { pc: (self.pc + 1) as usize, ..self }))
        } else {
            Err(Error::UnexpectedEnd { pc: self.pc })
        }
    }

    pub open spec fn fetch_u16(self) -> Next<u16> {
        match self.fetch_u8() {
            Err(e) => Err(e),
            Ok((lo, s1)) => match s1.fetch_u8() {
                Err(e) => Err(e),
                Ok((hi, s2)) => Ok((le_u16(lo, hi), s2)),
            },
        }
    }

    pub open spec fn fetch_i16(self) -> Next<i16> {
        match self.fetch_u16() {
            Err(e) => Err(e),
            Ok((v, s1)) => Ok((v as i16, s1)),
        }
    }

    pub open spec fn fetch_u24(self) -> Next<u32> {
        match self.fetch_u16() {
            Err(e) => Err(e),
            Ok((lo, s1)) => match s1.fetch_u8() {
                Err(e) => Err(e),
                Ok((hi, s2)) => Ok(((lo as u32) | ((hi as u32) << 16u32), s2)),
            },
        }
    }

    pub open spec fn fetch_i32(self) -> Next<i32> {
        match self.fetch_u16() {
            Err(e) => Err(e),
            Ok((lo, s1)) => match s1.fetch_u16() {
                Err(e) => Err(e),
                Ok((hi, s2)) => Ok((((lo as u32) | ((hi as u32) << 16u32)) as i32, s2)),
            },
        }
    }

    /// An address operand: two bytes, or three when addresses are wider than 16 bits.
    pub open spec fn fetch_address(self) -> Next<u32> {
        match self.fetch_u16() {
            Err(e) => Err(e),
            Ok((lo, s1)) => if self.width == AddressWidth::Bits16 {
                Ok((lo as u32, s1))
            } else {
                match s1.fetch_u8() {
                    Err(e) => Err(e),
                    Ok((hi, s2)) => Ok(((lo as u32) | ((hi as u32) << 16u32), s2)),
                }
            },
        }
    }

    pub open spec fn pop(self) -> Next<i32> {
        if self.evaluation_top < 4 {
            Err(Error::StackUnderflow)
        } else {
            let s1 = VmView { evaluation_top: (self.evaluation_top - 4) as usize, ..self };
            let a = EVALUATION_STACK_ADDRESS + s1.evaluation_top;
            Ok((le_u32(self.memory[a], self.memory[a + 1], self.memory[a + 2], self.memory[a + 3]) as i32, s1))
        }
    }

    pub open spec fn push(self, value: i32) -> core::result::Result<VmView, Error> {
        if self.evaluation_top + 4 > EVALUATION_STACK_SIZE {
            Err(Error::StackOverflow)
        } else {
            let a = EVALUATION_STACK_ADDRESS + self.evaluation_top;
            let bytes = bytes_u32(value as u32);
            Ok(
                VmView {
                    memory: self.memory.take(a as int) + bytes + self.memory.skip(a + 4),
                    evaluation_top: (self.evaluation_top + 4) as usize,
                    ..self
                },
            )
        }
    }

    /// The guest memory range `address..address + length`, or the error
    /// that an access to it raises.
    pub open spec fn range(self, address: u32, length: usize) -> core::result::Result<(usize, usize), Error> {
        let end = address + length;
        if end > usize::MAX {
            Err(Error::MemoryOutOfBounds { address, end: u32::MAX })
        } else if end > self.memory.len() {
            Err(
                Error::MemoryOutOfBounds {
                    address,
                    end: if end - 1 > u32::MAX {
                        u32::MAX
                    } else {
                        (end - 1) as u32
                    },
                },
            )
        } else {
            Ok((address as usize, end as usize))
        }
    }

    pub open spec fn read_u8(self, address: u32) -> core::result::Result<u8, Error> {
        match self.range(address, 1) {
            Err(e) => Err(e),
            Ok((a, _)) => Ok(self.memory[a as int]),
        }
    }

    pub open spec fn read_u16(self, address: u32) -> core::result::Result<u16, Error> {
        match self.range(address, 2) {
            Err(e) => Err(e),
            Ok((a, _)) => Ok(le_u16(self.memory[a as int], self.memory[a + 1])),
        }
    }

    pub open spec fn read_u24(self, address: u32) -> core::result::Result<u32, Error> {
        match self.range(address, 3) {
            Err(e) => Err(e),
            Ok((a, _)) => Ok(le_u24(self.memory[a as int], self.memory[a + 1], self.memory[a + 2])),
        }
    }

    pub open spec fn read_i32(self, address: u32) -> core::result::Result<i32, Error> {
        match self.range(address, 4) {
            Err(e) => Err(e),
            Ok((a, _)) => Ok(
                le_u32(
                    self.memory[a as int],
                    self.memory[a + 1],
                    self.memory[a + 2],
                    self.memory[a + 3],
                ) as i32,
            ),
        }
    }

    /// A value of 1, 2 or (any other size) 4 bytes; 1 is unsigned, 2 is signed.
    pub open spec fn read_sized(self, address: u32, size: u8) -> core::result::Result<i32, Error> {
        if size == 1 {
            match self.read_u8(address) {
                Err(e) => Err(e),
                Ok(v) => Ok(v as i32),
            }
        } else if size == 2 {
            match self.read_u16(address) {
                Err(e) => Err(e),
                Ok(v) => Ok((v as i16) as i32),
            }
        } else {
            self.read_i32(address)
        }
    }

    pub open spec fn write_bytes(self, address: u32, bytes: Seq<u8>) -> core::result::Result<VmView, Error> {
        match self.range(address, bytes.len() as usize) {
            Err(e) => Err(e),
            Ok((a, end)) => Ok(
                VmView {
                    memory: self.memory.take(a as int) + bytes + self.memory.skip(end as int),
                    ..self
                },
            ),
        }
    }

    /// The bytes of the NUL-terminated string at `address`; a string that
    /// runs to the end of memory is an error.
    pub open spec fn c_string(self, address: u32) -> core::result::Result<Seq<u8>, Error> {
        match self.range(address, 1) {
            Err(e) => Err(e),
            Ok((a, _)) => match first_zero(self.memory, a as int) {
                None => Err(Error::MemoryOutOfBounds { address, end: (self.memory.len() - 1) as u32 }),
                Some(z) => Ok(self.memory.subrange(a as int, z)),
            },
        }
    }

    pub open spec fn write_sized(self, address: u32, size: u8, value: i32) -> core::result::Result<VmView, Error> {
        if size == 1 {
            self.write_bytes(address, seq![value as u8])
        } else if size == 2 {
            self.write_bytes(address, bytes_u16(value as u16))
        } else {
            self.write_bytes(address, bytes_u32(value as u32))
        }
    }
}

/// The index of the first zero byte of `memory` at or after `k`.
pub open spec fn first_zero(memory: Seq<u8>, k: int) -> Option<int>
    decreases memory.len() - k,
{
    if k < 0 || k >= memory.len() {
        None
    } else if memory[k] == 0 {
        Some(k)
    } else {
        first_zero(memory, k + 1)
    }
}

/// The first zero at or after `k` lies at or after `k`, inside memory,
/// and nothing before it from `k` on is zero.
pub proof fn lemma_first_zero(memory: Seq<u8>, k: int)
    ensures
        first_zero(memory, k) matches Some(z) ==> k <= z < memory.len() && memory[z] == 0 && forall|i: int|
            k <= i < z ==> memory[i] != 0,
    decreases memory.len() - k,
{
    if 0 <= k < memory.len() && memory[k] != 0 {
        lemma_first_zero(memory, k + 1);
    }
}

/// An ordinary instruction: continue with the next state.
pub open spec fn cont(r: core::result::Result<VmView, Error>) -> Next<StepOutcome> {
    match r {
        Ok(s) => Ok((StepOutcome::Continue, s)),
        Err(e) => Err(e),
    }
}

/// Binary integer instructions 0x21..=0x34 (except the unary 0x25 and 0x29).
pub open spec fn spec_integer_binary(opcode: u8, lhs: i32, rhs: i32, pc: usize) -> core::result::Result<i32, Error> {
    if opcode == 0x21 {
        Ok(wadd_i32(lhs, rhs))
    } else if opcode == 0x22 {
        Ok(wsub_i32(lhs, rhs))
    } else if opcode == 0x23 {
        Ok(lhs & rhs)
    } else if opcode == 0x24 {
        Ok(lhs | rhs)
    } else if opcode == 0x26 {
        Ok(lhs ^ rhs)
    } else if opcode == 0x27 {
        Ok(spec_bool(lhs != 0 && rhs != 0))
    } else if opcode == 0x28 {
        Ok(spec_bool(lhs != 0 || rhs != 0))
    } else if opcode == 0x2a {
        Ok(wmul_i32(lhs, rhs))
    } else if opcode == 0x2b {
        spec_checked_div(lhs, rhs, pc)
    } else if opcode == 0x2c {
        spec_checked_rem(lhs, rhs, pc)
    } else if opcode == 0x2d {
        Ok(if rhs < 0 { 0 } else { wshl_i32(lhs, rhs as u32) })
    } else if opcode == 0x2e {
        Ok(if rhs < 0 { 0 } else { wshr_u32(lhs as u32, rhs as u32) as i32 })
    } else if opcode == 0x2f {
        Ok(spec_bool(lhs == rhs))
    } else if opcode == 0x30 {
        Ok(spec_bool(lhs != rhs))
    } else if opcode == 0x31 {
        Ok(spec_bool(lhs <= rhs))
    } else if opcode == 0x32 {
        Ok(spec_bool(lhs >= rhs))
    } else if opcode == 0x33 {
        Ok(spec_bool(lhs > rhs))
    } else {
        Ok(spec_bool(lhs < rhs))
    }
}

/// Instructions 0x45..=0x51: an operation with a 16-bit immediate operand.
pub open spec fn spec_quick(opcode: u8, lhs: i32, rhs: i32, pc: usize) -> core::result::Result<i32, Error> {
    if opcode == 0x45 {
        Ok(wadd_i32(lhs, rhs))
    } else if opcode == 0x46 {
        Ok(wsub_i32(lhs, rhs))
    } else if opcode == 0x47 {
        Ok(wmul_i32(lhs, rhs))
    } else if opcode == 0x48 {
        spec_checked_div(lhs, rhs, pc)
    } else if opcode == 0x49 {
        spec_checked_rem(lhs, rhs, pc)
    } else if opcode == 0x4a {
        Ok(wshl_i32(lhs, rhs as u32))
    } else if opcode == 0x4b {
        Ok(wshr_u32(lhs as u32, rhs as u32) as i32)
    } else if opcode == 0x4c {
        Ok(spec_bool(lhs == rhs))
    } else if opcode == 0x4d {
        Ok(spec_bool(lhs != rhs))
    } else if opcode == 0x4e {
        Ok(spec_bool(lhs > rhs))
    } else if opcode == 0x4f {
        Ok(spec_bool(lhs < rhs))
    } else if opcode == 0x50 {
        Ok(spec_bool(lhs >= rhs))
    } else {
        Ok(spec_bool(lhs <= rhs))
    }
}

/// A pointer descriptor: an address and an access size packed in one word.
pub open spec fn spec_pointer_descriptor(width: AddressWidth, address: u32, size: u8) -> u32 {
    match width {
        AddressWidth::Bits16 => (address & 0xffff) | ((size as u32) << 16u32),
        _ => (address & 0x00ff_ffff) | ((size as u32) << 24u32),
    }
}

impl VmView {
    /// Address and access size of a pointer descriptor; the high bit marks an
    /// address relative to the current frame.
    pub open spec fn decode_descriptor(self, d: u32) -> (u32, u8) {
        match self.width {
            AddressWidth::Bits16 => {
                let adjusted = if d & 0x0080_0000 != 0 {
                    wadd_u32(d, self.local_bp)
                } else {
                    d
                };
                (adjusted & 0xffff, ((d >> 16u32) & 0x7f) as u8)
            },
            _ => {
                let adjusted = if d & 0x8000_0000 != 0 {
                    wadd_u32(d, self.local_bp)
                } else {
                    d
                };
                (adjusted & 0x00ff_ffff, ((d >> 24u32) & 0x7f) as u8)
            },
        }
    }

    /// An address operand plus a popped index (masked to the address width);
    /// relative to the frame when `local`.
    pub open spec fn indexed_address(self, local: bool) -> Next<u32> {
        match self.fetch_address() {
            Err(e) => Err(e),
            Ok((a, s1)) => {
                let base = if local {
                    wadd_u32(a, self.local_bp)
                } else {
                    a
                };
                match s1.pop() {
                    Err(e) => Err(e),
                    Ok((index, s2)) => Ok(
                        (wadd_u32(base, (index as u32) & spec_address_mask(self.width)), s2),
                    ),
                }
            },
        }
    }

    pub open spec fn push_read(self, r: core::result::Result<i32, Error>) -> core::result::Result<VmView, Error> {
        match r {
            Err(e) => Err(e),
            Ok(v) => self.push(v),
        }
    }

    /// Loads 0x04..=0x0c: a byte, a signed word, a long or a pointer
    /// descriptor of a global (0x04..=0x06, 0x0c) or array element (0x07..).
    pub open spec fn global_push(self, opcode: u8) -> core::result::Result<VmView, Error> {
        let a = if opcode >= 0x07 {
            self.indexed_address(false)
        } else {
            self.fetch_address()
        };
        match a {
            Err(e) => Err(e),
            Ok((address, s)) => if opcode == 0x04 || opcode == 0x07 {
                s.push_read(s.read_sized(address, 1))
            } else if opcode == 0x05 || opcode == 0x08 {
                s.push_read(s.read_sized(address, 2))
            } else if opcode == 0x06 || opcode == 0x09 {
                s.push_read(s.read_sized(address, 4))
            } else if opcode == 0x0a {
                s.push(spec_pointer_descriptor(self.width, address, 1) as i32)
            } else if opcode == 0x0b {
                s.push(spec_pointer_descriptor(self.width, address, 2) as i32)
            } else {
                s.push(spec_pointer_descriptor(self.width, address, 0) as i32)
            },
        }
    }

    /// Loads 0x0e..=0x19 of locals, local array elements and their descriptors.
    pub open spec fn local_push(self, opcode: u8) -> core::result::Result<VmView, Error> {
        let a = if opcode == 0x0e || opcode == 0x0f || opcode == 0x10 || opcode == 0x19 {
            match self.fetch_address() {
                Err(e) => Err(e),
                Ok((a, s1)) => Ok((wadd_u32(a, self.local_bp), s1)),
            }
        } else if opcode == 0x17 {
            self.indexed_address(false)
        } else {
            self.indexed_address(true)
        };
        match a {
            Err(e) => Err(e),
            Ok((address, s)) => if opcode == 0x0e || opcode == 0x11 {
                s.push_read(s.read_sized(address, 1))
            } else if opcode == 0x0f || opcode == 0x12 {
                s.push_read(s.read_sized(address, 2))
            } else if opcode == 0x10 || opcode == 0x13 {
                s.push_read(s.read_sized(address, 4))
            } else if opcode == 0x14 {
                s.push(spec_pointer_descriptor(self.width, address, 1) as i32)
            } else if opcode == 0x15 {
                s.push(spec_pointer_descriptor(self.width, address, 2) as i32)
            } else {
                s.push(spec_pointer_descriptor(self.width, address, 0) as i32)
            },
        }
    }

    /// Pushes `pushed`, then stores `updated` at `address`.
    pub open spec fn push_then_store(self, pushed: i32, address: u32, size: u8, updated: i32) -> core::result::Result<VmView, Error> {
        match self.push(pushed) {
            Err(e) => Err(e),
            Ok(s) => s.write_sized(address, size, updated),
        }
    }

    /// 0x1d..=0x20: pre/post increment/decrement through a descriptor.
    pub open spec fn increment(self, opcode: u8) -> core::result::Result<VmView, Error> {
        match self.pop() {
            Err(e) => Err(e),
            Ok((d, s)) => {
                let (address, size) = s.decode_descriptor(d as u32);
                match s.read_sized(address, size) {
                    Err(e) => Err(e),
                    Ok(previous) => {
                        let updated = if opcode == 0x1d || opcode == 0x1f {
                            wadd_i32(previous, 1)
                        } else {
                            wsub_i32(previous, 1)
                        };
                        let pushed = if opcode == 0x1d || opcode == 0x1e {
                            updated
                        } else {
                            previous
                        };
                        s.push_then_store(pushed, address, size, updated)
                    },
                }
            },
        }
    }

    /// 0x21..=0x34: integer arithmetic, logic and comparisons.
    pub open spec fn integer_operation(self, opcode: u8, at: usize) -> core::result::Result<VmView, Error> {
        if opcode == 0x25 || opcode == 0x29 {
            match self.pop() {
                Err(e) => Err(e),
                Ok((v, s)) => s.push(if opcode == 0x25 { !v } else { spec_bool(v == 0) }),
            }
        } else {
            match self.pop() {
                Err(e) => Err(e),
                Ok((rhs, s1)) => match s1.pop() {
                    Err(e) => Err(e),
                    Ok((lhs, s2)) => s2.push_read(spec_integer_binary(opcode, lhs, rhs, at)),
                },
            }
        }
    }

    /// 0x35: pops a value and a descriptor, stores, pushes the value back.
    pub open spec fn assign_descriptor(self) -> core::result::Result<VmView, Error> {
        match self.pop() {
            Err(e) => Err(e),
            Ok((value, s1)) => match s1.pop() {
                Err(e) => Err(e),
                Ok((d, s2)) => {
                    let (address, size) = s2.decode_descriptor(d as u32);
                    match s2.write_sized(address, size, value) {
                        Err(e) => Err(e),
                        Ok(s3) => s3.push(value),
                    }
                },
            },
        }
    }

    /// 0x6e: pops a value and an address, stores with an operand-given size.
    pub open spec fn assign_indirect(self) -> core::result::Result<VmView, Error> {
        match self.pop() {
            Err(e) => Err(e),
            Ok((value, s1)) => match s1.pop() {
                Err(e) => Err(e),
                Ok((raw, s2)) => match s2.fetch_u8() {
                    Err(e) => Err(e),
                    Ok((kind, s3)) => {
                        let address = if kind & 0x80 != 0 {
                            wadd_u32(raw as u32, self.local_bp)
                        } else {
                            raw as u32
                        };
                        match s3.write_sized(address, kind & 0x7f, value) {
                            Err(e) => Err(e),
                            Ok(s4) => s4.push(value),
                        }
                    },
                },
            },
        }
    }

    pub open spec fn jump(self, target: usize) -> core::result::Result<VmView, Error> {
        if target >= self.image.len() {
            Err(Error::InvalidJump { target })
        } else {
            Ok(VmView { pc: target, ..self })
        }
    }

    /// 0x39/0x3a: a 24-bit target, taken when `take`.
    pub open spec fn conditional_jump(self, take: bool) -> core::result::Result<VmView, Error> {
        match self.fetch_u24() {
            Err(e) => Err(e),
            Ok((target, s)) => if take {
                s.jump(target as usize)
            } else {
                Ok(s)
            },
        }
    }

    /// 0x3d: stores the return address at the frame stack pointer and jumps.
    pub open spec fn call(self) -> core::result::Result<VmView, Error> {
        if self.pc + 3 > usize::MAX {
            Err(Error::UnexpectedEnd { pc: self.pc })
        } else {
            match self.write_bytes(self.local_sp, bytes_u24((self.pc + 3) as u32)) {
                Err(e) => Err(e),
                Ok(s1) => match s1.fetch_u24() {
                    Err(e) => Err(e),
                    Ok((target, s2)) => s2.jump(target as usize),
                },
            }
        }
    }

    /// Offset of the first argument in a frame.
    pub open spec fn argument_offset(self) -> u32 {
        match self.width {
            AddressWidth::Bits32 => 8,
            AddressWidth::Bits24 => 6,
            AddressWidth::Bits16 => 5,
        }
    }

    /// 0x3e: opens a frame at the frame stack pointer, saves the old base
    /// pointer, and moves the arguments from the evaluation stack into it.
    pub open spec fn enter_function(self) -> core::result::Result<VmView, Error> {
        let bp = self.local_sp;
        let s0 = VmView { local_bp: bp, ..self };
        let saved = match self.width {
            AddressWidth::Bits16 => s0.write_bytes((bp + 3) as u32, bytes_u16(self.local_bp as u16)),
            _ => s0.write_bytes((bp + 3) as u32, bytes_u24(self.local_bp)),
        };
        match saved {
            Err(e) => Err(e),
            Ok(s1) => match s1.fetch_address() {
                Err(e) => Err(e),
                Ok((frame, s2)) => {
                    let s3 = VmView { local_sp: wadd_u32(bp, frame & 0x00ff_ffff), ..s2 };
                    match s3.fetch_u8() {
                        Err(e) => Err(e),
                        Ok((count, s4)) => {
                            let n = count * 4;
                            if n > s4.evaluation_top {
                                Err(Error::StackUnderflow)
                            } else {
                                let top = (s4.evaluation_top - n) as usize;
                                let s5 = VmView { evaluation_top: top, ..s4 };
                                let source = EVALUATION_STACK_ADDRESS + top;
                                s5.write_bytes(
                                    (bp + s5.argument_offset()) as u32,
                                    s5.memory.subrange(source as int, source + n),
                                )
                            }
                        },
                    }
                },
            },
        }
    }

    /// 0x3f: closes the frame, restores the base pointer and returns.
    pub open spec fn leave_function(self) -> core::result::Result<VmView, Error> {
        let s0 = VmView { local_sp: self.local_bp, ..self };
        match s0.read_u24(self.local_bp) {
            Err(e) => Err(e),
            Ok(target) => {
                let previous = match self.width {
                    AddressWidth::Bits16 => match s0.read_u16((self.local_bp + 3) as u32) {
                        Err(e) => Err(e),
                        Ok(v) => Ok(v as u32),
                    },
                    _ => s0.read_u24((self.local_bp + 3) as u32),
                };
                match previous {
                    Err(e) => Err(e),
                    Ok(p) => match (VmView { local_bp: p & 0x00ff_ffff, ..s0 }).jump(target as usize) {
                        Err(e) => Err(e),
                        Ok(s1) => Ok(
                            if s1.function_stack.len() > 0 {
                                VmView {
                                    current_function: s1.function_stack.last(),
                                    function_stack: s1.function_stack.drop_last(),
                                    ..s1
                                }
                            } else {
                                s1
                            },
                        ),
                    },
                }
            },
        }
    }

    /// 0x41: copies bytes that follow the instruction into guest memory.
    pub open spec fn preset_memory(self) -> core::result::Result<VmView, Error> {
        match self.fetch_address() {
            Err(e) => Err(e),
            Ok((address, s1)) => match s1.fetch_u16() {
                Err(e) => Err(e),
                Ok((length, s2)) => {
                    let end = s2.pc + length;
                    if end > s2.image.len() {
                        Err(Error::UnexpectedEnd { pc: s2.pc })
                    } else {
                        (VmView { pc: end as usize, ..s2 }).write_bytes(
                            address,
                            s2.image.subrange(s2.pc as int, end),
                        )
                    }
                },
            },
        }
    }

    /// Copies a literal string, decoded with the secret byte, into the string
    /// ring buffer up to and including its terminating zero.
    pub open spec fn copy_string(self) -> core::result::Result<VmView, Error>
        decreases self.image.len() - self.pc,
        when self.image.len() <= usize::MAX
    {
        if self.pc >= self.image.len() {
            Err(Error::UnexpectedEnd { pc: self.pc })
        } else {
            let value = self.image[self.pc as int] ^ self.secret;
            let s1 = VmView { pc: (self.pc + 1) as usize, ..self };
            match s1.range(s1.string_ptr, 1) {
                Err(e) => Err(e),
                Ok((a, _end)) => {
                    let s3 = VmView {
                        memory: s1.memory.update(a as int, value),
                        string_ptr: wadd_u32(s1.string_ptr, 1),
                        ..s1
                    };
                    if value == 0 {
                        Ok(s3)
                    } else {
                        s3.copy_string()
                    }
                },
            }
        }
    }

    /// 0x0d: pushes the address of a string literal and copies it.
    pub open spec fn push_string(self) -> core::result::Result<VmView, Error> {
        match self.push(self.string_ptr as i32) {
            Err(e) => Err(e),
            Ok(s1) => match s1.copy_string() {
                Err(e) => Err(e),
                Ok(s2) => Ok(
                    if s2.string_ptr >= STRING_STACK_ADDRESS + STRING_STACK_SIZE {
                        VmView { string_ptr: STRING_STACK_ADDRESS, ..s2 }
                    } else {
                        s2
                    },
                ),
            },
        }
    }

    /// 0x45..=0x51: pops the left operand, then reads a 16-bit immediate.
    pub open spec fn quick_operation(self, opcode: u8, at: usize) -> core::result::Result<VmView, Error> {
        match self.pop() {
            Err(e) => Err(e),
            Ok((lhs, s1)) => match s1.fetch_i16() {
                Err(e) => Err(e),
                Ok((rhs, s2)) => s2.push_read(spec_quick(opcode, lhs, rhs as i32, at)),
            },
        }
    }

    /// 0x54..=0x69: floating-point instructions hand their operands to the
    /// host, except 0x69 (absolute value of a float by clearing its sign bit).
    pub open spec fn float_operation(self, opcode: u8, at: usize) -> Next<StepOutcome> {
        if opcode == 0x54 || opcode == 0x55 || opcode == 0x62 || opcode == 0x69 {
            match self.pop() {
                Err(e) => Err(e),
                Ok((v, s1)) => if opcode == 0x69 {
                    cont(s1.push(v & 0x7fff_ffff))
                } else {
                    Ok((StepOutcome::FloatOperation(FloatRequest { opcode, lhs: v, rhs: 0 }), s1))
                },
            }
        } else {
            match self.pop() {
                Err(e) => Err(e),
                Ok((rhs, s1)) => match s1.pop() {
                    Err(e) => Err(e),
                    Ok((lhs, s2)) => if (opcode == 0x5f || opcode == 0x60 || opcode == 0x61) && rhs
                        == 0 {
                        Err(Error::DivisionByZero { pc: at })
                    } else {
                        Ok((StepOutcome::FloatOperation(FloatRequest { opcode, lhs, rhs }), s2))
                    },
                },
            }
        }
    }

    /// 0x70: increment/decrement through an address and an operand byte
    /// giving the size, the frame flag and the kind.
    pub open spec fn indexed_increment(self) -> core::result::Result<VmView, Error> {
        match self.pop() {
            Err(e) => Err(e),
            Ok((raw, s1)) => match s1.fetch_u8() {
                Err(e) => Err(e),
                Ok((mode, s2)) => {
                    let address = if mode & 0x80 != 0 {
                        wadd_u32(raw as u32, self.local_bp)
                    } else {
                        raw as u32
                    };
                    let size = mode & 0x1f;
                    match s2.read_sized(address, size) {
                        Err(e) => Err(e),
                        Ok(previous) => {
                            let operation = (mode >> 5u8) & 3;
                            let updated = if operation == 0 || operation == 2 {
                                wadd_i32(previous, 1)
                            } else {
                                wsub_i32(previous, 1)
                            };
                            let pushed = if operation < 2 {
                                updated
                            } else {
                                previous
                            };
                            s2.push_then_store(pushed, address, size, updated)
                        },
                    }
                },
            },
        }
    }

    /// Loads through a popped pointer (0x36, 0x52, 0x53).
    pub open spec fn load_pointer(self, size: u8) -> core::result::Result<VmView, Error> {
        match self.pop() {
            Err(e) => Err(e),
            Ok((p, s1)) => s1.push_read(
                s1.read_sized((p as u32) & spec_address_mask(self.width), size),
            ),
        }
    }

    /// Replaces the popped pointer by its descriptor (0x37, 0x6a, 0x6b).
    pub open spec fn describe_pointer(self, size: u8) -> core::result::Result<VmView, Error> {
        match self.pop() {
            Err(e) => Err(e),
            Ok((p, s1)) => s1.push(spec_pointer_descriptor(self.width, p as u32, size) as i32),
        }
    }

    /// Replaces the top value by `f(top)`.
    pub open spec fn map_top(self, f: spec_fn(i32) -> i32) -> core::result::Result<VmView, Error> {
        match self.pop() {
            Err(e) => Err(e),
            Ok((v, s1)) => s1.push(f(v)),
        }
    }

    /// Instructions 0x01..=0x3f (the opcode already fetched at `at`).
    pub open spec fn execute_low(self, opcode: u8, at: usize) -> Next<StepOutcome> {
        if opcode == 0x01 {
            match self.fetch_u8() {
                Err(e) => Err(e),
                Ok((v, s)) => cont(s.push(v as i32)),
            }
        } else if opcode == 0x02 {
            match self.fetch_i16() {
                Err(e) => Err(e),
                Ok((v, s)) => cont(s.push(v as i32)),
            }
        } else if opcode == 0x03 {
            match self.fetch_i32() {
                Err(e) => Err(e),
                Ok((v, s)) => cont(s.push(v)),
            }
        } else if 0x04 <= opcode <= 0x0c {
            cont(self.global_push(opcode))
        } else if opcode == 0x0d {
            cont(self.push_string())
        } else if 0x0e <= opcode <= 0x19 {
            cont(self.local_push(opcode))
        } else if opcode == 0x1a || opcode == 0x1b {
            cont(self.push(0))
        } else if opcode == 0x1c {
            cont(self.map_top(|v: i32| wsub_i32(0, v)))
        } else if 0x1d <= opcode <= 0x20 {
            cont(self.increment(opcode))
        } else if 0x21 <= opcode <= 0x34 {
            cont(self.integer_operation(opcode, at))
        } else if opcode == 0x35 {
            cont(self.assign_descriptor())
        } else if opcode == 0x36 {
            cont(self.load_pointer(1))
        } else if opcode == 0x37 {
            cont(self.describe_pointer(1))
        } else if opcode == 0x38 {
            match self.pop() {
                Err(e) => Err(e),
                Ok((v, s)) => Ok((StepOutcome::Continue, VmView { result: v, ..s })),
            }
        } else if opcode == 0x39 {
            cont(self.conditional_jump(self.result == 0))
        } else if opcode == 0x3a {
            cont(self.conditional_jump(self.result != 0))
        } else if opcode == 0x3b {
            match self.fetch_u24() {
                Err(e) => Err(e),
                Ok((target, s)) => cont(s.jump(target as usize)),
            }
        } else if opcode == 0x3c {
            match self.fetch_address() {
                Err(e) => Err(e),
                Ok((sp, s)) => Ok((StepOutcome::Continue, VmView { local_sp: sp, ..s })),
            }
        } else if opcode == 0x3d {
            cont(self.call())
        } else if opcode == 0x3e {
            cont(self.enter_function())
        } else {
            cont(self.leave_function())
        }
    }

    /// Instructions 0x40..=0x74 (the opcode already fetched at `at`).
    pub open spec fn execute_high(self, opcode: u8, at: usize) -> Next<StepOutcome> {
        if opcode == 0x40 {
            Ok((StepOutcome::Halted(0), VmView { exit_code: 0, running: false, ..self }))
        } else if opcode == 0x41 {
            cont(self.preset_memory())
        } else if opcode == 0x42 {
            cont(self.push(0))
        } else if opcode == 0x43 {
            match self.fetch_u8() {
                Err(e) => Err(e),
                Ok((v, s)) => Ok((StepOutcome::Continue, VmView { secret: v, ..s })),
            }
        } else if opcode == 0x44 || opcode == 0x72 {
            Ok((StepOutcome::Continue, self))
        } else if 0x45 <= opcode <= 0x51 {
            cont(self.quick_operation(opcode, at))
        } else if opcode == 0x52 {
            cont(self.load_pointer(2))
        } else if opcode == 0x53 {
            cont(self.load_pointer(4))
        } else if 0x54 <= opcode <= 0x69 {
            self.float_operation(opcode, at)
        } else if opcode == 0x6a {
            cont(self.describe_pointer(2))
        } else if opcode == 0x6b {
            cont(self.describe_pointer(4))
        } else if opcode == 0x6c {
            cont(self.map_top(|v: i32| v & 0xff))
        } else if opcode == 0x6d {
            cont(self.map_top(|v: i32| (v as i16) as i32))
        } else if opcode == 0x6e {
            cont(self.assign_indirect())
        } else if opcode == 0x6f {
            match self.indexed_address(false) {
                Err(e) => Err(e),
                Ok((a, s)) => cont(s.push(a as i32)),
            }
        } else if opcode == 0x70 {
            cont(self.indexed_increment())
        } else if opcode == 0x71 {
            match self.fetch_u8() {
                Err(e) => Err(e),
                Ok((_v, s)) => Ok((StepOutcome::Continue, s)),
            }
        } else if opcode == 0x73 {
            match self.fetch_u24() {
                Err(e) => Err(e),
                Ok((line, s)) => Ok((StepOutcome::Continue, VmView { current_line: Some(line), ..s })),
            }
        } else {
            match self.fetch_u24() {
                Err(e) => Err(e),
                Ok((function, s)) => Ok(
                    (
                        StepOutcome::Continue,
                        VmView {
                            function_stack: self.function_stack.push(self.current_function),
                            current_function: function,
                            ..s
                        },
                    ),
                ),
            }
        }
    }

    /// One instruction of the LavaX VM: a halted machine stays halted; system
    /// call opcodes (0x80..=0xd6) and floating-point opcodes are handed to the
    /// host; anything else runs here.
    pub open spec fn step(self) -> Next<StepOutcome> {
        if !self.running {
            Ok((StepOutcome::Halted(self.exit_code), self))
        } else {
            match self.fetch_u8() {
                Err(e) => Err(e),
                Ok((opcode, s0)) => {
                    let s = VmView { instructions_executed: wadd_u64(self.instructions_executed, 1), ..s0 };
                    if opcode & 0x80 != 0 {
                        if opcode > MAX_SYSTEM_OPCODE {
                            Err(Error::InvalidOpcode { opcode, pc: self.pc })
                        } else {
                            Ok((StepOutcome::SystemCall(opcode & 0x7f), s))
                        }
                    } else if opcode == 0 || opcode >= 0x75 {
                        Err(Error::InvalidOpcode { opcode, pc: self.pc })
                    } else {
                        let executed = if opcode < 0x40 {
                            s.execute_low(opcode, self.pc)
                        } else {
                            s.execute_high(opcode, self.pc)
                        };
                        match executed {
                            Err(e) => Err(e),
                            Ok((outcome, t)) => Ok((outcome, VmView { instructions_executed: s.instructions_executed, ..t })),
                        }
                    }
                },
            }
        }
    }
}

impl VmView {
    /// Up to `budget` instructions: stops early at a system call, a
    /// floating-point request, a halt or an error.
    #[verifier::opaque]
    pub open spec fn run(self, budget: nat) -> Next<RunOutcome>
        decreases budget,
    {
        if budget == 0 {
            Ok((RunOutcome::BudgetExhausted, self))
        } else {
            match self.step() {
                Err(e) => Err(e),
                Ok((StepOutcome::Continue, s)) => s.run((budget - 1) as nat),
                Ok((StepOutcome::SystemCall(call), s)) => Ok((RunOutcome::SystemCall(call), s)),
                Ok((StepOutcome::FloatOperation(f), s)) => Ok((RunOutcome::FloatOperation(f), s)),
                Ok((StepOutcome::Halted(code), s)) => Ok((RunOutcome::Halted(code), s)),
            }
        }
    }
}

/// A LavaX virtual machine: guest memory, registers and the loaded program.
#[derive(Debug, Clone)]
pub struct Vm {
    program: Program,
    memory: Vec<u8>,
    pc: usize,
    evaluation_top: usize,
    local_sp: u32,
    local_bp: u32,
    result: i32,
    exit_code: i32,
    secret: u8,
    string_ptr: u32,
    current_line: Option<u32>,
    current_function: u32,
    function_stack: Vec<u32>,
    running: bool,
    instructions_executed: u64,
}

impl View for Vm {
    type V = VmView;

    closed spec fn view(&self) -> VmView {
        VmView {
            image: self.program.spec_image(),
            width: self.program.spec_header().address_width,
            memory: self.memory@,
            pc: self.pc,
            evaluation_top: self.evaluation_top,
            local_sp: self.local_sp,
            local_bp: self.local_bp,
            result: self.result,
            exit_code: self.exit_code,
            secret: self.secret,
            string_ptr: self.string_ptr,
            current_line: self.current_line,
            current_function: self.current_function,
            function_stack: self.function_stack@,
            running: self.running,
            instructions_executed: self.instructions_executed,
        }
    }
}

impl VmView {
    /// The shape every machine keeps: the full guest address space, an
    /// evaluation stack of whole 4-byte values within its 256 bytes, and
    /// frame registers below 32 MiB.
    pub open spec fn wf(self) -> bool {
        &&& self.memory.len() == GUEST_MEMORY_SIZE
        &&& self.evaluation_top <= EVALUATION_STACK_SIZE
        &&& self.evaluation_top % 4 == 0
        &&& self.local_sp <= 0x0200_0000
        &&& self.local_bp <= 0x0200_0000
        &&& self.image.len() >= LAV_HEADER_SIZE
        &&& self.image.len() <= usize::MAX
    }
}

/// `r` is what the transition `n` yields, and on success `after` is its next state.
pub open spec fn agrees<T>(r: Result<T>, n: Next<T>, after: VmView) -> bool {
    match n {
        Ok((v, s)) => r == Ok::<T, Error>(v) && after == s,
        Err(e) => r == Err::<T, Error>(e),
    }
}

/// `r` is what the state change `n` yields, and on success `after` is its result.
pub open spec fn agrees_unit(r: Result<()>, n: core::result::Result<VmView, Error>, after: VmView) -> bool {
    match n {
        Ok(s) => r == Ok::<(), Error>(()) && after == s,
        Err(e) => r == Err::<(), Error>(e),
    }
}

/// The program and its address width are never changed by execution.
pub open spec fn same_program(a: VmView, b: VmView) -> bool {
    a.image == b.image && a.width == b.width
}

impl Vm {
    /// Internal invariant (see `VmView::wf`).
    pub closed spec fn wf(&self) -> bool {
        &&& self@.wf()
        &&& self.program.wf()
    }

    pub proof fn lemma_wf(&self)
        requires
            self.wf(),
        ensures
            self@.wf(),
    {
    }

    /// A machine with zeroed memory, ready to run `program` from its first
    /// bytecode byte.
    pub fn new(program: Program) -> (vm: Vm)
        requires
            program.wf(),
        ensures
            vm.wf(),
            vm@ == VmView::fresh(program.spec_image(), program.spec_header().address_width),
    {
        proof {
            program.lemma_wf();
        }
        Vm {
            program,
            memory: filled_bytes(0, GUEST_MEMORY_SIZE),
            pc: LAV_HEADER_SIZE,
            evaluation_top: 0,
            local_sp: 0,
            local_bp: 0,
            result: 0,
            exit_code: 0,
            secret: 0,
            string_ptr: STRING_STACK_ADDRESS,
            current_line: None,
            current_function: 0,
            function_stack: Vec::new(),
            running: true,
            instructions_executed: 0,
        }
    }

    /// Back to the state of a freshly created machine for the same program.
    pub fn reset(&mut self)
        requires
            old(self).wf(),
        ensures
            final(self).wf(),
            final(self)@ == VmView::fresh(old(self)@.image, old(self)@.width),
    {
        self.memory = filled_bytes(0, GUEST_MEMORY_SIZE);
        self.pc = LAV_HEADER_SIZE;
        self.evaluation_top = 0;
        self.local_sp = 0;
        self.local_bp = 0;
        self.result = 0;
        self.exit_code = 0;
        self.secret = 0;
        self.string_ptr = STRING_STACK_ADDRESS;
        self.current_line = None;
        self.current_function = 0;
        self.function_stack = Vec::new();
        self.running = true;
        self.instructions_executed = 0;
    }

    /// The loaded program.
    pub fn program(&self) -> (program: &Program)
        ensures
            program.spec_image() == self@.image,
            program.spec_header().address_width == self@.width,
    {
        &self.program
    }

    /// Guest memory.
    pub fn memory(&self) -> (memory: &[u8])
        ensures
            memory@ == self@.memory,
    {
        self.memory.as_slice()
    }

    /// Guest memory, for the host to change in place; a slice keeps its
    /// length, so the machine stays well-formed.
    pub fn memory_mut(&mut self) -> (memory: &mut [u8])
        requires
            old(self).wf(),
        ensures
            memory@ == old(self)@.memory,
            final(self)@ == (VmView { memory: final(memory)@, ..old(self)@ }),
            final(memory)@.len() == GUEST_MEMORY_SIZE ==> final(self).wf(),
    {
        self.memory.as_mut_slice()
    }

    /// Stores one byte of guest memory.
    pub fn set_memory_byte(&mut self, address: usize, value: u8)
        requires
            old(self).wf(),
            address < GUEST_MEMORY_SIZE,
        ensures
            final(self).wf(),
            final(self)@ == (VmView { memory: old(self)@.memory.update(address as int, value), ..old(self)@ }),
    {
        self.memory.set(address, value);
    }

    /// Program counter: offset of the next instruction in the image.
    pub fn pc(&self) -> (pc: usize)
        ensures
            pc == self@.pc,
    {
        self.pc
    }

    /// Stack pointer of the local frame stack.
    pub fn local_sp(&self) -> (sp: u32)
        ensures
            sp == self@.local_sp,
    {
        self.local_sp
    }

    /// Base pointer of the current local frame.
    pub fn local_bp(&self) -> (bp: u32)
        ensures
            bp == self@.local_bp,
    {
        self.local_bp
    }

    /// The result register that conditional jumps test.
    pub fn result(&self) -> (result: i32)
        ensures
            result == self@.result,
    {
        self.result
    }

    /// Exit code of a halted program.
    pub fn exit_code(&self) -> (code: i32)
        ensures
            code == self@.exit_code,
    {
        self.exit_code
    }

    /// Source line that the program last announced.
    pub fn current_line(&self) -> (line: Option<u32>)
        ensures
            line == self@.current_line,
    {
        self.current_line
    }

    /// Function that the program last announced.
    pub fn current_function(&self) -> (function: u32)
        ensures
            function == self@.current_function,
    {
        self.current_function
    }

    /// Whether the program has not halted.
    pub fn is_running(&self) -> (running: bool)
        ensures
            running == self@.running,
    {
        self.running
    }

    /// Stops the program with an exit code.
    pub fn halt(&mut self, exit_code: i32)
        requires
            old(self).wf(),
        ensures
            final(self).wf(),
            final(self)@ == (VmView { exit_code, running: false, ..old(self)@ }),
    {
        self.exit_code = exit_code;
        self.running = false;
    }

    /// Number of instructions fetched so far (wrapping).
    pub fn instructions_executed(&self) -> (count: u64)
        ensures
            count == self@.instructions_executed,
    {
        self.instructions_executed
    }

    /// Number of values on the evaluation stack.
    pub fn stack_depth(&self) -> (depth: usize)
        ensures
            depth == self@.evaluation_top / 4,
    {
        self.evaluation_top / 4
    }

    fn fetch_u8(&mut self) -> (r: Result<u8>)
        requires
            old(self).wf(),
        ensures
            final(self).wf(),
            same_program(old(self)@, final(self)@),
            agrees(r, old(self)@.fetch_u8(), final(self)@),
            r is Err ==> final(self)@ == old(self)@,
    {
        let image = self.program.image();
        if self.pc < image.len() {
            let value = image[self.pc];
            self.pc += 1;
            Ok(value)
        } else {
            Err(Error::UnexpectedEnd { pc: self.pc })
        }
    }

    fn fetch_u16(&mut self) -> (r: Result<u16>)
        requires
            old(self).wf(),
        ensures
            final(self).wf(),
            same_program(old(self)@, final(self)@),
            agrees(r, old(self)@.fetch_u16(), final(self)@),
    {
        let lo = self.fetch_u8()?;
        let hi = self.fetch_u8()?;
        Ok((lo as u16) | ((hi as u16) << 8u16))
    }

    fn fetch_i16(&mut self) -> (r: Result<i16>)
        requires
            old(self).wf(),
        ensures
            final(self).wf(),
            same_program(old(self)@, final(self)@),
            agrees(r, old(self)@.fetch_i16(), final(self)@),
    {
        let v = self.fetch_u16()?;
        Ok(v as i16)
    }

    fn fetch_u24(&mut self) -> (r: Result<u32>)
        requires
            old(self).wf(),
        ensures
            final(self).wf(),
            same_program(old(self)@, final(self)@),
            agrees(r, old(self)@.fetch_u24(), final(self)@),
    {
        let lo = self.fetch_u16()?;
        let hi = self.fetch_u8()?;
        Ok((lo as u32) | ((hi as u32) << 16u32))
    }

    fn fetch_i32(&mut self) -> (r: Result<i32>)
        requires
            old(self).wf(),
        ensures
            final(self).wf(),
            same_program(old(self)@, final(self)@),
            agrees(r, old(self)@.fetch_i32(), final(self)@),
    {
        let lo = self.fetch_u16()?;
        let hi = self.fetch_u16()?;
        Ok(((lo as u32) | ((hi as u32) << 16u32)) as i32)
    }

    fn fetch_address(&mut self) -> (r: Result<u32>)
        requires
            old(self).wf(),
        ensures
            final(self).wf(),
            same_program(old(self)@, final(self)@),
            agrees(r, old(self)@.fetch_address(), final(self)@),
    {
        let lo = self.fetch_u16()?;
        if self.address_width() == AddressWidth::Bits16 {
            Ok(lo as u32)
        } else {
            let hi = self.fetch_u8()?;
            Ok((lo as u32) | ((hi as u32) << 16u32))
        }
    }

    fn address_width(&self) -> (width: AddressWidth)
        ensures
            width == self@.width,
    {
        self.program.header().address_width
    }

    /// Pops the top value of the evaluation stack.
    pub fn pop_value(&mut self) -> (r: Result<i32>)
        requires
            old(self).wf(),
        ensures
            final(self).wf(),
            same_program(old(self)@, final(self)@),
            agrees(r, old(self)@.pop(), final(self)@),
            r is Err ==> final(self)@ == old(self)@,
    {
        if self.evaluation_top < 4 {
            return Err(Error::StackUnderflow);
        }
        self.evaluation_top -= 4;
        let start = EVALUATION_STACK_ADDRESS + self.evaluation_top;
        let value = ((self.memory[start] as u32) | ((self.memory[start + 1] as u32) << 8u32) | ((
        self.memory[start + 2] as u32) << 16u32) | ((self.memory[start + 3] as u32) << 24u32)) as i32;
        Ok(value)
    }

    /// Pushes a value onto the evaluation stack.
    pub fn push_value(&mut self, value: i32) -> (r: Result<()>)
        requires
            old(self).wf(),
        ensures
            final(self).wf(),
            same_program(old(self)@, final(self)@),
            agrees_unit(r, old(self)@.push(value), final(self)@),
            r is Err ==> final(self)@ == old(self)@,
    {
        if self.evaluation_top + 4 > EVALUATION_STACK_SIZE {
            return Err(Error::StackOverflow);
        }
        let start = EVALUATION_STACK_ADDRESS + self.evaluation_top;
        let v = value as u32;
        let ghost m = self.memory@;
        self.memory.set(start, v as u8);
        self.memory.set(start + 1, (v >> 8u32) as u8);
        self.memory.set(start + 2, (v >> 16u32) as u8);
        self.memory.set(start + 3, (v >> 24u32) as u8);
        self.evaluation_top += 4;
        assert(self.memory@ =~= m.take(start as int) + bytes_u32(v) + m.skip(start + 4));
        Ok(())
    }

    pub(crate) fn checked_range(&self, address: u32, length: usize) -> (r: Result<(usize, usize)>)
        requires
            self.wf(),
        ensures
            match self@.range(address, length) {
                Ok(range) => r == Ok::<(usize, usize), Error>(range),
                Err(e) => r == Err::<(usize, usize), Error>(e),
            },
    {
        let start = address as usize;
        let end = match start.checked_add(length) {
            Some(end) => end,
            None => return Err(Error::MemoryOutOfBounds { address, end: u32::MAX }),
        };
        if end > self.memory.len() {
            let last = end - 1;
            return Err(
                Error::MemoryOutOfBounds {
                    address,
                    end: if last > u32::MAX as usize {
                        u32::MAX
                    } else {
                        last as u32
                    },
                },
            );
        }
        Ok((start, end))
    }

    pub(crate) fn read_u8(&self, address: u32) -> (r: Result<u8>)
        requires
            self.wf(),
        ensures
            r == self@.read_u8(address),
    {
        let (start, _) = self.checked_range(address, 1)?;
        Ok(self.memory[start])
    }

    pub(crate) fn read_u16(&self, address: u32) -> (r: Result<u16>)
        requires
            self.wf(),
        ensures
            r == self@.read_u16(address),
    {
        let (a, _) = self.checked_range(address, 2)?;
        Ok((self.memory[a] as u16) | ((self.memory[a + 1] as u16) << 8u16))
    }

    fn read_u24(&self, address: u32) -> (r: Result<u32>)
        requires
            self.wf(),
        ensures
            r == self@.read_u24(address),
    {
        let (a, _) = self.checked_range(address, 3)?;
        Ok((self.memory[a] as u32) | ((self.memory[a + 1] as u32) << 8u32) | ((self.memory[a + 2] as u32)
            << 16u32))
    }

    fn read_i32(&self, address: u32) -> (r: Result<i32>)
        requires
            self.wf(),
        ensures
            r == self@.read_i32(address),
    {
        let (a, _) = self.checked_range(address, 4)?;
        Ok(((self.memory[a] as u32) | ((self.memory[a + 1] as u32) << 8u32) | ((self.memory[a + 2] as u32)
            << 16u32) | ((self.memory[a + 3] as u32) << 24u32)) as i32)
    }

    fn read_sized(&self, address: u32, size: u8) -> (r: Result<i32>)
        requires
            self.wf(),
        ensures
            r == self@.read_sized(address, size),
    {
        if size == 1 {
            Ok(self.read_u8(address)? as i32)
        } else if size == 2 {
            Ok((self.read_u16(address)? as i16) as i32)
        } else {
            self.read_i32(address)
        }
    }

    /// The bytes of the NUL-terminated string at `address` (see `VmView::c_string`).
    pub(crate) fn read_c_bytes(&self, address: u32) -> (r: Result<Vec<u8>>)
        requires
            self.wf(),
        ensures
            match self@.c_string(address) {
                Ok(bytes) => r matches Ok(v) && v@ == bytes,
                Err(e) => r == Err::<Vec<u8>, Error>(e),
            },
            r matches Ok(v) ==> v@.len() < GUEST_MEMORY_SIZE,
    {
        let (start, _) = self.checked_range(address, 1)?;
        proof {
            lemma_first_zero(self@.memory, start as int);
        }
        let n = self.memory.len();
        let mut k: usize = start;
        while k < n && self.memory[k] != 0
            invariant
                n == self@.memory.len(),
                start <= k <= n,
                first_zero(self@.memory, start as int) == first_zero(self@.memory, k as int),
            decreases n - k,
        {
            k += 1;
        }
        if k >= n {
            return Err(Error::MemoryOutOfBounds { address, end: (n - 1) as u32 });
        }
        let mut bytes: Vec<u8> = Vec::new();
        let mut i: usize = start;
        while i < k
            invariant
                start <= i <= k,
                k < n,
                n == self@.memory.len(),
                bytes@ == self@.memory.subrange(start as int, i as int),
            decreases k - i,
        {
            bytes.push(self.memory[i]);
            i += 1;
        }
        Ok(bytes)
    }

    pub(crate) fn write_bytes(&mut self, address: u32, bytes: &[u8]) -> (r: Result<()>)
        requires
            old(self).wf(),
        ensures
            final(self).wf(),
            same_program(old(self)@, final(self)@),
            agrees_unit(r, old(self)@.write_bytes(address, bytes@), final(self)@),
            r is Err ==> final(self)@ == old(self)@,
    {
        let (start, end) = self.checked_range(address, bytes.len())?;
        let ghost m = self.memory@;
        let mut i: usize = 0;
        while i < bytes.len()
            invariant
                self.wf(),
                same_program(old(self)@, self@),
                self@ == (VmView { memory: self@.memory, ..old(self)@ }),
                start + bytes@.len() == end,
                end <= m.len(),
                m == old(self)@.memory,
                i <= bytes@.len(),
                self.memory@ == m.take(start as int) + bytes@.take(i as int) + m.skip(start + i),
            decreases bytes@.len() - i,
        {
            self.memory.set(start + i, bytes[i]);
            assert(self.memory@ =~= m.take(start as int) + bytes@.take(i + 1) + m.skip(start + i + 1));
            i += 1;
        }
        assert(bytes@.take(bytes@.len() as int) =~= bytes@);
        Ok(())
    }

    fn write_u8(&mut self, address: u32, value: u8) -> (r: Result<()>)
        requires
            old(self).wf(),
        ensures
            final(self).wf(),
            same_program(old(self)@, final(self)@),
            agrees_unit(r, old(self)@.write_bytes(address, seq![value]), final(self)@),
            r is Err ==> final(self)@ == old(self)@,
    {
        let bytes = [value];
        assert(bytes@ =~= seq![value]);
        self.write_bytes(address, &bytes)
    }

    fn write_u16(&mut self, address: u32, value: u16) -> (r: Result<()>)
        requires
            old(self).wf(),
        ensures
            final(self).wf(),
            same_program(old(self)@, final(self)@),
            agrees_unit(r, old(self)@.write_bytes(address, bytes_u16(value)), final(self)@),
            r is Err ==> final(self)@ == old(self)@,
    {
        let bytes = [value as u8, (value >> 8u16) as u8];
        assert(bytes@ =~= bytes_u16(value));
        self.write_bytes(address, &bytes)
    }

    fn write_u24(&mut self, address: u32, value: u32) -> (r: Result<()>)
        requires
            old(self).wf(),
        ensures
            final(self).wf(),
            same_program(old(self)@, final(self)@),
            agrees_unit(r, old(self)@.write_bytes(address, bytes_u24(value)), final(self)@),
            r is Err ==> final(self)@ == old(self)@,
    {
        let bytes = [value as u8, (value >> 8u32) as u8, (value >> 16u32) as u8];
        assert(bytes@ =~= bytes_u24(value));
        self.write_bytes(address, &bytes)
    }

    fn write_i32(&mut self, address: u32, value: i32) -> (r: Result<()>)
        requires
            old(self).wf(),
        ensures
            final(self).wf(),
            same_program(old(self)@, final(self)@),
            agrees_unit(r, old(self)@.write_bytes(address, bytes_u32(value as u32)), final(self)@),
            r is Err ==> final(self)@ == old(self)@,
    {
        let v = value as u32;
        let bytes = [v as u8, (v >> 8u32) as u8, (v >> 16u32) as u8, (v >> 24u32) as u8];
        assert(bytes@ =~= bytes_u32(v));
        self.write_bytes(address, &bytes)
    }

    fn write_sized(&mut self, address: u32, size: u8, value: i32) -> (r: Result<()>)
        requires
            old(self).wf(),
        ensures
            final(self).wf(),
            same_program(old(self)@, final(self)@),
            agrees_unit(r, old(self)@.write_sized(address, size, value), final(self)@),
            r is Err ==> final(self)@ == old(self)@,
    {
        if size == 1 {
            self.write_u8(address, value as u8)
        } else if size == 2 {
            self.write_u16(address, value as u16)
        } else {
            self.write_i32(address, value)
        }
    }
}

proof fn lemma_write_in_range(s: VmView, address: u32, bytes: Seq<u8>)
    requires
        s.write_bytes(address, bytes) is Ok,
        bytes.len() <= 8,
    ensures
        address + bytes.len() <= s.memory.len(),
{
}

impl Vm {
    fn address_mask(&self) -> (mask: u32)
        ensures
            mask == spec_address_mask(self@.width),
    {
        match self.address_width() {
            AddressWidth::Bits16 => 0xffff,
            _ => 0x00ff_ffff,
        }
    }

    fn pointer_descriptor(&self, address: u32, size: u8) -> (d: u32)
        ensures
            d == spec_pointer_descriptor(self@.width, address, size),
    {
        match self.address_width() {
            AddressWidth::Bits16 => (address & 0xffff) | ((size as u32) << 16u32),
            _ => (address & 0x00ff_ffff) | ((size as u32) << 24u32),
        }
    }

    fn decode_descriptor(&self, d: u32) -> (r: (u32, u8))
        ensures
            r == self@.decode_descriptor(d),
    {
        match self.address_width() {
            AddressWidth::Bits16 => {
                let adjusted = if d & 0x0080_0000 != 0 {
                    d.wrapping_add(self.local_bp)
                } else {
                    d
                };
                (adjusted & 0xffff, ((d >> 16u32) & 0x7f) as u8)
            },
            _ => {
                let adjusted = if d & 0x8000_0000 != 0 {
                    d.wrapping_add(self.local_bp)
                } else {
                    d
                };
                (adjusted & 0x00ff_ffff, ((d >> 24u32) & 0x7f) as u8)
            },
        }
    }

    fn indexed_address(&mut self, local: bool) -> (r: Result<u32>)
        requires
            old(self).wf(),
        ensures
            final(self).wf(),
            same_program(old(self)@, final(self)@),
            agrees(r, old(self)@.indexed_address(local), final(self)@),
    {
        let mut address = self.fetch_address()?;
        if local {
            address = address.wrapping_add(self.local_bp);
        }
        let index = self.pop_value()? as u32;
        Ok(address.wrapping_add(index & self.address_mask()))
    }

    fn push_sized(&mut self, address: u32, size: u8) -> (r: Result<()>)
        requires
            old(self).wf(),
        ensures
            final(self).wf(),
            same_program(old(self)@, final(self)@),
            agrees_unit(r, old(self)@.push_read(old(self)@.read_sized(address, size)), final(self)@),
    {
        let value = self.read_sized(address, size)?;
        self.push_value(value)
    }

    fn global_push(&mut self, opcode: u8) -> (r: Result<()>)
        requires
            old(self).wf(),
        ensures
            final(self).wf(),
            same_program(old(self)@, final(self)@),
            agrees_unit(r, old(self)@.global_push(opcode), final(self)@),
    {
        let address = if opcode >= 0x07 {
            self.indexed_address(false)?
        } else {
            self.fetch_address()?
        };
        if opcode == 0x04 || opcode == 0x07 {
            self.push_sized(address, 1)
        } else if opcode == 0x05 || opcode == 0x08 {
            self.push_sized(address, 2)
        } else if opcode == 0x06 || opcode == 0x09 {
            self.push_sized(address, 4)
        } else if opcode == 0x0a {
            let d = self.pointer_descriptor(address, 1);
            self.push_value(d as i32)
        } else if opcode == 0x0b {
            let d = self.pointer_descriptor(address, 2);
            self.push_value(d as i32)
        } else {
            let d = self.pointer_descriptor(address, 0);
            self.push_value(d as i32)
        }
    }

    fn local_push(&mut self, opcode: u8) -> (r: Result<()>)
        requires
            old(self).wf(),
        ensures
            final(self).wf(),
            same_program(old(self)@, final(self)@),
            agrees_unit(r, old(self)@.local_push(opcode), final(self)@),
    {
        let address = if opcode == 0x0e || opcode == 0x0f || opcode == 0x10 || opcode == 0x19 {
            let a = self.fetch_address()?;
            a.wrapping_add(self.local_bp)
        } else if opcode == 0x17 {
            self.indexed_address(false)?
        } else {
            self.indexed_address(true)?
        };
        if opcode == 0x0e || opcode == 0x11 {
            self.push_sized(address, 1)
        } else if opcode == 0x0f || opcode == 0x12 {
            self.push_sized(address, 2)
        } else if opcode == 0x10 || opcode == 0x13 {
            self.push_sized(address, 4)
        } else if opcode == 0x14 {
            let d = self.pointer_descriptor(address, 1);
            self.push_value(d as i32)
        } else if opcode == 0x15 {
            let d = self.pointer_descriptor(address, 2);
            self.push_value(d as i32)
        } else {
            let d = self.pointer_descriptor(address, 0);
            self.push_value(d as i32)
        }
    }

    fn push_then_store(&mut self, pushed: i32, address: u32, size: u8, updated: i32) -> (r: Result<()>)
        requires
            old(self).wf(),
        ensures
            final(self).wf(),
            same_program(old(self)@, final(self)@),
            agrees_unit(r, old(self)@.push_then_store(pushed, address, size, updated), final(self)@),
    {
        self.push_value(pushed)?;
        self.write_sized(address, size, updated)
    }

    fn increment(&mut self, opcode: u8) -> (r: Result<()>)
        requires
            old(self).wf(),
        ensures
            final(self).wf(),
            same_program(old(self)@, final(self)@),
            agrees_unit(r, old(self)@.increment(opcode), final(self)@),
    {
        let descriptor = self.pop_value()? as u32;
        let (address, size) = self.decode_descriptor(descriptor);
        let previous = self.read_sized(address, size)?;
        let updated = if opcode == 0x1d || opcode == 0x1f {
            previous.wrapping_add(1)
        } else {
            previous.wrapping_sub(1)
        };
        let pushed = if opcode == 0x1d || opcode == 0x1e {
            updated
        } else {
            previous
        };
        self.push_then_store(pushed, address, size, updated)
    }

    fn integer_binary(opcode: u8, lhs: i32, rhs: i32, pc: usize) -> (r: Result<i32>)
        ensures
            r == spec_integer_binary(opcode, lhs, rhs, pc),
    {
        if opcode == 0x21 {
            Ok(lhs.wrapping_add(rhs))
        } else if opcode == 0x22 {
            Ok(lhs.wrapping_sub(rhs))
        } else if opcode == 0x23 {
            Ok(lhs & rhs)
        } else if opcode == 0x24 {
            Ok(lhs | rhs)
        } else if opcode == 0x26 {
            Ok(lhs ^ rhs)
        } else if opcode == 0x27 {
            Ok(bool_value(lhs != 0 && rhs != 0))
        } else if opcode == 0x28 {
            Ok(bool_value(lhs != 0 || rhs != 0))
        } else if opcode == 0x2a {
            Ok(lhs.wrapping_mul(rhs))
        } else if opcode == 0x2b {
            checked_div(lhs, rhs, pc)
        } else if opcode == 0x2c {
            checked_rem(lhs, rhs, pc)
        } else if opcode == 0x2d {
            Ok(
                if rhs < 0 {
                    0
                } else {
                    lhs.wrapping_shl(rhs as u32)
                },
            )
        } else if opcode == 0x2e {
            Ok(
                if rhs < 0 {
                    0
                } else {
                    (lhs as u32).wrapping_shr(rhs as u32) as i32
                },
            )
        } else if opcode == 0x2f {
            Ok(bool_value(lhs == rhs))
        } else if opcode == 0x30 {
            Ok(bool_value(lhs != rhs))
        } else if opcode == 0x31 {
            Ok(bool_value(lhs <= rhs))
        } else if opcode == 0x32 {
            Ok(bool_value(lhs >= rhs))
        } else if opcode == 0x33 {
            Ok(bool_value(lhs > rhs))
        } else {
            Ok(bool_value(lhs < rhs))
        }
    }

    fn quick(opcode: u8, lhs: i32, rhs: i32, pc: usize) -> (r: Result<i32>)
        ensures
            r == spec_quick(opcode, lhs, rhs, pc),
    {
        if opcode == 0x45 {
            Ok(lhs.wrapping_add(rhs))
        } else if opcode == 0x46 {
            Ok(lhs.wrapping_sub(rhs))
        } else if opcode == 0x47 {
            Ok(lhs.wrapping_mul(rhs))
        } else if opcode == 0x48 {
            checked_div(lhs, rhs, pc)
        } else if opcode == 0x49 {
            checked_rem(lhs, rhs, pc)
        } else if opcode == 0x4a {
            Ok(lhs.wrapping_shl(rhs as u32))
        } else if opcode == 0x4b {
            Ok((lhs as u32).wrapping_shr(rhs as u32) as i32)
        } else if opcode == 0x4c {
            Ok(bool_value(lhs == rhs))
        } else if opcode == 0x4d {
            Ok(bool_value(lhs != rhs))
        } else if opcode == 0x4e {
            Ok(bool_value(lhs > rhs))
        } else if opcode == 0x4f {
            Ok(bool_value(lhs < rhs))
        } else if opcode == 0x50 {
            Ok(bool_value(lhs >= rhs))
        } else {
            Ok(bool_value(lhs <= rhs))
        }
    }

    fn integer_operation(&mut self, opcode: u8, at: usize) -> (r: Result<()>)
        requires
            old(self).wf(),
        ensures
            final(self).wf(),
            same_program(old(self)@, final(self)@),
            agrees_unit(r, old(self)@.integer_operation(opcode, at), final(self)@),
    {
        if opcode == 0x25 || opcode == 0x29 {
            let value = self.pop_value()?;
            let result = if opcode == 0x25 {
                !value
            } else {
                bool_value(value == 0)
            };
            return self.push_value(result);
        }
        let rhs = self.pop_value()?;
        let lhs = self.pop_value()?;
        let value = Self::integer_binary(opcode, lhs, rhs, at)?;
        self.push_value(value)
    }

    fn assign_descriptor(&mut self) -> (r: Result<()>)
        requires
            old(self).wf(),
        ensures
            final(self).wf(),
            same_program(old(self)@, final(self)@),
            agrees_unit(r, old(self)@.assign_descriptor(), final(self)@),
    {
        let value = self.pop_value()?;
        let descriptor = self.pop_value()? as u32;
        let (address, size) = self.decode_descriptor(descriptor);
        self.write_sized(address, size, value)?;
        self.push_value(value)
    }

    fn assign_indirect(&mut self) -> (r: Result<()>)
        requires
            old(self).wf(),
        ensures
            final(self).wf(),
            same_program(old(self)@, final(self)@),
            agrees_unit(r, old(self)@.assign_indirect(), final(self)@),
    {
        let value = self.pop_value()?;
        let mut address = self.pop_value()? as u32;
        let kind = self.fetch_u8()?;
        if kind & 0x80 != 0 {
            address = address.wrapping_add(self.local_bp);
        }
        self.write_sized(address, kind & 0x7f, value)?;
        self.push_value(value)
    }

    fn jump(&mut self, target: usize) -> (r: Result<()>)
        requires
            old(self).wf(),
        ensures
            final(self).wf(),
            same_program(old(self)@, final(self)@),
            agrees_unit(r, old(self)@.jump(target), final(self)@),
    {
        if target >= self.program.image().len() {
            return Err(Error::InvalidJump { target });
        }
        self.pc = target;
        Ok(())
    }

    fn conditional_jump(&mut self, take: bool) -> (r: Result<()>)
        requires
            old(self).wf(),
        ensures
            final(self).wf(),
            same_program(old(self)@, final(self)@),
            agrees_unit(r, old(self)@.conditional_jump(take), final(self)@),
    {
        let target = self.fetch_u24()? as usize;
        if take {
            self.jump(target)?;
        }
        Ok(())
    }

    fn call(&mut self) -> (r: Result<()>)
        requires
            old(self).wf(),
        ensures
            final(self).wf(),
            same_program(old(self)@, final(self)@),
            agrees_unit(r, old(self)@.call(), final(self)@),
    {
        let return_address = match self.pc.checked_add(3) {
            Some(a) => a,
            None => return Err(Error::UnexpectedEnd { pc: self.pc }),
        };
        self.write_u24(self.local_sp, return_address as u32)?;
        let target = self.fetch_u24()? as usize;
        self.jump(target)
    }

    fn argument_offset(&self) -> (offset: u32)
        ensures
            offset == self@.argument_offset(),
    {
        match self.address_width() {
            AddressWidth::Bits32 => 8,
            AddressWidth::Bits24 => 6,
            AddressWidth::Bits16 => 5,
        }
    }

    fn enter_function(&mut self) -> (r: Result<()>)
        requires
            old(self).wf(),
        ensures
            final(self).wf(),
            same_program(old(self)@, final(self)@),
            agrees_unit(r, old(self)@.enter_function(), final(self)@),
    {
        let previous_bp = self.local_bp;
        self.local_bp = self.local_sp;
        let ghost s0 = self@;
        if self.address_width() == AddressWidth::Bits16 {
            self.write_u16(self.local_bp + 3, previous_bp as u16)?;
            proof {
                lemma_write_in_range(s0, (s0.local_bp + 3) as u32, bytes_u16(previous_bp as u16));
            }
        } else {
            self.write_u24(self.local_bp + 3, previous_bp)?;
            proof {
                lemma_write_in_range(s0, (s0.local_bp + 3) as u32, bytes_u24(previous_bp));
            }
        }
        let frame_size = self.fetch_address()?;
        assert(frame_size & 0x00ff_ffff <= 0x00ff_ffff) by (bit_vector);
        self.local_sp = self.local_bp.wrapping_add(frame_size & 0x00ff_ffff);
        let count = self.fetch_u8()?;
        let argument_bytes = (count as usize) * 4;
        if argument_bytes > self.evaluation_top {
            return Err(Error::StackUnderflow);
        }
        self.evaluation_top -= argument_bytes;
        let source = EVALUATION_STACK_ADDRESS + self.evaluation_top;
        let destination = self.local_bp + self.argument_offset();
        let bytes = copy_bytes(&self.memory.as_slice()[source..source + argument_bytes]);
        self.write_bytes(destination, bytes.as_slice())
    }

    fn leave_function(&mut self) -> (r: Result<()>)
        requires
            old(self).wf(),
        ensures
            final(self).wf(),
            same_program(old(self)@, final(self)@),
            agrees_unit(r, old(self)@.leave_function(), final(self)@),
    {
        self.local_sp = self.local_bp;
        let target = self.read_u24(self.local_bp)? as usize;
        let previous = if self.address_width() == AddressWidth::Bits16 {
            self.read_u16(self.local_bp + 3)? as u32
        } else {
            self.read_u24(self.local_bp + 3)?
        };
        self.local_bp = previous & 0x00ff_ffff;
        assert(previous & 0x00ff_ffff <= 0x00ff_ffff) by (bit_vector);
        self.jump(target)?;
        if let Some(function) = self.function_stack.pop() {
            self.current_function = function;
        }
        Ok(())
    }

    fn preset_memory(&mut self) -> (r: Result<()>)
        requires
            old(self).wf(),
        ensures
            final(self).wf(),
            same_program(old(self)@, final(self)@),
            agrees_unit(r, old(self)@.preset_memory(), final(self)@),
    {
        let address = self.fetch_address()?;
        let length = self.fetch_u16()? as usize;
        let end = match self.pc.checked_add(length) {
            Some(end) => end,
            None => return Err(Error::UnexpectedEnd { pc: self.pc }),
        };
        let image = self.program.image();
        if end > image.len() {
            return Err(Error::UnexpectedEnd { pc: self.pc });
        }
        let bytes = copy_bytes(&image[self.pc..end]);
        self.pc = end;
        self.write_bytes(address, bytes.as_slice())
    }

    fn push_string(&mut self) -> (r: Result<()>)
        requires
            old(self).wf(),
        ensures
            final(self).wf(),
            same_program(old(self)@, final(self)@),
            agrees_unit(r, old(self)@.push_string(), final(self)@),
    {
        self.push_value(self.string_ptr as i32)?;
        let ghost target = self@.copy_string();
        loop
            invariant_except_break
                target == self@.copy_string(),
            invariant
                self.wf(),
                same_program(old(self)@, self@),
                old(self)@.push(old(self)@.string_ptr as i32) matches Ok(s1) && s1.copy_string()
                    == target,
            ensures
                self.wf(),
                same_program(old(self)@, self@),
                target == Ok::<VmView, Error>(self@),
            decreases self@.image.len() - self@.pc,
        {
            let ghost before = self@;
            let byte = self.fetch_u8()?;
            let value = byte ^ self.secret;
            let ghost s1 = self@;
            let address = self.string_ptr;
            match self.write_u8(address, value) {
                Ok(()) => {},
                Err(e) => {
                    return Err(e);
                },
            }
            proof {
                let (a, _e) = s1.range(address, 1)->Ok_0;
                assert(self@.memory =~= s1.memory.update(a as int, value));
            }
            self.string_ptr = self.string_ptr.wrapping_add(1);
            if value == 0 {
                break;
            }
        }
        if self.string_ptr >= STRING_STACK_ADDRESS + STRING_STACK_SIZE {
            self.string_ptr = STRING_STACK_ADDRESS;
        }
        Ok(())
    }

    fn quick_operation(&mut self, opcode: u8, at: usize) -> (r: Result<()>)
        requires
            old(self).wf(),
        ensures
            final(self).wf(),
            same_program(old(self)@, final(self)@),
            agrees_unit(r, old(self)@.quick_operation(opcode, at), final(self)@),
    {
        let lhs = self.pop_value()?;
        let rhs = self.fetch_i16()? as i32;
        let value = Self::quick(opcode, lhs, rhs, at)?;
        self.push_value(value)
    }

    fn float_operation(&mut self, opcode: u8, at: usize) -> (r: Result<StepOutcome>)
        requires
            old(self).wf(),
        ensures
            final(self).wf(),
            same_program(old(self)@, final(self)@),
            agrees(r, old(self)@.float_operation(opcode, at), final(self)@),
    {
        if opcode == 0x54 || opcode == 0x55 || opcode == 0x62 || opcode == 0x69 {
            let value = self.pop_value()?;
            if opcode == 0x69 {
                self.push_value(value & 0x7fff_ffff)?;
                return Ok(StepOutcome::Continue);
            }
            return Ok(StepOutcome::FloatOperation(FloatRequest { opcode, lhs: value, rhs: 0 }));
        }
        let rhs = self.pop_value()?;
        let lhs = self.pop_value()?;
        if (opcode == 0x5f || opcode == 0x60 || opcode == 0x61) && rhs == 0 {
            return Err(Error::DivisionByZero { pc: at });
        }
        Ok(StepOutcome::FloatOperation(FloatRequest { opcode, lhs, rhs }))
    }

    fn indexed_increment(&mut self) -> (r: Result<()>)
        requires
            old(self).wf(),
        ensures
            final(self).wf(),
            same_program(old(self)@, final(self)@),
            agrees_unit(r, old(self)@.indexed_increment(), final(self)@),
    {
        let mut address = self.pop_value()? as u32;
        let mode = self.fetch_u8()?;
        if mode & 0x80 != 0 {
            address = address.wrapping_add(self.local_bp);
        }
        let size = mode & 0x1f;
        let previous = self.read_sized(address, size)?;
        let operation = (mode >> 5u8) & 3;
        let updated = if operation == 0 || operation == 2 {
            previous.wrapping_add(1)
        } else {
            previous.wrapping_sub(1)
        };
        let pushed = if operation < 2 {
            updated
        } else {
            previous
        };
        self.push_then_store(pushed, address, size, updated)
    }

    fn load_pointer(&mut self, size: u8) -> (r: Result<()>)
        requires
            old(self).wf(),
        ensures
            final(self).wf(),
            same_program(old(self)@, final(self)@),
            agrees_unit(r, old(self)@.load_pointer(size), final(self)@),
    {
        let pointer = self.pop_value()? as u32;
        let address = pointer & self.address_mask();
        self.push_sized(address, size)
    }

    fn describe_pointer(&mut self, size: u8) -> (r: Result<()>)
        requires
            old(self).wf(),
        ensures
            final(self).wf(),
            same_program(old(self)@, final(self)@),
            agrees_unit(r, old(self)@.describe_pointer(size), final(self)@),
    {
        let pointer = self.pop_value()? as u32;
        let d = self.pointer_descriptor(pointer, size);
        self.push_value(d as i32)
    }
}

impl Vm {
    fn execute_low(&mut self, opcode: u8, at: usize) -> (r: Result<StepOutcome>)
        requires
            old(self).wf(),
            0x01 <= opcode < 0x40,
        ensures
            final(self).wf(),
            same_program(old(self)@, final(self)@),
            agrees(r, old(self)@.execute_low(opcode, at), final(self)@),
    {
        if opcode == 0x01 {
            let value = self.fetch_u8()? as i32;
            self.push_value(value)?;
        } else if opcode == 0x02 {
            let value = self.fetch_i16()? as i32;
            self.push_value(value)?;
        } else if opcode == 0x03 {
            let value = self.fetch_i32()?;
            self.push_value(value)?;
        } else if 0x04 <= opcode && opcode <= 0x0c {
            self.global_push(opcode)?;
        } else if opcode == 0x0d {
            self.push_string()?;
        } else if 0x0e <= opcode && opcode <= 0x19 {
            self.local_push(opcode)?;
        } else if opcode == 0x1a || opcode == 0x1b {
            self.push_value(0)?;
        } else if opcode == 0x1c {
            let value = self.pop_value()?;
            self.push_value(0i32.wrapping_sub(value))?;
        } else if 0x1d <= opcode && opcode <= 0x20 {
            self.increment(opcode)?;
        } else if 0x21 <= opcode && opcode <= 0x34 {
            self.integer_operation(opcode, at)?;
        } else if opcode == 0x35 {
            self.assign_descriptor()?;
        } else if opcode == 0x36 {
            self.load_pointer(1)?;
        } else if opcode == 0x37 {
            self.describe_pointer(1)?;
        } else if opcode == 0x38 {
            self.result = self.pop_value()?;
        } else if opcode == 0x39 {
            let take = self.result == 0;
            self.conditional_jump(take)?;
        } else if opcode == 0x3a {
            let take = self.result != 0;
            self.conditional_jump(take)?;
        } else if opcode == 0x3b {
            let target = self.fetch_u24()? as usize;
            self.jump(target)?;
        } else if opcode == 0x3c {
            proof {
                lemma_fetched_address_bound(old(self)@);
            }
            self.local_sp = self.fetch_address()?;
        } else if opcode == 0x3d {
            self.call()?;
        } else if opcode == 0x3e {
            self.enter_function()?;
        } else {
            self.leave_function()?;
        }
        Ok(StepOutcome::Continue)
    }

    fn execute_high(&mut self, opcode: u8, at: usize) -> (r: Result<StepOutcome>)
        requires
            old(self).wf(),
            0x40 <= opcode < 0x75,
        ensures
            final(self).wf(),
            same_program(old(self)@, final(self)@),
            agrees(r, old(self)@.execute_high(opcode, at), final(self)@),
    {
        if opcode == 0x40 {
            self.exit_code = 0;
            self.running = false;
            return Ok(StepOutcome::Halted(0));
        } else if opcode == 0x41 {
            self.preset_memory()?;
        } else if opcode == 0x42 {
            self.push_value(0)?;
        } else if opcode == 0x43 {
            self.secret = self.fetch_u8()?;
        } else if opcode == 0x44 || opcode == 0x72 {
        } else if 0x45 <= opcode && opcode <= 0x51 {
            self.quick_operation(opcode, at)?;
        } else if opcode == 0x52 {
            self.load_pointer(2)?;
        } else if opcode == 0x53 {
            self.load_pointer(4)?;
        } else if 0x54 <= opcode && opcode <= 0x69 {
            return self.float_operation(opcode, at);
        } else if opcode == 0x6a {
            self.describe_pointer(2)?;
        } else if opcode == 0x6b {
            self.describe_pointer(4)?;
        } else if opcode == 0x6c {
            let value = self.pop_value()?;
            self.push_value(value & 0xff)?;
        } else if opcode == 0x6d {
            let value = self.pop_value()?;
            self.push_value((value as i16) as i32)?;
        } else if opcode == 0x6e {
            self.assign_indirect()?;
        } else if opcode == 0x6f {
            let address = self.indexed_address(false)?;
            self.push_value(address as i32)?;
        } else if opcode == 0x70 {
            self.indexed_increment()?;
        } else if opcode == 0x71 {
            self.fetch_u8()?;
        } else if opcode == 0x73 {
            let line = self.fetch_u24()?;
            self.current_line = Some(line);
        } else {
            let function = self.fetch_u24()?;
            self.function_stack.push(self.current_function);
            self.current_function = function;
        }
        Ok(StepOutcome::Continue)
    }

    /// Executes one instruction (see `VmView::step`); on an error the state
    /// is whatever the failing instruction left.
    pub fn step(&mut self) -> (r: Result<StepOutcome>)
        requires
            old(self).wf(),
        ensures
            final(self).wf(),
            same_program(old(self)@, final(self)@),
            agrees(r, old(self)@.step(), final(self)@),
            old(self)@.running && old(self)@.pc >= old(self)@.image.len() ==> final(self)@ == old(self)@,
            old(self)@.running && old(self)@.pc < old(self)@.image.len() && is_invalid_opcode(
                old(self)@.image[old(self)@.pc as int],
            ) ==> final(self)@ == (VmView {
                pc: (old(self)@.pc + 1) as usize,
                instructions_executed: wadd_u64(old(self)@.instructions_executed, 1),
                ..old(self)@
            }),
    {
        if !self.running {
            return Ok(StepOutcome::Halted(self.exit_code));
        }
        let opcode_pc = self.pc;
        let opcode = self.fetch_u8()?;
        let count = self.instructions_executed.wrapping_add(1);
        self.instructions_executed = count;
        if opcode & 0x80 != 0 {
            if opcode > MAX_SYSTEM_OPCODE {
                return Err(Error::InvalidOpcode { opcode, pc: opcode_pc });
            }
            return Ok(StepOutcome::SystemCall(opcode & 0x7f));
        }
        if opcode == 0 || opcode >= 0x75 {
            return Err(Error::InvalidOpcode { opcode, pc: opcode_pc });
        }
        let outcome = if opcode < 0x40 {
            self.execute_low(opcode, opcode_pc)?
        } else {
            self.execute_high(opcode, opcode_pc)?
        };
        self.instructions_executed = count;
        Ok(outcome)
    }

    /// Runs up to `instruction_budget` instructions (see `VmView::run`).
    pub fn run(&mut self, instruction_budget: usize) -> (r: Result<RunOutcome>)
        requires
            old(self).wf(),
        ensures
            final(self).wf(),
            same_program(old(self)@, final(self)@),
            agrees(r, old(self)@.run(instruction_budget as nat), final(self)@),
    {
        proof {
            reveal(VmView::run);
        }
        let mut i: usize = 0;
        while i < instruction_budget
            invariant
                self.wf(),
                same_program(old(self)@, self@),
                i <= instruction_budget,
                old(self)@.run(instruction_budget as nat) == self@.run((instruction_budget - i) as nat),
            decreases instruction_budget - i,
        {
            proof {
                reveal(VmView::run);
            }
            match self.step()? {
                StepOutcome::Continue => {},
                StepOutcome::SystemCall(call) => return Ok(RunOutcome::SystemCall(call)),
                StepOutcome::FloatOperation(f) => return Ok(RunOutcome::FloatOperation(f)),
                StepOutcome::Halted(code) => return Ok(RunOutcome::Halted(code)),
            }
            i += 1;
        }
        Ok(RunOutcome::BudgetExhausted)
    }
}

/// A step that does not stop at a halted machine counts one instruction.
#[verifier::rlimit(100)]
pub proof fn lemma_step_counts(s: VmView)
    ensures
        s.step() matches Ok((outcome, t)) ==> (if !s.running {
            t.instructions_executed == s.instructions_executed && outcome is Halted
        } else {
            t.instructions_executed == wadd_u64(s.instructions_executed, 1)
        }),
        s.step() matches Ok((StepOutcome::SystemCall(call), _t)) ==> call <= 86,
{
    if s.running {
        if let Ok((opcode, _s0)) = s.fetch_u8() {
            if opcode & 0x80 != 0 && opcode <= MAX_SYSTEM_OPCODE {
                assert(opcode & 0x7f <= 86) by (bit_vector)
                    requires
                        opcode <= 0xd6u8,
                        opcode & 0x80 != 0,
                ;
            }
        }
    }
}

/// What a run of instructions counts: all of its budget when it runs out,
/// at least one and at most the budget when it stops at a system call or
/// a floating-point request, at most the budget when it halts. A system
/// call number is at most 86.
pub proof fn lemma_run_counts(s: VmView, budget: nat)
    ensures
        s.run(budget) matches Ok((outcome, t)) ==> exists|k: nat|
            #![trigger wadd_n(s.instructions_executed, k)]
            k <= budget && t.instructions_executed == wadd_n(s.instructions_executed, k) && match outcome {
                RunOutcome::BudgetExhausted => k == budget,
                RunOutcome::SystemCall(call) => k >= 1 && call <= 86,
                RunOutcome::FloatOperation(_) => k >= 1,
                RunOutcome::Halted(_) => true,
            },
    decreases budget,
{
    reveal(VmView::run);
    if budget > 0 {
        lemma_step_counts(s);
        match s.step() {
            Ok((StepOutcome::Continue, s1)) => {
                lemma_run_counts(s1, (budget - 1) as nat);
                if let Ok((outcome, t)) = s1.run((budget - 1) as nat) {
                    let k = choose|k: nat|
                        #![trigger wadd_n(s1.instructions_executed, k)]
                        k <= budget - 1 && t.instructions_executed == wadd_n(s1.instructions_executed, k) && match outcome {
                            RunOutcome::BudgetExhausted => k == budget - 1,
                            RunOutcome::SystemCall(call) => k >= 1 && call <= 86,
                            RunOutcome::FloatOperation(_) => k >= 1,
                            RunOutcome::Halted(_) => true,
                        };
                    lemma_wadd_n_step(s.instructions_executed, k);
                    assert(t.instructions_executed == wadd_n(s.instructions_executed, k + 1));
                }
            },
            Ok((_o, t)) => {
                if s.running {
                    assert(t.instructions_executed == wadd_n(s.instructions_executed, 1));
                } else {
                    assert(t.instructions_executed == wadd_n(s.instructions_executed, 0));
                }
            },
            Err(_) => {},
        }
    } else {
        assert(s.instructions_executed == wadd_n(s.instructions_executed, 0));
    }
}

/// `a` plus `k`, wrapping at 64 bits.
pub open spec fn wadd_n(a: u64, k: nat) -> u64 {
    ((a + k) % 0x1_0000_0000_0000_0000) as u64
}

pub proof fn lemma_wadd_n_step(a: u64, k: nat)
    ensures
        wadd_n(wadd_u64(a, 1), k) == wadd_n(a, k + 1),
{
    assert(wadd_u64(a, 1) == ((a + 1) % 0x1_0000_0000_0000_0000) as u64);
    vstd::arithmetic::div_mod::lemma_add_mod_noop(a + 1, k as int, 0x1_0000_0000_0000_0000);
    vstd::arithmetic::div_mod::lemma_mod_twice(a + 1, 0x1_0000_0000_0000_0000);
    vstd::arithmetic::div_mod::lemma_small_mod(k as nat % 0x1_0000_0000_0000_0000, 0x1_0000_0000_0000_0000);
}

proof fn lemma_fetched_address_bound(s: VmView)
    ensures
        s.fetch_address() matches Ok((a, _s1)) ==> a <= 0x00ff_ffff,
{
    if let Ok((lo, s1)) = s.fetch_u16() {
        assert((lo as u32) <= 0xffff);
        if s.width != AddressWidth::Bits16 {
            if let Ok((hi, s2)) = s1.fetch_u8() {
                assert((lo as u32) | ((hi as u32) << 16u32) <= 0x00ff_ffff) by (bit_vector)
                    requires
                        lo <= 0xffff,
                ;
            }
        }
    }
}


/// The little-endian bytes of a value read back as that value.
pub proof fn lemma_le_u32_of_bytes(v: u32)
    ensures
        le_u32(v as u8, (v >> 8u32) as u8, (v >> 16u32) as u8, (v >> 24u32) as u8) == v,
{
    assert((v as u8) as u32 | (((v >> 8u32) as u8) as u32) << 8u32 | (((v >> 16u32) as u8) as u32) << 16u32
        | (((v >> 24u32) as u8) as u32) << 24u32 == v) by (bit_vector);
}

/// A value pushed onto the evaluation stack is the value popped next, and
/// the pop gives the stack its old height back; only the memory above the
/// top of the stack keeps the pushed bytes.
pub proof fn law_push_then_pop(s: VmView, value: i32)
    requires
        s.wf(),
    ensures
        s.push(value) matches Ok(t) ==> t.pop() == Ok::<(i32, VmView), Error>(
            (value, VmView { memory: t.memory, ..s }),
        ),
{
    if let Ok(t) = s.push(value) {
        let a = EVALUATION_STACK_ADDRESS + s.evaluation_top;
        let v = value as u32;
        lemma_le_u32_of_bytes(v);
        assert(t.memory[a] == v as u8);
        assert(t.memory[a + 1] == (v >> 8u32) as u8);
        assert(t.memory[a + 2] == (v >> 16u32) as u8);
        assert(t.memory[a + 3] == (v >> 24u32) as u8);
        assert((v as i32) == value) by (bit_vector)
            requires
                v == value as u32,
        ;
    }
}

/// Bytes written to guest memory are the bytes read back there, and
/// memory outside them is untouched.
pub proof fn law_write_then_read(s: VmView, address: u32, bytes: Seq<u8>)
    requires
        s.wf(),
        bytes.len() <= usize::MAX,
    ensures
        s.write_bytes(address, bytes) matches Ok(t) ==> {
            &&& forall|i: int| 0 <= i < bytes.len() ==> #[trigger] t.read_u8((address + i) as u32) == Ok::<u8, Error>(bytes[i])
            &&& forall|i: int| 0 <= i < s.memory.len() && !(address <= i < address + bytes.len()) ==> #[trigger] t.memory[i] == s.memory[i]
            &&& t.memory.len() == s.memory.len()
        },
{
    if let Ok(t) = s.write_bytes(address, bytes) {
        assert(address + bytes.len() <= GUEST_MEMORY_SIZE);
        assert forall|i: int| 0 <= i < bytes.len() implies #[trigger] t.read_u8((address + i) as u32) == Ok::<u8, Error>(bytes[i]) by {
            assert((address + i) as u32 == address + i);
            assert(t.memory[address + i] == bytes[i]);
        }
    }
}

/// A machine that has stopped stays stopped: every run reports its exit
/// code and changes nothing.
pub proof fn law_halted_stays_halted(s: VmView, budget: nat)
    requires
        !s.running,
        budget > 0,
    ensures
        s.step() == Ok::<(StepOutcome, VmView), Error>((StepOutcome::Halted(s.exit_code), s)),
        s.run(budget) == Ok::<(RunOutcome, VmView), Error>((RunOutcome::Halted(s.exit_code), s)),
{
    reveal(VmView::run);
}


/// Below 64 stacked values a push succeeds and adds one value.
pub proof fn law_push_below_capacity(s: VmView, value: i32)
    requires
        s.wf(),
        s.evaluation_top / 4 < 64,
    ensures
        s.push(value) matches Ok(t) && t.evaluation_top == s.evaluation_top + 4,
{
}


/// A binary integer instruction at the program counter pops the right
/// operand (the top value) and then the left one, and pushes what
/// `spec_integer_binary` gives them, or fails as it does.
proof fn lemma_binary_step(s: VmView)
    requires
        s.wf(),
        s.running,
        s.pc < s.image.len(),
        0x21 <= s.image[s.pc as int] <= 0x34,
        s.image[s.pc as int] != 0x25,
        s.image[s.pc as int] != 0x29,
        s.evaluation_top >= 8,
    ensures
        ({
            let op = s.image[s.pc as int];
            let n = s.evaluation_top / 4;
            let lhs = s.stack_value(n - 2);
            let rhs = s.stack_value(n - 1);
            match spec_integer_binary(op, lhs, rhs, s.pc) {
                Err(e) => s.step() == Err::<(StepOutcome, VmView), Error>(e),
                Ok(v) => {
                    &&& s.step() matches Ok((StepOutcome::Continue, t))
                    &&& t.pc == s.pc + 1
                    &&& t.evaluation_top == s.evaluation_top - 4
                    &&& t.pop() matches Ok((r, _))
                    &&& r == v
                },
            }
        }),
{
    let n = s.evaluation_top / 4;
    let top = s.evaluation_top as int;
    assert((n - 1) * 4 == top - 4 && (n - 2) * 4 == top - 8);
    let (opcode, s0) = s.fetch_u8()->Ok_0;
    lemma_below_high_bit(opcode);
    let u = VmView { instructions_executed: wadd_u64(s.instructions_executed, 1), ..s0 };
    let (rhs, s1) = u.pop()->Ok_0;
    let (lhs, s2) = s1.pop()->Ok_0;
    assert(rhs == s.stack_value(n - 1));
    assert(lhs == s.stack_value(n - 2));
    assert(s2.wf());
    match spec_integer_binary(opcode, lhs, rhs, s.pc) {
        Err(e) => {
            assert(u.integer_operation(opcode, s.pc) == Err::<VmView, Error>(e));
        },
        Ok(v) => {
            law_push_then_pop(s2, v);
            let t2 = s2.push(v)->Ok_0;
            assert(u.integer_operation(opcode, s.pc) == Ok::<VmView, Error>(t2));
            assert(u.execute_low(opcode, s.pc) == Ok::<(StepOutcome, VmView), Error>((StepOutcome::Continue, t2)));
            let t = VmView { instructions_executed: u.instructions_executed, ..t2 };
            assert(s.step() == Ok::<(StepOutcome, VmView), Error>((StepOutcome::Continue, t)));
            assert(t.pop() matches Ok((r, _)) && r == v);
        },
    }
}

/// `a` and `b` are the same 32-bit word: they differ by a multiple of 2^32.
pub open spec fn same_word(a: int, b: int) -> bool {
    (a - b) % 0x1_0000_0000 == 0
}

proof fn lemma_crop_same_word(x: int)
    ensures
        same_word(vstd::wrapping::i32_specs::signed_crop(x) as int, x),
{
    let m = x % 0x1_0000_0000;
    vstd::arithmetic::div_mod::lemma_fundamental_div_mod(x, 0x1_0000_0000);
    vstd::arithmetic::div_mod::lemma_mod_multiples_basic(-(x / 0x1_0000_0000), 0x1_0000_0000);
    assert(m - x == -(x / 0x1_0000_0000) * 0x1_0000_0000) by (nonlinear_arith)
        requires
            x == 0x1_0000_0000 * (x / 0x1_0000_0000) + m,
    ;
    vstd::arithmetic::div_mod::lemma_mod_multiples_vanish(-1, m - x, 0x1_0000_0000);
}

/// Subtraction (opcode 0x22) takes the two topmost values off the
/// evaluation stack and pushes the lower one minus the top one, wrapped to
/// 32 bits: `push a; push b; subtract` leaves `a - b` on top, one value
/// fewer on the stack, and moves on to the next instruction.
pub proof fn law_subtract(s: VmView)
    requires
        s.wf(),
        s.running,
        s.pc < s.image.len(),
        s.image[s.pc as int] == 0x22,
        s.evaluation_top >= 8,
    ensures
        ({
            let n = s.evaluation_top / 4;
            let lhs = s.stack_value(n - 2);
            let rhs = s.stack_value(n - 1);
            &&& s.step() matches Ok((StepOutcome::Continue, t))
            &&& t.pc == s.pc + 1
            &&& t.evaluation_top == s.evaluation_top - 4
            &&& t.pop() matches Ok((r, _))
            &&& (lhs - rhs == r as int || lhs - rhs == r + 0x1_0000_0000 || lhs - rhs == r - 0x1_0000_0000)
        }),
{
    lemma_binary_step(s);
}

/// The two operands of a binary instruction: the value below the top of
/// the evaluation stack (left) and the top value (right).
pub open spec fn operands(s: VmView) -> (i32, i32) {
    let n = s.evaluation_top / 4;
    (s.stack_value(n - 2), s.stack_value(n - 1))
}

/// A running machine about to execute opcode `op` with at least two
/// values on its evaluation stack.
pub open spec fn about_to_run(s: VmView, op: u8) -> bool {
    &&& s.wf()
    &&& s.running
    &&& s.pc < s.image.len()
    &&& s.image[s.pc as int] == op
    &&& s.evaluation_top >= 8
}

/// An instruction that succeeded and goes on: the program counter
/// `length` bytes further, `height` bytes of evaluation stack in use, and
/// `r` on top.
pub open spec fn continues_with(s: VmView, length: int, height: int, r: i32) -> bool {
    &&& s.step() matches Ok((StepOutcome::Continue, t))
    &&& t.pc == s.pc + length
    &&& t.evaluation_top == height
    &&& t.pop() matches Ok((v, _))
    &&& v == r
}

/// LavaX truth values: -1 for true, 0 for false.
pub open spec fn truth(b: bool) -> i32 {
    if b {
        -1i32
    } else {
        0i32
    }
}

/// Addition (0x21), subtraction (0x22) and multiplication (0x2a) of the
/// left and right operand give the 32-bit word of the exact result.
pub proof fn law_wrapping_arithmetic(s: VmView, op: u8)
    requires
        about_to_run(s, op),
        op == 0x21 || op == 0x22 || op == 0x2a,
    ensures
        exists|r: i32| #[trigger] continues_with(s, 1, s.evaluation_top - 4, r) && {
            let (lhs, rhs) = operands(s);
            &&& op == 0x21 ==> same_word(r as int, lhs + rhs)
            &&& op == 0x22 ==> same_word(r as int, lhs - rhs)
            &&& op == 0x2a ==> same_word(r as int, lhs * rhs)
        },
{
    let (lhs, rhs) = operands(s);
    lemma_binary_step(s);
    let r = spec_integer_binary(op, lhs, rhs, s.pc)->Ok_0;
    if op == 0x2a {
        lemma_crop_same_word(lhs * rhs);
    }
    assert(continues_with(s, 1, s.evaluation_top - 4, r));
}

/// And (0x23), or (0x24) and exclusive or (0x26) work bit by bit; logical
/// and (0x27) and or (0x28) give -1 for true and 0 for false.
pub proof fn law_bitwise_and_logic(s: VmView, op: u8)
    requires
        about_to_run(s, op),
        op == 0x23 || op == 0x24 || op == 0x26 || op == 0x27 || op == 0x28,
    ensures
        ({
            let (lhs, rhs) = operands(s);
            &&& op == 0x23 ==> continues_with(s, 1, s.evaluation_top - 4, lhs & rhs)
            &&& op == 0x24 ==> continues_with(s, 1, s.evaluation_top - 4, lhs | rhs)
            &&& op == 0x26 ==> continues_with(s, 1, s.evaluation_top - 4, lhs ^ rhs)
            &&& op == 0x27 ==> continues_with(s, 1, s.evaluation_top - 4, truth(lhs != 0 && rhs != 0))
            &&& op == 0x28 ==> continues_with(s, 1, s.evaluation_top - 4, truth(lhs != 0 || rhs != 0))
        }),
{
    lemma_binary_step(s);
}

/// The comparisons 0x2f..=0x34 (==, !=, <=, >=, >, <) of the left with the
/// right operand give -1 when they hold and 0 otherwise.
pub proof fn law_comparisons(s: VmView, op: u8)
    requires
        about_to_run(s, op),
        0x2f <= op <= 0x34,
    ensures
        ({
            let (lhs, rhs) = operands(s);
            &&& op == 0x2f ==> continues_with(s, 1, s.evaluation_top - 4, truth(lhs == rhs))
            &&& op == 0x30 ==> continues_with(s, 1, s.evaluation_top - 4, truth(lhs != rhs))
            &&& op == 0x31 ==> continues_with(s, 1, s.evaluation_top - 4, truth(lhs <= rhs))
            &&& op == 0x32 ==> continues_with(s, 1, s.evaluation_top - 4, truth(lhs >= rhs))
            &&& op == 0x33 ==> continues_with(s, 1, s.evaluation_top - 4, truth(lhs > rhs))
            &&& op == 0x34 ==> continues_with(s, 1, s.evaluation_top - 4, truth(lhs < rhs))
        }),
{
    lemma_binary_step(s);
}

/// Shifting left (0x2d) or right (0x2e, bringing in zeros) by 0 to 31 bits
/// moves the bits of the left operand; a negative shift gives 0.
pub proof fn law_shifts(s: VmView, op: u8)
    requires
        about_to_run(s, op),
        op == 0x2d || op == 0x2e,
    ensures
        ({
            let (lhs, rhs) = operands(s);
            &&& rhs < 0 ==> continues_with(s, 1, s.evaluation_top - 4, 0)
            &&& op == 0x2d && 0 <= rhs < 32 ==> continues_with(s, 1, s.evaluation_top - 4, lhs << (rhs as u32))
            &&& op == 0x2e && 0 <= rhs < 32 ==> continues_with(s, 1, s.evaluation_top - 4, ((lhs as u32) >> (rhs as u32)) as i32)
        }),
{
    let (lhs, rhs) = operands(s);
    lemma_binary_step(s);
    if 0 <= rhs < 32 {
        assert((rhs as u32) % 32 == rhs as u32);
    }
}

/// Division (0x2b) and remainder (0x2c) by zero fail; on a non-negative
/// left and a positive right operand they give the quotient and the
/// remainder of the division.
pub proof fn law_division(s: VmView, op: u8)
    requires
        about_to_run(s, op),
        op == 0x2b || op == 0x2c,
    ensures
        ({
            let (lhs, rhs) = operands(s);
            &&& rhs == 0 ==> s.step() == Err::<(StepOutcome, VmView), Error>(Error::DivisionByZero { pc: s.pc })
            &&& op == 0x2b && lhs >= 0 && rhs > 0 ==> continues_with(s, 1, s.evaluation_top - 4, (lhs / rhs) as i32)
            &&& op == 0x2c && lhs >= 0 && rhs > 0 ==> continues_with(s, 1, s.evaluation_top - 4, (lhs % rhs) as i32)
        }),
{
    let (lhs, rhs) = operands(s);
    lemma_binary_step(s);
    if lhs >= 0 && rhs > 0 {
        assert(lhs / rhs == trunc_div(lhs as int, rhs as int));
        assert(lhs % rhs == trunc_rem(lhs as int, rhs as int));
        assert(0 <= lhs / rhs <= lhs) by (nonlinear_arith)
            requires
                lhs >= 0,
                rhs > 0,
        ;
    }
}


/// Whether some zero byte lies at or after `k` decides whether the first
/// one is found.
proof fn lemma_first_zero_found(memory: Seq<u8>, k: int, z: int)
    requires
        0 <= k <= z < memory.len(),
        memory[z] == 0,
    ensures
        first_zero(memory, k) is Some,
    decreases z - k,
{
    if memory[k] != 0 {
        lemma_first_zero_found(memory, k + 1, z);
    }
}

/// The string at an address is the bytes from there up to the first zero
/// byte, which it does not include; it is found exactly when the address
/// lies in memory and a zero byte follows it somewhere.
pub proof fn law_c_string(s: VmView, address: u32)
    requires
        s.wf(),
    ensures
        s.c_string(address) is Ok <==> address < s.memory.len() && exists|z: int|
            address <= z < s.memory.len() && #[trigger] s.memory[z] == 0,
        s.c_string(address) matches Ok(data) ==> {
            &&& address + data.len() < s.memory.len()
            &&& s.memory[address + data.len()] == 0
            &&& forall|i: int| 0 <= i < data.len() ==> data[i] == s.memory[address + i] && data[i] != 0
        },
{
    if address < s.memory.len() {
        lemma_first_zero(s.memory, address as int);
        if exists|z: int| address <= z < s.memory.len() && #[trigger] s.memory[z] == 0 {
            let z = choose|z: int| address <= z < s.memory.len() && #[trigger] s.memory[z] == 0;
            lemma_first_zero_found(s.memory, address as int, z);
        }
        if let Some(z) = first_zero(s.memory, address as int) {
            assert(s.memory[z] == 0);
        }
    }
}


/// Multi-byte values are little-endian: the first byte is the lowest.
pub proof fn law_little_endian(b0: u8, b1: u8, b2: u8, b3: u8)
    by (bit_vector)
    ensures
        le_u16(b0, b1) == b0 + 256 * b1,
        le_u24(b0, b1, b2) == b0 + 256 * b1 + 0x1_0000 * b2,
        le_u32(b0, b1, b2, b3) == b0 + 256 * b1 + 0x1_0000 * b2 + 0x100_0000 * b3,
{
}

/// An opcode below 0x80 has its high bit clear.
proof fn lemma_below_high_bit(op: u8)
    by (bit_vector)
    requires
        op < 0x80,
    ensures
        op & 0x80 == 0,
{
}

/// Two little-endian bytes read as a signed 16-bit value.
proof fn lemma_signed16(b0: u8, b1: u8)
    ensures
        (le_u16(b0, b1) as i16) as int == signed16(b0, b1),
{
    assert((((b0 as u16) | ((b1 as u16) << 8u16)) as i16) as int == if b0 + 256 * b1 < 0x8000 {
        b0 + 256 * b1
    } else {
        b0 + 256 * b1 - 0x1_0000
    }) by (bit_vector);
}

/// The signed 16-bit value of two little-endian bytes.
pub open spec fn signed16(b0: u8, b1: u8) -> int {
    let v = b0 + 256 * b1;
    if v < 0x8000 {
        v
    } else {
        v - 0x1_0000
    }
}

/// An instruction with a 16-bit immediate at the program counter pops
/// its left operand (the top value) and pushes what `spec_quick` gives it
/// and the immediate, or fails as it does.
proof fn lemma_quick_step(s: VmView)
    requires
        s.wf(),
        s.running,
        s.pc + 2 < s.image.len(),
        0x45 <= s.image[s.pc as int] <= 0x51,
        s.evaluation_top >= 4,
    ensures
        ({
            let op = s.image[s.pc as int];
            let lhs = s.stack_value(s.evaluation_top / 4 - 1);
            let imm = le_u16(s.image[s.pc + 1], s.image[s.pc + 2]) as i16;
            &&& imm as int == signed16(s.image[s.pc + 1], s.image[s.pc + 2])
            &&& match spec_quick(op, lhs, imm as i32, s.pc) {
                Err(e) => s.step() == Err::<(StepOutcome, VmView), Error>(e),
                Ok(v) => {
                    &&& s.step() matches Ok((StepOutcome::Continue, t))
                    &&& t.pc == s.pc + 3
                    &&& t.evaluation_top == s.evaluation_top
                    &&& t.pop() matches Ok((r, _))
                    &&& r == v
                },
            }
        }),
{
    let n = s.evaluation_top / 4;
    let top = s.evaluation_top as int;
    assert((n - 1) * 4 == top - 4);
    let (opcode, s0) = s.fetch_u8()->Ok_0;
    lemma_below_high_bit(opcode);
    let b0 = s.image[s.pc + 1];
    let b1 = s.image[s.pc + 2];
    lemma_signed16(b0, b1);
    let u = VmView { instructions_executed: wadd_u64(s.instructions_executed, 1), ..s0 };
    let (lhs, s1) = u.pop()->Ok_0;
    assert(lhs == s.stack_value(n - 1));
    let (imm, s2) = s1.fetch_i16()->Ok_0;
    assert(s2.pc == s.pc + 3);
    assert(s2.wf());
    match spec_quick(opcode, lhs, imm as i32, s.pc) {
        Err(e) => {
            assert(u.quick_operation(opcode, s.pc) == Err::<VmView, Error>(e));
        },
        Ok(v) => {
            law_push_then_pop(s2, v);
            let t2 = s2.push(v)->Ok_0;
            assert(u.quick_operation(opcode, s.pc) == Ok::<VmView, Error>(t2));
            assert(u.execute_high(opcode, s.pc) == Ok::<(StepOutcome, VmView), Error>((StepOutcome::Continue, t2)));
            let t = VmView { instructions_executed: u.instructions_executed, ..t2 };
            assert(s.step() == Ok::<(StepOutcome, VmView), Error>((StepOutcome::Continue, t)));
            assert(t.pop() matches Ok((r, _)) && r == v);
        },
    }
}

/// The instructions 0x45..=0x51 combine the top value (left) with the
/// signed 16-bit little-endian immediate that follows the opcode (right)
/// and replace the top value by the result: addition, subtraction and
/// multiplication wrap to 32 bits; division and remainder by zero fail and
/// on non-negative operands are the usual quotient and remainder; shifts
/// by 0 to 31 move the bits; comparisons (==, !=, >, <, >=, <=) give -1
/// when they hold and 0 otherwise. Execution goes on after the immediate.
#[verifier::rlimit(30)]
pub proof fn law_quick_operations(s: VmView)
    requires
        s.wf(),
        s.running,
        s.pc + 2 < s.image.len(),
        0x45 <= s.image[s.pc as int] <= 0x51,
        s.evaluation_top >= 4,
    ensures
        ({
            let op = s.image[s.pc as int];
            let lhs = s.stack_value(s.evaluation_top / 4 - 1);
            let rhs = signed16(s.image[s.pc + 1], s.image[s.pc + 2]);
            &&& (op == 0x48 || op == 0x49) && rhs == 0 ==> s.step() == Err::<(StepOutcome, VmView), Error>(
                Error::DivisionByZero { pc: s.pc },
            )
            &&& op == 0x45 ==> exists|r: i32| #[trigger] continues_with(s, 3, s.evaluation_top as int, r) && same_word(r as int, lhs + rhs)
            &&& op == 0x46 ==> exists|r: i32| #[trigger] continues_with(s, 3, s.evaluation_top as int, r) && same_word(r as int, lhs - rhs)
            &&& op == 0x47 ==> exists|r: i32| #[trigger] continues_with(s, 3, s.evaluation_top as int, r) && same_word(r as int, lhs * rhs)
            &&& op == 0x48 && lhs >= 0 && rhs > 0 ==> continues_with(s, 3, s.evaluation_top as int, (lhs as int / rhs) as i32)
            &&& op == 0x49 && lhs >= 0 && rhs > 0 ==> continues_with(s, 3, s.evaluation_top as int, (lhs as int % rhs) as i32)
            &&& op == 0x4a && 0 <= rhs < 32 ==> continues_with(s, 3, s.evaluation_top as int, lhs << (rhs as u32))
            &&& op == 0x4b && 0 <= rhs < 32 ==> continues_with(s, 3, s.evaluation_top as int, ((lhs as u32) >> (rhs as u32)) as i32)
            &&& op == 0x4c ==> continues_with(s, 3, s.evaluation_top as int, truth(lhs == rhs))
            &&& op == 0x4d ==> continues_with(s, 3, s.evaluation_top as int, truth(lhs != rhs))
            &&& op == 0x4e ==> continues_with(s, 3, s.evaluation_top as int, truth(lhs > rhs))
            &&& op == 0x4f ==> continues_with(s, 3, s.evaluation_top as int, truth(lhs < rhs))
            &&& op == 0x50 ==> continues_with(s, 3, s.evaluation_top as int, truth(lhs >= rhs))
            &&& op == 0x51 ==> continues_with(s, 3, s.evaluation_top as int, truth(lhs <= rhs))
        }),
{
    let op = s.image[s.pc as int];
    let lhs = s.stack_value(s.evaluation_top / 4 - 1);
    let imm = le_u16(s.image[s.pc + 1], s.image[s.pc + 2]) as i16;
    let rhs = imm as i32;
    lemma_quick_step(s);
    if op == 0x45 || op == 0x46 || op == 0x47 {
        let r = spec_quick(op, lhs, rhs, s.pc)->Ok_0;
        if op == 0x47 {
            lemma_crop_same_word(lhs * rhs);
        }
        assert(continues_with(s, 3, s.evaluation_top as int, r));
    } else if op == 0x4a || op == 0x4b {
        if 0 <= rhs < 32 {
            assert((rhs as u32) % 32 == rhs as u32);
        }
    } else if op == 0x48 || op == 0x49 {
        if lhs >= 0 && rhs > 0 {
            assert(lhs / rhs == trunc_div(lhs as int, rhs as int));
            assert(lhs % rhs == trunc_rem(lhs as int, rhs as int));
            assert(0 <= lhs / rhs <= lhs) by (nonlinear_arith)
                requires
                    lhs >= 0,
                    rhs > 0,
            ;
        }
    }
}


/// The one-step path of an instruction below 0x40 that is no system call:
/// what `execute_low` does from the state after the opcode, with the
/// instruction counter kept as `step` leaves it.
proof fn lemma_low_step(s: VmView)
    requires
        s.running,
        s.pc < s.image.len(),
        0 < s.image[s.pc as int] < 0x40,
    ensures
        ({
            let op = s.image[s.pc as int];
            let u = VmView { pc: (s.pc + 1) as usize, instructions_executed: wadd_u64(s.instructions_executed, 1), ..s };
            s.step() == match u.execute_low(op, s.pc) {
                Err(e) => Err::<(StepOutcome, VmView), Error>(e),
                Ok((outcome, t)) => Ok((outcome, VmView { instructions_executed: u.instructions_executed, ..t })),
            }
        }),
{
    let op = s.image[s.pc as int];
    lemma_below_high_bit(op);
}

/// Pushing an immediate byte (0x01) pushes its value 0..=255; pushing an
/// immediate word (0x02) pushes its signed 16-bit little-endian value;
/// both go on after the immediate with one more value on the stack.
/// Negation (0x1c) replaces the top value by its negation wrapped to 32
/// bits. Storing the result (0x38) pops the top value into the result
/// register. Exit (0x40) stops the machine with exit code 0.
#[verifier::rlimit(30)]
pub proof fn law_simple_instructions(s: VmView)
    requires
        s.wf(),
        s.running,
        s.pc < s.image.len(),
    ensures
        ({
            let op = s.image[s.pc as int];
            let top = s.evaluation_top as int;
            let n = s.evaluation_top / 4;
            &&& op == 0x01 && s.pc + 1 < s.image.len() && top + 4 <= EVALUATION_STACK_SIZE ==> continues_with(
                s,
                2,
                top + 4,
                s.image[s.pc + 1] as i32,
            )
            &&& op == 0x02 && s.pc + 2 < s.image.len() && top + 4 <= EVALUATION_STACK_SIZE ==> continues_with(
                s,
                3,
                top + 4,
                signed16(s.image[s.pc + 1], s.image[s.pc + 2]) as i32,
            )
            &&& op == 0x1c && top >= 4 ==> exists|r: i32| #[trigger] continues_with(s, 1, top, r) && same_word(
                r as int,
                -s.stack_value(n - 1),
            )
            &&& op == 0x38 && top >= 4 ==> (s.step() matches Ok((StepOutcome::Continue, t)) && t.result
                == s.stack_value(n - 1) && t.evaluation_top == top - 4 && t.pc == s.pc + 1)
            &&& op == 0x40 ==> (s.step() matches Ok((StepOutcome::Halted(code), t)) && code == 0 && !t.running
                && t.exit_code == 0)
        }),
{
    let op = s.image[s.pc as int];
    let top = s.evaluation_top as int;
    let n = s.evaluation_top / 4;
    let u = VmView { pc: (s.pc + 1) as usize, instructions_executed: wadd_u64(s.instructions_executed, 1), ..s };
    assert(u.wf());
    if op == 0x40 {
        lemma_below_high_bit(op);
    } else if op == 0x01 || op == 0x02 || op == 0x1c || op == 0x38 {
        lemma_low_step(s);
        if op == 0x01 && s.pc + 1 < s.image.len() && top + 4 <= EVALUATION_STACK_SIZE {
            let (v, s1) = u.fetch_u8()->Ok_0;
            law_push_then_pop(s1, v as i32);
        } else if op == 0x02 && s.pc + 2 < s.image.len() && top + 4 <= EVALUATION_STACK_SIZE {
            let b0 = s.image[s.pc + 1];
            let b1 = s.image[s.pc + 2];
            lemma_signed16(b0, b1);
            let (v, s1) = u.fetch_i16()->Ok_0;
            law_push_then_pop(s1, v as i32);
        } else if op == 0x1c && top >= 4 {
            assert((n - 1) * 4 == top - 4);
            let (v, s1) = u.pop()->Ok_0;
            assert(v == s.stack_value(n - 1));
            let r = wsub_i32(0, v);
            law_push_then_pop(s1, r);
            assert(continues_with(s, 1, top, r));
        } else if op == 0x38 && top >= 4 {
            assert((n - 1) * 4 == top - 4);
        }
    }
}


proof fn lemma_first_zero_at(memory: Seq<u8>, k: int, z: int)
    requires
        0 <= k <= z < memory.len(),
        memory[z] == 0,
        forall|i: int| k <= i < z ==> memory[i] != 0,
    ensures
        first_zero(memory, k) == Some(z),
    decreases z - k,
{
    if k < z {
        lemma_first_zero_at(memory, k + 1, z);
    }
}

/// What a read gives back of a write: a string without zero bytes written
/// with its terminator is the string then read at that address.
pub proof fn law_string_write_then_read(s: VmView, address: u32, text: Seq<u8>)
    requires
        s.wf(),
        forall|i: int| 0 <= i < text.len() ==> text[i] != 0,
        text.len() < usize::MAX,
    ensures
        s.write_bytes(address, text.push(0)) matches Ok(t) ==> t.c_string(address) == Ok::<Seq<u8>, Error>(text),
{
    if let Ok(t) = s.write_bytes(address, text.push(0)) {
        let a = address as int;
        let z = a + text.len();
        assert(t.memory.len() == s.memory.len());
        assert forall|i: int| a <= i < z implies t.memory[i] != 0 by {
            assert(t.memory[i] == text[i - a]);
        }
        assert(t.memory[z] == 0);
        lemma_first_zero_at(t.memory, a, z);
        assert(t.memory.subrange(a, z) =~= text);
    }
}


/// Jumps take a 24-bit little-endian target after the opcode: 0x3b always
/// jumps there, 0x39 when the result register is 0 and 0x3a when it is
/// not; a jump that is not taken goes on after the target bytes, and a
/// target outside the program is an error. Nothing but the program
/// counter changes.
pub proof fn law_jumps(s: VmView)
    requires
        s.wf(),
        s.running,
        s.pc + 3 < s.image.len(),
        0x39 <= s.image[s.pc as int] <= 0x3b,
    ensures
        ({
            let op = s.image[s.pc as int];
            let target = s.image[s.pc + 1] + 256 * s.image[s.pc + 2] + 0x1_0000 * s.image[s.pc + 3];
            let taken = op == 0x3b || (op == 0x39 && s.result == 0) || (op == 0x3a && s.result != 0);
            &&& taken && target >= s.image.len() ==> s.step() == Err::<(StepOutcome, VmView), Error>(
                Error::InvalidJump { target: target as usize },
            )
            &&& taken && target < s.image.len() ==> (s.step() matches Ok((StepOutcome::Continue, t)) && t
                == VmView { pc: target as usize, instructions_executed: t.instructions_executed, ..s })
            &&& !taken ==> (s.step() matches Ok((StepOutcome::Continue, t)) && t == VmView {
                pc: (s.pc + 4) as usize,
                instructions_executed: t.instructions_executed,
                ..s
            })
        }),
{
    let op = s.image[s.pc as int];
    let b0 = s.image[s.pc + 1];
    let b1 = s.image[s.pc + 2];
    let b2 = s.image[s.pc + 3];
    lemma_low_step(s);
    law_little_endian(b0, b1, b2, 0);
    assert(((le_u16(b0, b1) as u32) | ((b2 as u32) << 16u32)) == le_u24(b0, b1, b2)) by (bit_vector);
}


/// What a load gives back of a store: a value stored with access size 1
/// reads back as its low byte (0..=255), with size 2 as its low 16 bits
/// taken as a signed number, with size 4 whole; so a value that fits the
/// size reads back unchanged.
pub proof fn law_store_then_load(s: VmView, address: u32, size: u8, value: i32)
    requires
        s.wf(),
    ensures
        s.write_sized(address, size, value) matches Ok(t) ==> (t.read_sized(address, size) matches Ok(r) && {
            &&& size == 1 ==> r == value & 0xff
            &&& size == 1 && 0 <= value < 256 ==> r == value
            &&& size == 2 ==> -0x8000 <= r < 0x8000 && (r - value) % 0x1_0000 == 0
            &&& size == 2 && -0x8000 <= value < 0x8000 ==> r == value
            &&& size != 1 && size != 2 ==> r == value
        }),
{
    let a = address as int;
    if size == 1 {
        let bytes = seq![value as u8];
        if let Ok(t) = s.write_bytes(address, bytes) {
            assert(t.memory[a] == bytes[0]);
            assert((value as u8) as i32 == value & 0xff && (0 <= value < 256 ==> value & 0xff == value))
                by (bit_vector);
        }
    } else if size == 2 {
        let bytes = bytes_u16(value as u16);
        if let Ok(t) = s.write_bytes(address, bytes) {
            assert(t.memory[a] == bytes[0]);
            assert(t.memory[a + 1] == bytes[1]);
            lemma_halfword(value);
        }
    } else {
        let bytes = bytes_u32(value as u32);
        if let Ok(t) = s.write_bytes(address, bytes) {
            assert(t.memory[a] == bytes[0]);
            assert(t.memory[a + 1] == bytes[1]);
            assert(t.memory[a + 2] == bytes[2]);
            assert(t.memory[a + 3] == bytes[3]);
            let v = value as u32;
            lemma_le_u32_of_bytes(v);
            assert((v as i32) == value) by (bit_vector)
                requires
                    v == value as u32,
            ;
        }
    }
}

/// The low 16 bits of a value, stored little-endian and read back as a
/// signed number: within -2^15..2^15, equal to the value modulo 2^16, and
/// the value itself when it fits.
proof fn lemma_halfword(value: i32)
    by (bit_vector)
    ensures
        (le_u16((value as u16) as u8, ((value as u16) >> 8u16) as u8) as i16) as i32 == ((value as u16) as i16) as i32,
        -0x8000 <= (((value as u16) as i16) as i32) < 0x8000,
        (((value as u16) as i16) as int - value as int) % 0x1_0000 == 0,
        -0x8000 <= value < 0x8000 ==> ((value as u16) as i16) as i32 == value,
{
}

} // verus!
