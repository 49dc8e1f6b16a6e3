use vstd::prelude::*;

verus! {

/// Everything that can go wrong while loading or running a LavaX program.
#[derive(Debug, Clone, PartialEq, Eq)]
pub enum Error {
    /// The image is shorter than the fixed header.
    FileTooShort { expected: usize, actual: usize },
    /// The first four bytes are not the LAV signature.
    InvalidMagic([u8; 4]),
    /// An instruction or operand would be fetched past the end of the image.
    UnexpectedEnd { pc: usize },
    /// A guest memory access falls outside the guest address space.
    MemoryOutOfBounds { address: u32, end: u32 },
    /// A value was popped from an empty evaluation stack.
    StackUnderflow,
    /// A value was pushed onto a full evaluation stack.
    StackOverflow,
    /// A byte that names no instruction.
    InvalidOpcode { opcode: u8, pc: usize },
    /// Integer or floating division with a zero divisor.
    DivisionByZero { pc: usize },
    /// A jump to an offset outside the program image.
    InvalidJump { target: usize },
    /// A feature of the platform that is not emulated.
    UnsupportedFeature(&'static str),
    /// A save state that cannot be restored.
    InvalidSaveState(String),
}

/// The result type of every fallible operation of the library.
pub type Result<T> = core::result::Result<T, Error>;

} // verus!
