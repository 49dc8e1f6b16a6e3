mod arith;
mod bytes;
mod cli;
mod console;
mod display;
mod emulator;
mod encoding;
mod error;
mod input;
mod path;
mod program;
mod state;
mod text;
mod vfs;
mod vm;

pub use error::{Error, Result};
pub use program::{AddressWidth, GraphicsMode, LAV_HEADER_SIZE, LAV_MAGIC, Program, ProgramHeader};
pub use input::{InputState, InputView, PointerState, pointer_from_analog};
pub use vfs::{FileInfo, FileView, HandleView, VfsView, VirtualFileSystem};
pub use vm::{EVALUATION_STACK_ADDRESS, FloatRequest, GUEST_MEMORY_SIZE, RunOutcome, StepOutcome, Vm, VmView};
pub use display::{
    BufferTarget, Display, DisplayView, DrawOperation, FONT_ASCII6, FONT_ASCII8, FONT_GB12, FONT_GB16, FONT_GB_COUNT,
    FONT_SIZE, Transform,
};
pub use console::ConsoleView;
pub use emulator::{
    DEFAULT_FRAME_BUDGET, Emulator, EmulatorView, FormatTarget, FormatView, FrameResult, FrameStatus, HostAction,
    HostReply, HostRequest, PendingFormat, Suspended, VM_SLICE_INSTRUCTIONS,
};
pub use cli::{Cli, parse_scale};
pub use state::{MAX_STATE_SIZE, STATE_HEADER_SIZE, STATE_MAGIC, STATE_VERSION, frame_state, state_payload};
