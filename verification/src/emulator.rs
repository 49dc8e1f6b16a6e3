use vstd::prelude::*;

mod frame;
mod system;

use crate::console::{ConsoleView, TextConsole, console_layout};
use crate::display::{Display, DisplayView, default_palette, filled, restarted, spec_max_color};
use crate::error::{Error, Result};
use crate::input::{InputState, InputView, PointerState};
use crate::program::{GraphicsMode, Program};
use crate::vfs::{VfsView, VirtualFileSystem};
use crate::vm::{FloatRequest, RunOutcome, Vm, VmView, spec_address_mask};

verus! {

/// Instructions that one call of the VM runs before the host looks again.
pub const VM_SLICE_INSTRUCTIONS: usize = 1001;

/// Instruction budget of `run_frame`.
pub const DEFAULT_FRAME_BUDGET: usize = 100000;

/// Something only the host can compute, which the emulator waits for in the
/// middle of a frame (see `Emulator::resume_frame`).
#[derive(Debug, Clone, Copy, PartialEq, Eq)]
pub enum HostRequest {
    /// A floating-point instruction; the reply is its 32-bit result.
    Float(FloatRequest),
    /// Single-precision function `function` of system call 84 (7 sin,
    /// 8 cos, 9 tan, 10 asin, 11 acos, 12 atan, 13 sqrt, 14 exp, 15 ln,
    /// 19 abs) of the bit pattern `argument`; the reply is the result's bits.
    Math { function: i32, argument: i32 },
    /// The text of the single-precision value with bit pattern `value` as
    /// `printf`'s `%f` shows it (Rust's shortest form, or "error" when it
    /// is not finite); the reply is that text.
    FloatText(i32),
}

/// The host's answer to a `HostRequest`.
#[derive(Debug, Clone, PartialEq, Eq)]
pub enum HostReply {
    Value(i32),
    Text(Vec<u8>),
}

/// How a frame ended.
#[derive(Debug, Clone, Copy, PartialEq, Eq)]
pub enum FrameStatus {
    /// The instruction budget ran out.
    Running,
    /// The guest asked for the screen to be shown.
    Presented,
    /// The guest waits for a key.
    WaitingForInput,
    /// The guest sleeps.
    Delayed,
    /// The program has ended with an exit code.
    Halted(i32),
    /// The frame waits for the host (see `Emulator::resume_frame`).
    Host(HostRequest),
}

/// What a frame did.
#[derive(Debug, Clone, Copy, PartialEq, Eq)]
pub struct FrameResult {
    pub status: FrameStatus,
    pub instructions: usize,
    pub system_calls: usize,
}

/// What the frame loop does after a system call.
#[derive(Debug, Clone, Copy, PartialEq, Eq)]
pub enum HostAction {
    Continue,
    Present,
    WaitForInput,
    Delay,
    Halt(i32),
    Request(HostRequest),
}

/// Where formatted text goes once every `%f` has its text.
#[derive(Debug, Clone, Copy, PartialEq, Eq)]
pub enum FormatTarget {
    /// `printf`: the console.
    Console,
    /// `sprintf`: guest memory at this address.
    Memory(u32),
}

/// A `printf` or `sprintf` waiting for the texts of its `%f` values.
#[derive(Debug, Clone)]
pub struct PendingFormat {
    pub target: FormatTarget,
    pub arguments: Vec<i32>,
    pub texts: Vec<Vec<u8>>,
}

/// The abstract state of a pending format.
pub struct FormatView {
    pub target: FormatTarget,
    pub arguments: Seq<i32>,
    pub texts: Seq<Seq<u8>>,
}

/// A frame interrupted by a host request: the instructions it has run,
/// its budget, the system calls made so far, and the request.
#[derive(Debug, Clone, Copy, PartialEq, Eq)]
pub struct Suspended {
    pub executed: usize,
    pub budget: usize,
    pub system_calls: usize,
    pub request: HostRequest,
}

pub open spec fn texts_view(v: Seq<Vec<u8>>) -> Seq<Seq<u8>> {
    v.map_values(|t: Vec<u8>| t@)
}

pub open spec fn format_view(f: PendingFormat) -> FormatView {
    FormatView { target: f.target, arguments: f.arguments@, texts: texts_view(f.texts@) }
}


/// The abstract state of the whole machine: the VM, the screen, the keys,
/// the files, the console, the clocks, the random seed, the calendar, the
/// command line, a frame waiting for the host, and whether the clock that
/// the timer calls read has started.
pub struct EmulatorView {
    pub vm: VmView,
    pub display: DisplayView,
    pub input: InputView,
    pub files: VfsView,
    pub console: ConsoleView,
    pub elapsed_ms: u64,
    pub time_remainder: u32,
    pub frame_index: u64,
    pub delay_remaining_ticks: u32,
    pub delay_tick_carry: u32,
    pub waiting_for_key: bool,
    pub random_seed: i32,
    pub calendar: Seq<u8>,
    pub command_line: Seq<u8>,
    pub suspended: Option<Suspended>,
    pub pending_format: Option<FormatView>,
    pub clock_started: bool,
}

/// A step of the machine: a value and the next state, or an error.
pub type Step<T> = core::result::Result<(T, EmulatorView), Error>;

/// `r` is what `n` yields, and on success `after` is its next state.
pub open spec fn agrees_step<T>(r: Result<T>, n: Step<T>, after: EmulatorView) -> bool {
    match n {
        Ok((v, s)) => r == Ok::<T, Error>(v) && after == s,
        Err(e) => r == Err::<T, Error>(e),
    }
}

/// A state change that continues the frame.
pub open spec fn continued(r: core::result::Result<EmulatorView, Error>) -> Step<HostAction> {
    match r {
        Ok(s) => Ok((HostAction::Continue, s)),
        Err(e) => Err(e),
    }
}

impl EmulatorView {
    pub open spec fn wf(self) -> bool {
        &&& self.display.wf()
        &&& self.display.height >= 14
        &&& self.display.width >= 1
        &&& self.console.wf()
        &&& self.calendar.len() == 8
        &&& self.time_remainder < 60
        &&& self.delay_tick_carry < 60
        &&& (self.pending_format matches Some(f) ==> f.arguments.len() > 0)
        &&& (self.suspended matches Some(p) ==> p.system_calls <= p.executed <= p.budget)
    }

    pub open spec fn with_vm(self, vm: VmView) -> EmulatorView {
        EmulatorView { vm, ..self }
    }

    /// Pops the top of the evaluation stack.
    pub open spec fn pop(self) -> Step<i32> {
        match self.vm.pop() {
            Ok((v, vm)) => Ok((v, self.with_vm(vm))),
            Err(e) => Err(e),
        }
    }

    /// Pushes a value onto the evaluation stack.
    pub open spec fn push(self, value: i32) -> core::result::Result<EmulatorView, Error> {
        match self.vm.push(value) {
            Ok(vm) => Ok(self.with_vm(vm)),
            Err(e) => Err(e),
        }
    }

    /// A guest value as an address: masked to the program's address width.
    pub open spec fn guest_address(self, value: i32) -> u32 {
        (value as u32) & spec_address_mask(self.vm.width)
    }

    /// Pops a value and masks it as an address (also used for lengths).
    pub open spec fn pop_address(self) -> Step<u32> {
        match self.pop() {
            Ok((v, s)) => Ok((s.guest_address(v), s)),
            Err(e) => Err(e),
        }
    }

    /// Pops `count` values; they come back in the order they were pushed.
    pub open spec fn pop_values(self, count: nat) -> Step<Seq<i32>>
        decreases count,
    {
        if count == 0 {
            Ok((seq![], self))
        } else {
            match self.pop() {
                Err(e) => Err(e),
                Ok((v, s)) => match s.pop_values((count - 1) as nat) {
                    Err(e) => Err(e),
                    Ok((rest, t)) => Ok((rest.push(v), t)),
                },
            }
        }
    }

    /// Writes bytes to guest memory.
    pub open spec fn write_memory(self, address: u32, data: Seq<u8>) -> core::result::Result<EmulatorView, Error> {
        match self.vm.write_bytes(address, data) {
            Ok(vm) => Ok(self.with_vm(vm)),
            Err(e) => Err(e),
        }
    }

    /// The bytes of the NUL-terminated string at `address`.
    pub open spec fn c_string(self, address: u32) -> core::result::Result<Seq<u8>, Error> {
        self.vm.c_string(address)
    }
}

/// The emulated LavaX machine.
#[derive(Debug, Clone)]
pub struct Emulator {
    pub(crate) vm: Vm,
    pub(crate) display: Display,
    pub(crate) input: InputState,
    pub(crate) files: VirtualFileSystem,
    pub(crate) console: TextConsole,
    pub(crate) elapsed_ms: u64,
    pub(crate) time_remainder: u32,
    pub(crate) frame_index: u64,
    pub(crate) delay_remaining_ticks: u32,
    pub(crate) delay_tick_carry: u32,
    pub(crate) waiting_for_key: bool,
    pub(crate) random_seed: i32,
    pub(crate) calendar: [u8; 8],
    pub(crate) command_line: Vec<u8>,
    pub(crate) suspended: Option<Suspended>,
    pub(crate) pending_format: Option<PendingFormat>,
    pub(crate) clock_start: Option<std::time::Instant>,
}

impl View for Emulator {
    type V = EmulatorView;

    closed spec fn view(&self) -> EmulatorView {
        EmulatorView {
            vm: self.vm@,
            display: self.display@,
            input: self.input@,
            files: self.files@,
            console: self.console@,
            elapsed_ms: self.elapsed_ms,
            time_remainder: self.time_remainder,
            frame_index: self.frame_index,
            delay_remaining_ticks: self.delay_remaining_ticks,
            delay_tick_carry: self.delay_tick_carry,
            waiting_for_key: self.waiting_for_key,
            random_seed: self.random_seed,
            calendar: self.calendar@,
            command_line: self.command_line@,
            suspended: self.suspended,
            pending_format: match self.pending_format {
                Some(f) => Some(format_view(f)),
                None => None,
            },
            clock_started: self.clock_start is Some,
        }
    }
}

/// The calendar a new machine starts with: 2000-01-01 00:00:00, a Saturday.
pub open spec fn initial_calendar() -> Seq<u8> {
    seq![0xd0u8, 0x07u8, 1u8, 1u8, 0u8, 0u8, 0u8, 6u8]
}

impl Emulator {
    /// The invariant with its parts visible inside the crate.
    pub(crate) open spec fn inv(&self) -> bool {
        &&& self@.wf()
        &&& self.vm.wf()
        &&& self.display.wf()
        &&& self.input.wf()
        &&& self.files.wf()
        &&& self.console.wf()
    }

    /// Internal invariant (see `EmulatorView::wf`).
    pub closed spec fn wf(&self) -> bool {
        self.inv()
    }

    pub proof fn lemma_wf(&self)
        requires
            self.wf(),
        ensures
            self@.wf(),
    {
    }

    /// A machine ready to run `program`, drawing text with `font` (see
    /// `Display::new`): zeroed memory, a blank screen of the program's size
    /// and mode, no keys, an empty file system, the console in the large
    /// font, clocks at zero, random seed 1 and the initial calendar.
    pub fn new(program: Program, font: Vec<u8>) -> (emulator: Emulator)
        requires
            program.wf(),
            font@.len() == crate::display::FONT_SIZE,
        ensures
            emulator.wf(),
            emulator@.vm == VmView::fresh(program.spec_image(), program.spec_header().address_width),
            emulator@.display.width == program.spec_header().width,
            emulator@.display.height == program.spec_header().height,
            emulator@.display.mode == program.spec_header().graphics_mode,
            emulator@.display.front == filled(program.spec_header().width * program.spec_header().height, 0),
            emulator@.display.back == filled(program.spec_header().width * program.spec_header().height, 0),
            emulator@.display.palette == default_palette(program.spec_header().graphics_mode),
            emulator@.display.font == font@,
            emulator@.input.pressed.is_empty(),
            emulator@.input.queued.len() == 0,
            emulator@.files == VfsView::empty(),
            emulator@.console == console_layout(program.spec_header().width as int, program.spec_header().height as int, false),
            emulator@.elapsed_ms == 0,
            emulator@.frame_index == 0,
            emulator@.delay_remaining_ticks == 0,
            !emulator@.waiting_for_key,
            emulator@.random_seed == 1,
            emulator@.calendar == initial_calendar(),
            emulator@.command_line.len() == 0,
            emulator@.suspended is None,
            emulator@.pending_format is None,
            !emulator@.clock_started,
    {
        proof {
            program.lemma_wf();
        }
        let width = program.header().width;
        let height = program.header().height;
        let mode = program.header().graphics_mode;
        let calendar: [u8; 8] = [0xd0u8, 0x07u8, 1u8, 1u8, 0u8, 0u8, 0u8, 6u8];
        let emulator = Emulator {
            vm: Vm::new(program),
            display: Display::new(width, height, mode, font),
            input: InputState::default(),
            files: VirtualFileSystem::default(),
            console: TextConsole::new(width, height),
            elapsed_ms: 0,
            time_remainder: 0,
            frame_index: 0,
            delay_remaining_ticks: 0,
            delay_tick_carry: 0,
            waiting_for_key: false,
            random_seed: 1,
            calendar,
            command_line: Vec::new(),
            suspended: None,
            pending_format: None,
            clock_start: None,
        };
        assert(emulator.calendar@ =~= initial_calendar());
        proof {
            emulator.files.lemma_wf();
            emulator.display.lemma_wf();
            emulator.console.lemma_wf();
        }
        emulator
    }
}

/// The clocks after one 60 Hz frame: 1000/60 ms, with the remainder carried.
pub open spec fn clock_advanced(s: EmulatorView) -> EmulatorView {
    let t = s.time_remainder + 1000;
    EmulatorView {
        elapsed_ms: crate::arith::wadd_u64(s.elapsed_ms, (t / 60) as u64),
        time_remainder: (t % 60) as u32,
        ..s
    }
}

/// Whole delay ticks (1/256 s) of one 60 Hz frame with carry `carry`.
pub open spec fn delay_ticks(carry: int) -> int {
    (carry + 256) / 60
}

/// The delay counters after one frame: 256/60 ticks elapse, the rest is
/// carried; the counter stops at zero.
pub open spec fn delay_advanced(s: EmulatorView) -> EmulatorView {
    let ticks = delay_ticks(s.delay_tick_carry as int);
    EmulatorView {
        delay_tick_carry: ((s.delay_tick_carry + 256) % 60) as u32,
        delay_remaining_ticks: if s.delay_remaining_ticks >= ticks {
            (s.delay_remaining_ticks - ticks) as u32
        } else {
            0
        },
        ..s
    }
}

/// What a key request receives: the oldest queued key, else a pressed
/// pointer at non-negative coordinates encoded as 0xffYYXX00.
pub open spec fn pending_input(s: EmulatorView) -> (Option<i32>, EmulatorView) {
    if s.input.queued.len() > 0 {
        (
            Some(s.input.queued[0] as i32),
            EmulatorView { input: InputView { queued: s.input.queued.drop_first(), ..s.input }, ..s },
        )
    } else {
        match s.input.pointer {
            Some(p) => if p.pressed && p.x >= 0 && p.y >= 0 {
                (Some(pointer_code(p)), s)
            } else {
                (None, s)
            },
            None => (None, s),
        }
    }
}

/// A pointer press as a key code: x in bits 8 to 15, y in bits 16 to 23,
/// all of the top byte set.
pub open spec fn pointer_code(p: PointerState) -> i32 {
    ((((p.x as i32) & 0xff) << 8i32) | (((p.y as i32) & 0xff) << 16i32) | (0xff00_0000u32 as i32)) as i32
}

impl Emulator {
    /// Restarts the program: the VM, screen and console start over, keys are
    /// released, the frame clock and delays reset and the random seed is 1;
    /// files, the calendar, the command line and the timer calls' clock are
    /// kept.
    pub fn reset(&mut self)
        requires
            old(self).wf(),
        ensures
            final(self).wf(),
            final(self)@.vm == VmView::fresh(old(self)@.vm.image, old(self)@.vm.width),
            final(self)@.display == restarted(old(self)@.display, old(self)@.display.mode),
            final(self)@.console == console_layout(old(self)@.display.width as int, old(self)@.display.height as int, false),
            final(self)@.input.pressed.is_empty(),
            final(self)@.input.queued.len() == 0,
            final(self)@.input.pointer == old(self)@.input.pointer,
            final(self)@.files == old(self)@.files,
            final(self)@.elapsed_ms == 0,
            final(self)@.time_remainder == 0,
            final(self)@.frame_index == 0,
            final(self)@.delay_remaining_ticks == 0,
            final(self)@.delay_tick_carry == 0,
            !final(self)@.waiting_for_key,
            final(self)@.random_seed == 1,
            final(self)@.calendar == old(self)@.calendar,
            final(self)@.command_line == old(self)@.command_line,
            final(self)@.suspended is None,
            final(self)@.pending_format is None,
            final(self)@.clock_started == old(self)@.clock_started,
    {
        self.vm.reset();
        self.display.reset();
        let width = self.display.width();
        let height = self.display.height();
        self.console.set_mode(width, height, false);
        self.input.release_all();
        self.elapsed_ms = 0;
        self.time_remainder = 0;
        self.frame_index = 0;
        self.delay_remaining_ticks = 0;
        self.delay_tick_carry = 0;
        self.waiting_for_key = false;
        self.random_seed = 1;
        self.suspended = None;
        self.pending_format = None;
        proof {
            self.display.lemma_wf();
        }
    }

    pub fn vm(&self) -> (vm: &Vm)
        ensures
            vm@ == self@.vm,
            self.wf() ==> vm.wf(),
    {
        &self.vm
    }

    /// The VM, for the host to change (a well-formed VM keeps the machine
    /// well-formed).
    pub fn vm_mut(&mut self) -> (vm: &mut Vm)
        requires
            old(self).wf(),
        ensures
            vm@ == old(self)@.vm,
            vm.wf(),
            final(vm).wf() ==> final(self).wf(),
            final(self)@ == (EmulatorView { vm: final(vm)@, ..old(self)@ }),
    {
        &mut self.vm
    }

    pub fn display(&self) -> (display: &Display)
        ensures
            display@ == self@.display,
            self.wf() ==> display.wf(),
    {
        &self.display
    }

    /// The keyboard and pointer, for the host to change.
    pub fn input_mut(&mut self) -> (input: &mut InputState)
        requires
            old(self).wf(),
        ensures
            input@ == old(self)@.input,
            input.wf(),
            final(input).wf() ==> final(self).wf(),
            final(self)@ == (EmulatorView { input: final(input)@, ..old(self)@ }),
    {
        &mut self.input
    }

    pub fn files(&self) -> (files: &VirtualFileSystem)
        ensures
            files@ == self@.files,
            self.wf() ==> files.wf(),
    {
        &self.files
    }

    /// The file system, for the host to change.
    pub fn files_mut(&mut self) -> (files: &mut VirtualFileSystem)
        requires
            old(self).wf(),
        ensures
            files@ == old(self)@.files,
            files.wf(),
            final(files).wf() ==> final(self).wf(),
            final(self)@ == (EmulatorView { files: final(files)@, ..old(self)@ }),
    {
        &mut self.files
    }

    /// Milliseconds of emulated time (1000/60 per frame).
    pub fn elapsed_ms(&self) -> (ms: u64)
        ensures
            ms == self@.elapsed_ms,
    {
        self.elapsed_ms
    }

    /// The text that system call 86 hands the guest.
    pub fn set_command_line(&mut self, command_line: Vec<u8>)
        requires
            old(self).wf(),
        ensures
            final(self).wf(),
            final(self)@ == (EmulatorView { command_line: command_line@, ..old(self)@ }),
    {
        self.command_line = command_line;
    }

    fn advance_frame_clock(&mut self)
        requires
            old(self).inv(),
        ensures
            final(self).inv(),
            final(self)@ == clock_advanced(old(self)@),
    {
        self.time_remainder = self.time_remainder + 1000;
        self.elapsed_ms = self.elapsed_ms.wrapping_add((self.time_remainder / 60) as u64);
        self.time_remainder = self.time_remainder % 60;
    }

    /// Advances the delay counter with LVM timing: a delay counts
    /// 1/256-second ticks and the host refreshes at 60 Hz, so a frame
    /// takes 256/60 ticks.
    fn advance_delay_ticks(&mut self)
        requires
            old(self).inv(),
        ensures
            final(self).inv(),
            final(self)@.elapsed_ms == old(self)@.elapsed_ms,
            final(self)@.time_remainder == old(self)@.time_remainder,
            final(self)@ == delay_advanced(old(self)@),
    {
        let mut carry: u32 = self.delay_tick_carry + 256;
        let mut remaining: u32 = self.delay_remaining_ticks;
        let ghost carry0: int = carry as int;
        let ghost remaining0: int = remaining as int;
        let ghost mut n: int = 0;
        while carry >= 60
            invariant
                0 <= n,
                carry == carry0 - 60 * n,
                remaining == if remaining0 >= n { remaining0 - n } else { 0 },
            decreases carry,
        {
            carry = carry - 60;
            if remaining != 0 {
                remaining = remaining - 1;
            }
            proof {
                n = n + 1;
            }
        }
        let ghost c0: int = old(self)@.delay_tick_carry as int;
        let ghost cf: int = carry as int;
        assert(n == (c0 + 256) / 60 && cf == (c0 + 256) % 60) by (nonlinear_arith)
            requires
                cf == carry0 - 60 * n,
                0 <= cf < 60,
                carry0 == c0 + 256,
        ;
        self.delay_tick_carry = carry;
        self.delay_remaining_ticks = remaining;
    }

    /// A key for a guest that waits for one (see `pending_input`).
    pub(crate) fn pending_input_value(&mut self) -> (value: Option<i32>)
        requires
            old(self).inv(),
        ensures
            final(self).inv(),
            final(self)@.elapsed_ms == old(self)@.elapsed_ms,
            final(self)@.time_remainder == old(self)@.time_remainder,
            final(self)@.vm == old(self)@.vm,
            (value, final(self)@) == pending_input(old(self)@),
    {
        if let Some(key) = self.input.pop_key() {
            return Some(key as i32);
        }
        let pointer = match self.input.pointer() {
            Some(p) => p,
            None => return None,
        };
        if pointer.pressed && pointer.x >= 0 && pointer.y >= 0 {
            return Some(((pointer.x as i32) & 0xff) << 8i32 | ((pointer.y as i32) & 0xff) << 16i32 | (0xff00_0000u32 as i32));
        }
        None
    }

    pub(crate) fn pop_value(&mut self) -> (r: Result<i32>)
        requires
            old(self).inv(),
        ensures
            final(self).inv(),
            final(self)@.elapsed_ms == old(self)@.elapsed_ms,
            final(self)@.time_remainder == old(self)@.time_remainder,
            r is Ok ==> final(self)@.vm.instructions_executed == old(self)@.vm.instructions_executed,
            agrees_step(r, old(self)@.pop(), final(self)@),
            r is Err ==> final(self)@.vm.image == old(self)@.vm.image,
    {
        self.vm.pop_value()
    }

    pub(crate) fn push_value(&mut self, value: i32) -> (r: Result<()>)
        requires
            old(self).inv(),
        ensures
            final(self).inv(),
            final(self)@.elapsed_ms == old(self)@.elapsed_ms,
            final(self)@.time_remainder == old(self)@.time_remainder,
            r is Ok ==> final(self)@.vm.instructions_executed == old(self)@.vm.instructions_executed,
            match old(self)@.push(value) {
                Ok(s) => r == Ok::<(), Error>(()) && final(self)@ == s,
                Err(e) => r == Err::<(), Error>(e),
            },
    {
        self.vm.push_value(value)
    }

    pub(crate) fn guest_address(&self, value: i32) -> (address: u32)
        requires
            self.inv(),
        ensures
            address == self@.guest_address(value),
            address <= 0x00ff_ffff,
    {
        let mask: u32 = match self.vm.program().header().address_width {
            crate::program::AddressWidth::Bits16 => 0xffff,
            _ => 0x00ff_ffff,
        };
        let v = value as u32;
        assert(v & mask <= 0x00ff_ffff) by (bit_vector)
            requires
                mask == 0xffff || mask == 0x00ff_ffff,
        ;
        v & mask
    }

    pub(crate) fn pop_guest_address(&mut self) -> (r: Result<u32>)
        requires
            old(self).inv(),
        ensures
            final(self).inv(),
            final(self)@.elapsed_ms == old(self)@.elapsed_ms,
            final(self)@.time_remainder == old(self)@.time_remainder,
            r is Ok ==> final(self)@.vm.instructions_executed == old(self)@.vm.instructions_executed,
            agrees_step(r, old(self)@.pop_address(), final(self)@),
            r matches Ok(a) ==> a <= 0x00ff_ffff,
    {
        let value = self.pop_value()?;
        Ok(self.guest_address(value))
    }

    pub(crate) fn write_memory(&mut self, address: u32, data: &[u8]) -> (r: Result<()>)
        requires
            old(self).inv(),
        ensures
            final(self).inv(),
            final(self)@.elapsed_ms == old(self)@.elapsed_ms,
            final(self)@.time_remainder == old(self)@.time_remainder,
            r is Ok ==> final(self)@.vm.instructions_executed == old(self)@.vm.instructions_executed,
            match old(self)@.write_memory(address, data@) {
                Ok(s) => r == Ok::<(), Error>(()) && final(self)@ == s,
                Err(e) => r == Err::<(), Error>(e),
            },
    {
        self.vm.write_bytes(address, data)
    }

    pub(crate) fn read_c_bytes(&self, address: u32) -> (r: Result<Vec<u8>>)
        requires
            self.inv(),
        ensures
            match self@.c_string(address) {
                Ok(bytes) => r matches Ok(v) && v@ == bytes,
                Err(e) => r == Err::<Vec<u8>, Error>(e),
            },
            r matches Ok(v) ==> v@.len() < crate::vm::GUEST_MEMORY_SIZE,
    {
        self.vm.read_c_bytes(address)
    }
}


/// Each frame adds 16 or 17 ms of emulated time, and any three frames in a
/// row add exactly 50 ms: 1000/60 ms a frame, the remainder carried.
pub proof fn law_frame_clock(s: EmulatorView)
    requires
        s.time_remainder < 60,
    ensures
        clock_advanced(s).time_remainder < 60,
        clock_advanced(s).elapsed_ms == crate::arith::wadd_u64(s.elapsed_ms, 16)
            || clock_advanced(s).elapsed_ms == crate::arith::wadd_u64(s.elapsed_ms, 17),
        clock_advanced(clock_advanced(clock_advanced(s))).elapsed_ms == crate::arith::wadd_u64(s.elapsed_ms, 50),
{
    let r0 = s.time_remainder as int;
    let s1 = clock_advanced(s);
    let s2 = clock_advanced(s1);
    let s3 = clock_advanced(s2);
    let d1 = (r0 + 1000) / 60;
    let r1 = (r0 + 1000) % 60;
    let d2 = (r1 + 1000) / 60;
    let r2 = (r1 + 1000) % 60;
    let d3 = (r2 + 1000) / 60;
    let r3 = (r2 + 1000) % 60;
    assert(d1 * 60 + r1 == r0 + 1000 && 0 <= r1 < 60) by {
        vstd::arithmetic::div_mod::lemma_fundamental_div_mod(r0 + 1000, 60);
    }
    assert(d2 * 60 + r2 == r1 + 1000 && 0 <= r2 < 60) by {
        vstd::arithmetic::div_mod::lemma_fundamental_div_mod(r1 + 1000, 60);
    }
    assert(d3 * 60 + r3 == r2 + 1000 && 0 <= r3 < 60) by {
        vstd::arithmetic::div_mod::lemma_fundamental_div_mod(r2 + 1000, 60);
    }
    assert(d1 == 16 || d1 == 17);
    assert(d1 + d2 + d3 == 50);
    assert(s1.elapsed_ms == crate::arith::wadd_u64(s.elapsed_ms, d1 as u64));
    assert(s2.elapsed_ms == crate::arith::wadd_u64(s1.elapsed_ms, d2 as u64));
    assert(s3.elapsed_ms == crate::arith::wadd_u64(s2.elapsed_ms, d3 as u64));
}

/// The delay counters after `n` frames.
pub open spec fn delay_frames(s: EmulatorView, n: nat) -> EmulatorView
    decreases n,
{
    if n == 0 {
        s
    } else {
        delay_advanced(delay_frames(s, (n - 1) as nat))
    }
}

proof fn lemma_delay_frames(s: EmulatorView, n: nat)
    requires
        s.delay_tick_carry < 60,
    ensures
        delay_frames(s, n).delay_tick_carry == (s.delay_tick_carry + 256 * n) % 60,
        delay_frames(s, n).delay_remaining_ticks == if s.delay_remaining_ticks >= (s.delay_tick_carry + 256 * n)
            / 60 {
            s.delay_remaining_ticks - (s.delay_tick_carry + 256 * n) / 60
        } else {
            0
        },
        delay_frames(s, n) == (EmulatorView {
            delay_tick_carry: delay_frames(s, n).delay_tick_carry,
            delay_remaining_ticks: delay_frames(s, n).delay_remaining_ticks,
            ..s
        }),
    decreases n,
{
    if n > 0 {
        lemma_delay_frames(s, (n - 1) as nat);
        let c = s.delay_tick_carry as int;
        let t = c + 256 * (n - 1);
        let q = t / 60;
        let m = t % 60;
        vstd::arithmetic::div_mod::lemma_fundamental_div_mod(t, 60);
        vstd::arithmetic::div_mod::lemma_fundamental_div_mod(m + 256, 60);
        vstd::arithmetic::div_mod::lemma_fundamental_div_mod(t + 256, 60);
        let q2 = (m + 256) / 60;
        assert((t + 256) / 60 == q + q2 && (t + 256) % 60 == (m + 256) % 60) by {
            vstd::arithmetic::div_mod::lemma_fundamental_div_mod_converse(t + 256, 60, q + q2, (m + 256) % 60);
        }
        assert(c + 256 * n == t + 256) by (nonlinear_arith)
            requires
                t == c + 256 * (n - 1),
        ;
    }
}

/// Sleeping runs in whole cycles of 15 frames: every 15 frames take exactly
/// 64 ticks of 1/256 s off a delay (stopping at zero) and bring the carry
/// back to where it was.
pub proof fn law_delay_cycle(s: EmulatorView)
    requires
        s.delay_tick_carry < 60,
    ensures
        delay_frames(s, 15).delay_tick_carry == s.delay_tick_carry,
        delay_frames(s, 15).delay_remaining_ticks == if s.delay_remaining_ticks >= 64 {
            s.delay_remaining_ticks - 64
        } else {
            0
        },
{
    lemma_delay_frames(s, 15);
    let c = s.delay_tick_carry as int;
    vstd::arithmetic::div_mod::lemma_fundamental_div_mod_converse(c + 3840, 60, 64, c);
}

} // verus!
