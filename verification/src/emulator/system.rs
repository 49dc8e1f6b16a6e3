use vstd::prelude::*;

use crate::arith::{bool_value, spec_bool, wadd_i32, wmul_i32};
use crate::console::{console_layout, render};
use crate::display::{BufferTarget, DisplayView, DrawOperation, spec_operation, spec_transform, Transform};
use crate::emulator::{Emulator, EmulatorView, FormatTarget, FormatView, HostAction, HostRequest, PendingFormat, Step, agrees_step, continued, pending_input, texts_view};
use crate::encoding::{gbk_decode, gbk_decoded, gbk_encode, gbk_encoded, utf8_lossy, utf8_lossy_text};
use crate::error::{Error, Result};
use crate::vfs::{VfsView, strings_view};
use crate::text::{chars_eq, seqs_view, str_to_chars};
use crate::path::last_index_of;
use crate::input::InputView;
use crate::program::GraphicsMode;
use crate::vm::{VmView, law_c_string, law_push_then_pop, law_string_write_then_read, law_write_then_read};

verus! {

/// A guest coordinate: the low 16 bits, signed.
pub open spec fn spec_coordinate(value: i32) -> i32 {
    (value as i16) as i32
}

fn coordinate(value: i32) -> (c: i32)
    ensures
        c == spec_coordinate(value),
        -32768 <= c <= 32767,
{
    (value as i16) as i32
}

/// A rectangle corner as LVM's block check sees it: the low 16 bits,
/// unsigned, clamped to the last pixel when at or beyond the edge.
pub open spec fn spec_block_clamp(value: i32, limit: i32) -> i32 {
    let v = (value as u16) as i32;
    if v >= limit {
        (limit - 1) as i32
    } else {
        v
    }
}

fn block_clamp(value: i32, limit: i32) -> (c: i32)
    requires
        limit > i32::MIN,
    ensures
        c == spec_block_clamp(value, limit),
{
    let v = (value as u16) as i32;
    if v >= limit {
        limit - 1
    } else {
        v
    }
}

/// The buffer that bit 6 of a mode selects: set means the front buffer
/// when `set_means_front`, the back buffer otherwise.
pub open spec fn spec_target(mode: u8, set_means_front: bool) -> BufferTarget {
    if (mode & 0x40 != 0) == set_means_front {
        BufferTarget::Front
    } else {
        BufferTarget::Back
    }
}

fn target_from_flag(mode: u8, set_means_front: bool) -> (target: BufferTarget)
    ensures
        target == spec_target(mode, set_means_front),
{
    let flag = mode & 0x40 != 0;
    if flag == set_means_front {
        BufferTarget::Front
    } else {
        BufferTarget::Back
    }
}

/// Two's complement absolute value; the most negative value stays as it is.
pub open spec fn spec_wrapping_abs(v: i32) -> i32 {
    if v == i32::MIN {
        i32::MIN
    } else if v < 0 {
        (-v) as i32
    } else {
        v
    }
}

/// The next seed of the guest's random generator.
pub open spec fn next_seed(seed: i32) -> i32 {
    wadd_i32(wmul_i32(seed, 0x015a_4e35), 1)
}

/// Sine table of the reference VM, in 1/1024 units, for 0 to 90 degrees.
pub open spec fn sin90(d: int) -> i32 {
    seq![
        0i32, 18, 36, 54, 71, 89, 107, 125, 143, 160, 178, 195, 213, 230, 248, 265, 282, 299, 316, 333,
        350, 367, 384, 400, 416, 433, 449, 465, 481, 496, 512, 527, 543, 558, 573, 587, 602, 616, 630,
        644, 658, 672, 685, 698, 711, 724, 737, 749, 761, 773, 784, 796, 807, 818, 828, 839, 849, 859,
        868, 878, 887, 896, 904, 912, 920, 928, 935, 943, 949, 956, 962, 968, 974, 979, 984, 989, 994,
        998, 1002, 1005, 1008, 1011, 1014, 1016, 1018, 1020, 1022, 1023, 1023, 1024, 1024,
    ][d]
}

/// Integer sine of a whole number of degrees (0 to 359), 1024 = 1.
pub open spec fn spec_sin(degrees: int) -> i32 {
    if degrees < 90 {
        sin90(degrees)
    } else if degrees < 180 {
        sin90(180 - degrees)
    } else if degrees < 270 {
        (-sin90(degrees - 180)) as i32
    } else {
        (-sin90(360 - degrees)) as i32
    }
}

fn sin90_table(d: usize) -> (v: i32)
    requires
        d <= 90,
    ensures
        v == sin90(d as int),
{
    let table: [i32; 91] = [
        0i32, 18, 36, 54, 71, 89, 107, 125, 143, 160, 178, 195, 213, 230, 248, 265, 282, 299, 316, 333,
        350, 367, 384, 400, 416, 433, 449, 465, 481, 496, 512, 527, 543, 558, 573, 587, 602, 616, 630,
        644, 658, 672, 685, 698, 711, 724, 737, 749, 761, 773, 784, 796, 807, 818, 828, 839, 849, 859,
        868, 878, 887, 896, 904, 912, 920, 928, 935, 943, 949, 956, 962, 968, 974, 979, 984, 989, 994,
        998, 1002, 1005, 1008, 1011, 1014, 1016, 1018, 1020, 1022, 1023, 1023, 1024, 1024,
    ];
    assert(table@ =~= seq![
        0i32, 18, 36, 54, 71, 89, 107, 125, 143, 160, 178, 195, 213, 230, 248, 265, 282, 299, 316, 333,
        350, 367, 384, 400, 416, 433, 449, 465, 481, 496, 512, 527, 543, 558, 573, 587, 602, 616, 630,
        644, 658, 672, 685, 698, 711, 724, 737, 749, 761, 773, 784, 796, 807, 818, 828, 839, 849, 859,
        868, 878, 887, 896, 904, 912, 920, 928, 935, 943, 949, 956, 962, 968, 974, 979, 984, 989, 994,
        998, 1002, 1005, 1008, 1011, 1014, 1016, 1018, 1020, 1022, 1023, 1023, 1024, 1024,
    ]);
    table[d]
}

fn sin_lookup(degrees: i32) -> (v: i32)
    requires
        0 <= degrees,
    ensures
        v == spec_sin((degrees % 360) as int),
{
    let degrees = degrees % 360;
    if degrees < 90 {
        sin90_table(degrees as usize)
    } else if degrees < 180 {
        sin90_table((180 - degrees) as usize)
    } else if degrees < 270 {
        -sin90_table((degrees - 180) as usize)
    } else {
        -sin90_table((360 - degrees) as usize)
    }
}

/// The LavaX key code of a physical (Windows virtual-key) code, or 0.
pub open spec fn spec_lava_key(vk: u16) -> u8 {
    let v = vk as u8;
    if 65 <= v <= 90 {
        v | 0x20
    } else if 112 <= v <= 115 {
        (v - 112 + 0x1c) as u8
    } else if v == 37 {
        23
    } else if v == 38 {
        20
    } else if v == 39 {
        22
    } else if v == 40 {
        21
    } else if v == 33 {
        19
    } else if v == 34 {
        14
    } else if v == 190 {
        46
    } else if v == 48 || v == 32 || v == 13 || v == 27 {
        v
    } else if v == 16 {
        26
    } else if 49 <= v <= 57 {
        seq![98u8, 110, 109, 103, 104, 106, 116, 121, 117][v - 49]
    } else if v == 116 {
        25
    } else if v == 117 {
        18
    } else {
        0
    }
}

fn lava_key_from_vk(vk: u16) -> (key: u8)
    ensures
        key == spec_lava_key(vk),
{
    let v = vk as u8;
    if 65 <= v && v <= 90 {
        v | 0x20
    } else if 112 <= v && v <= 115 {
        v - 112 + 0x1c
    } else if v == 37 {
        23
    } else if v == 38 {
        20
    } else if v == 39 {
        22
    } else if v == 40 {
        21
    } else if v == 33 {
        19
    } else if v == 34 {
        14
    } else if v == 190 {
        46
    } else if v == 48 || v == 32 || v == 13 || v == 27 {
        v
    } else if v == 16 {
        26
    } else if 49 <= v && v <= 57 {
        let keys: [u8; 9] = [98u8, 110, 109, 103, 104, 106, 116, 121, 117];
        assert(keys@ =~= seq![98u8, 110, 109, 103, 104, 106, 116, 121, 117]);
        keys[(v - 49) as usize]
    } else if v == 116 {
        25
    } else if v == 117 {
        18
    } else {
        0
    }
}

/// The first pressed key, scanning physical codes 0 to `n - 1` in order,
/// as a LavaX key code; 0 when none is pressed.
pub open spec fn first_pressed_vk(pressed: Set<u8>, n: int) -> i32
    decreases n,
{
    if n <= 0 {
        0
    } else {
        let earlier = first_pressed_vk(pressed, n - 1);
        let lava = spec_lava_key((n - 1) as u16);
        if earlier != 0 {
            earlier
        } else if lava != 0 && pressed.contains(lava & 0x7f) {
            lava as i32
        } else {
            0
        }
    }
}

/// ASCII character classes of system calls 27 to 37.
pub open spec fn spec_ctype(call: u8, c: u8) -> bool {
    let digit = 48 <= c <= 57;
    let upper = 65 <= c <= 90;
    let lower = 97 <= c <= 122;
    let graphic = 33 <= c <= 126;
    if call == 27 {
        digit || upper || lower
    } else if call == 28 {
        upper || lower
    } else if call == 29 {
        c < 32 || c == 127
    } else if call == 30 {
        digit
    } else if call == 31 {
        graphic
    } else if call == 32 {
        lower
    } else if call == 33 {
        graphic || c == 32
    } else if call == 34 {
        graphic && !(digit || upper || lower)
    } else if call == 35 {
        c == 32 || c == 9 || c == 10 || c == 12 || c == 13
    } else if call == 36 {
        upper
    } else {
        digit || (65 <= c <= 70) || (97 <= c <= 102)
    }
}

pub open spec fn spec_upper(c: u8) -> u8 {
    if 97 <= c <= 122 {
        (c - 32) as u8
    } else {
        c
    }
}

pub open spec fn spec_lower(c: u8) -> u8 {
    if 65 <= c <= 90 {
        (c + 32) as u8
    } else {
        c
    }
}

impl EmulatorView {
    pub open spec fn with_display(self, display: DisplayView) -> EmulatorView {
        EmulatorView { display, ..self }
    }

    /// System call 0: writes a character to the console and shows it.
    pub open spec fn sys_putchar(self) -> Step<HostAction> {
        match self.pop() {
            Err(e) => Err(e),
            Ok((v, s)) => {
                let console = s.console.write(v as u8);
                Ok((HostAction::Continue, EmulatorView { console, display: render(s.display, console), ..s }))
            },
        }
    }

    /// System call 1: the next key, or wait for one.
    pub open spec fn sys_getchar(self) -> Step<HostAction> {
        let (value, s) = pending_input(self);
        match value {
            Some(v) => continued(s.push(v)),
            None => Ok((HostAction::WaitForInput, EmulatorView { waiting_for_key: true, ..s })),
        }
    }

    /// System call 3: copies a string with its terminator.
    pub open spec fn sys_strcpy(self) -> Step<HostAction> {
        match self.pop_address() {
            Err(e) => Err(e),
            Ok((source, s1)) => match s1.pop_address() {
                Err(e) => Err(e),
                Ok((destination, s2)) => match s2.c_string(source) {
                    Err(e) => Err(e),
                    Ok(data) => continued(s2.write_memory(destination, data.push(0))),
                },
            },
        }
    }

    /// System call 4: the length of a string.
    pub open spec fn sys_strlen(self) -> Step<HostAction> {
        match self.pop_address() {
            Err(e) => Err(e),
            Ok((address, s)) => match s.c_string(address) {
                Err(e) => Err(e),
                Ok(data) => continued(s.push(data.len() as i32)),
            },
        }
    }

    /// System call 5: lays the console out again, in the small font when
    /// the low byte is non-zero.
    pub open spec fn sys_setscreen(self) -> Step<HostAction> {
        match self.pop() {
            Err(e) => Err(e),
            Ok((v, s)) => Ok((
                HostAction::Continue,
                EmulatorView {
                    console: console_layout(s.display.width as int, s.display.height as int, v & 0xff != 0),
                    ..s
                },
            )),
        }
    }

    /// System call 6: draws the console and asks the host to show the screen.
    pub open spec fn sys_update_lcd(self) -> Step<HostAction> {
        match self.pop() {
            Err(e) => Err(e),
            Ok((_v, s)) => Ok((HostAction::Present, s.with_display(render(s.display, s.console)))),
        }
    }

    /// System call 7: sleeps for up to 32767 ms, counted in 1/256 s ticks.
    pub open spec fn sys_delay(self) -> Step<HostAction> {
        match self.pop() {
            Err(e) => Err(e),
            Ok((v, s)) => {
                let ticks = (((v & 0x7fff) as u32) * 256 / 1000) as u32;
                Ok((
                    if ticks == 0 { HostAction::Continue } else { HostAction::Delay },
                    EmulatorView { delay_remaining_ticks: ticks, ..s },
                ))
            },
        }
    }

    /// System call 10: draws a string (bit 7 of the mode selects the large
    /// font, mode 2 inverts).
    pub open spec fn sys_textout(self) -> Step<HostAction> {
        match self.pop() {
            Err(e) => Err(e),
            Ok((m, s1)) => match s1.pop_address() {
                Err(e) => Err(e),
                Ok((address, s2)) => match s2.pop() {
                    Err(e) => Err(e),
                    Ok((yv, s3)) => match s3.pop() {
                        Err(e) => Err(e),
                        Ok((xv, s4)) => match s4.c_string(address) {
                            Err(e) => Err(e),
                            Ok(text) => {
                                let mode = m as u8;
                                let operation = if mode & 0x0f == 2 {
                                    DrawOperation::Invert
                                } else {
                                    DrawOperation::Draw
                                };
                                Ok((
                                    HostAction::Continue,
                                    s4.with_display(
                                        s4.display.text_from(
                                            spec_target(mode, true),
                                            spec_coordinate(xv) as int,
                                            spec_coordinate(yv) as int,
                                            text,
                                            0,
                                            mode & 0x80 != 0,
                                            operation,
                                        ),
                                    ),
                                ))
                            },
                        },
                    },
                },
            },
        }
    }

    /// Pops the four corners of a rectangle (last pushed first), clamped to
    /// the screen.
    pub open spec fn pop_corners(self) -> Step<(i32, i32, i32, i32)> {
        let w = self.display.width as i32;
        let h = self.display.height as i32;
        match self.pop() {
            Err(e) => Err(e),
            Ok((y1, s1)) => match s1.pop() {
                Err(e) => Err(e),
                Ok((x1, s2)) => match s2.pop() {
                    Err(e) => Err(e),
                    Ok((y0, s3)) => match s3.pop() {
                        Err(e) => Err(e),
                        Ok((x0, s4)) => Ok((
                            (
                                spec_block_clamp(spec_coordinate(x0), w),
                                spec_block_clamp(spec_coordinate(y0), h),
                                spec_block_clamp(spec_coordinate(x1), w),
                                spec_block_clamp(spec_coordinate(y1), h),
                            ),
                            s4,
                        )),
                    },
                },
            },
        }
    }

    /// System calls 11 and 12: a filled or outlined rectangle.
    pub open spec fn sys_rectangle(self, filled: bool) -> Step<HostAction> {
        match self.pop() {
            Err(e) => Err(e),
            Ok((mode, s1)) => match s1.pop_corners() {
                Err(e) => Err(e),
                Ok(((x0, y0, x1, y1), s2)) => Ok((
                    HostAction::Continue,
                    s2.with_display(
                        s2.display.draw_rectangle(
                            spec_target(mode as u8, true),
                            x0 as int,
                            y0 as int,
                            x1 as int,
                            y1 as int,
                            filled,
                            spec_operation(mode),
                        ),
                    ),
                )),
            },
        }
    }

    /// System call 13: ends the program.
    pub open spec fn sys_exit(self) -> Step<HostAction> {
        match self.pop() {
            Err(e) => Err(e),
            Ok((code, s)) => Ok((
                HostAction::Halt(code),
                s.with_vm(VmView { exit_code: code, running: false, ..s.vm }),
            )),
        }
    }

    /// Replaces the top of the stack by `f` of it.
    pub open spec fn map_top(self, f: spec_fn(i32) -> i32) -> Step<HostAction> {
        match self.pop() {
            Err(e) => Err(e),
            Ok((v, s)) => continued(s.push(f(v))),
        }
    }

    /// System call 16: the next pseudo-random number, 0 to 32767.
    pub open spec fn sys_rand(self) -> Step<HostAction> {
        let seed = next_seed(self.random_seed);
        continued(EmulatorView { random_seed: seed, ..self }.push((seed >> 16i32) & 0x7fff))
    }

    /// System call 18: moves the console cursor.
    pub open spec fn sys_locate(self) -> Step<HostAction> {
        match self.pop() {
            Err(e) => Err(e),
            Ok((x, s1)) => match s1.pop() {
                Err(e) => Err(e),
                Ok((y, s2)) => {
                    let c = s2.console;
                    let cx = x as usize;
                    let cy = y as usize;
                    Ok((
                        HostAction::Continue,
                        EmulatorView {
                            console: crate::console::ConsoleView {
                                x: if cx < c.columns { cx as int } else { c.columns - 1 },
                                y: if cy < c.rows { cy as int } else { c.rows - 1 },
                                ..c
                            },
                            ..s2
                        },
                    ))
                },
            },
        }
    }

    /// System call 19: the next queued key, or 0.
    pub open spec fn sys_inkey(self) -> Step<HostAction> {
        if self.input.queued.len() > 0 {
            continued(
                EmulatorView { input: InputView { queued: self.input.queued.drop_first(), ..self.input }, ..self }.push(
                    self.input.queued[0] as i32,
                ),
            )
        } else {
            continued(self.push(0))
        }
    }

    /// System call 20: draws a point (bit 6 set means the back buffer).
    pub open spec fn sys_point(self) -> Step<HostAction> {
        match self.pop() {
            Err(e) => Err(e),
            Ok((mode, s1)) => match s1.pop() {
                Err(e) => Err(e),
                Ok((y, s2)) => match s2.pop() {
                    Err(e) => Err(e),
                    Ok((x, s3)) => Ok((
                        HostAction::Continue,
                        s3.with_display(
                            s3.display.draw_pixel(
                                spec_target(mode as u8, false),
                                spec_coordinate(x) as int,
                                spec_coordinate(y) as int,
                                spec_operation(mode),
                            ),
                        ),
                    )),
                },
            },
        }
    }

    /// System call 21: the colour of a point of the screen, 0 off it.
    pub open spec fn sys_getpoint(self) -> Step<HostAction> {
        match self.pop() {
            Err(e) => Err(e),
            Ok((yv, s1)) => match s1.pop() {
                Err(e) => Err(e),
                Ok((xv, s2)) => {
                    let x = spec_coordinate(xv) as int;
                    let y = spec_coordinate(yv) as int;
                    let d = s2.display;
                    continued(s2.push(if d.in_bounds(x, y) { d.front[d.index(x, y)] as i32 } else { 0 }))
                },
            },
        }
    }

    /// System call 22: draws a line.
    pub open spec fn sys_line(self) -> Step<HostAction> {
        match self.pop() {
            Err(e) => Err(e),
            Ok((mode, s1)) => match s1.pop() {
                Err(e) => Err(e),
                Ok((y1, s2)) => match s2.pop() {
                    Err(e) => Err(e),
                    Ok((x1, s3)) => match s3.pop() {
                        Err(e) => Err(e),
                        Ok((y0, s4)) => match s4.pop() {
                            Err(e) => Err(e),
                            Ok((x0, s5)) => Ok((
                                HostAction::Continue,
                                s5.with_display(
                                    s5.display.draw_line(
                                        spec_target(mode as u8, false),
                                        spec_coordinate(x0) as int,
                                        spec_coordinate(y0) as int,
                                        spec_coordinate(x1) as int,
                                        spec_coordinate(y1) as int,
                                        spec_operation(mode),
                                    ),
                                ),
                            )),
                        },
                    },
                },
            },
        }
    }

    /// System call 23: a rectangle on the front buffer, filled when asked.
    pub open spec fn sys_box(self) -> Step<HostAction> {
        match self.pop() {
            Err(e) => Err(e),
            Ok((mode, s1)) => match s1.pop() {
                Err(e) => Err(e),
                Ok((filled, s2)) => match s2.pop_corners() {
                    Err(e) => Err(e),
                    Ok(((x0, y0, x1, y1), s3)) => Ok((
                        HostAction::Continue,
                        s3.with_display(
                            s3.display.draw_rectangle(
                                BufferTarget::Front,
                                x0 as int,
                                y0 as int,
                                x1 as int,
                                y1 as int,
                                filled != 0,
                                spec_operation(mode),
                            ),
                        ),
                    )),
                },
            },
        }
    }

    /// System calls 24 and 25: a circle (one radius) or an ellipse.
    pub open spec fn sys_ellipse(self, circle: bool) -> Step<HostAction> {
        match self.pop() {
            Err(e) => Err(e),
            Ok((mode, s1)) => match s1.pop() {
                Err(e) => Err(e),
                Ok((filled, s2)) => match s2.pop() {
                    Err(e) => Err(e),
                    Ok((r1, s3)) => {
                        let radii: Step<(u16, u16)> = if circle {
                            Ok(((r1 as u16, r1 as u16), s3))
                        } else {
                            match s3.pop() {
                                Err(e) => Err(e),
                                Ok((r0, s)) => Ok(((r0 as u16, r1 as u16), s)),
                            }
                        };
                        match radii {
                            Err(e) => Err(e),
                            Ok(((rx, ry), s4)) => match s4.pop() {
                                Err(e) => Err(e),
                                Ok((y, s5)) => match s5.pop() {
                                    Err(e) => Err(e),
                                    Ok((x, s6)) => Ok((
                                        HostAction::Continue,
                                        s6.with_display(
                                            s6.display.draw_ellipse(
                                                spec_target(mode as u8, false),
                                                spec_coordinate(x) as int,
                                                spec_coordinate(y) as int,
                                                rx as int,
                                                ry as int,
                                                filled != 0,
                                                spec_operation(mode),
                                            ),
                                        ),
                                    )),
                                },
                            },
                        }
                    },
                },
            },
        }
    }

    /// System calls 27 to 37: an ASCII class test (true is -1).
    pub open spec fn sys_ctype(self, call: u8) -> Step<HostAction> {
        match self.pop() {
            Err(e) => Err(e),
            Ok((v, s)) => continued(s.push(spec_bool(spec_ctype(call, v as u8)))),
        }
    }

    /// System calls 42 and 43: ASCII case conversion.
    pub open spec fn sys_case(self, upper: bool) -> Step<HostAction> {
        match self.pop() {
            Err(e) => Err(e),
            Ok((v, s)) => continued(s.push((if upper { spec_upper(v as u8) } else { spec_lower(v as u8) }) as i32)),
        }
    }

    /// System call 60: whether a key is held; for codes of 128 and above,
    /// the first held key in physical-key order.
    pub open spec fn sys_checkkey(self) -> Step<HostAction> {
        match self.pop() {
            Err(e) => Err(e),
            Ok((v, s)) => {
                let key = v as u8;
                continued(
                    s.push(
                        if key < 0x80 {
                            spec_bool(s.input.pressed.contains(key & 0x7f))
                        } else {
                            first_pressed_vk(s.input.pressed, 256)
                        },
                    ),
                )
            },
        }
    }

    /// System call 69: a whole-screen transform; unknown codes do nothing.
    pub open spec fn sys_transform(self) -> Step<HostAction> {
        match self.pop() {
            Err(e) => Err(e),
            Ok((v, s)) => match spec_transform(v as u8) {
                Some(t) => Ok((HostAction::Continue, s.with_display(s.display.transform(t)))),
                None => Ok((HostAction::Continue, s)),
            },
        }
    }

    /// System call 70: releases one key, or all keys for codes of 128 and
    /// above.
    pub open spec fn sys_releasekey(self) -> Step<HostAction> {
        match self.pop() {
            Err(e) => Err(e),
            Ok((v, s)) => {
                let key = v as u8;
                let input = if key < 0x80 {
                    InputView { pressed: s.input.pressed.remove(key & 0x7f), ..s.input }
                } else {
                    InputView { pressed: Set::empty(), queued: Seq::empty(), ..s.input }
                };
                Ok((HostAction::Continue, EmulatorView { input, ..s }))
            },
        }
    }

    /// System calls 72 and 73: integer sine and cosine (1024 = 1) of the
    /// low 16 bits of the angle, in degrees.
    pub open spec fn sys_trig(self, sine: bool) -> Step<HostAction> {
        match self.pop() {
            Err(e) => Err(e),
            Ok((v, s)) => {
                let degrees = (v as u16) as int % 360;
                let value = if sine {
                    spec_sin(degrees)
                } else if degrees >= 270 {
                    spec_sin(degrees - 270)
                } else {
                    spec_sin(degrees + 90)
                };
                continued(s.push(value))
            },
        }
    }

    /// System call 75: sets the graphics mode (1, 4 or 8 bits per pixel,
    /// 0 asks) and returns the previous depth, or 0 for other requests.
    pub open spec fn sys_set_graphics_mode(self) -> Step<HostAction> {
        match self.pop() {
            Err(e) => Err(e),
            Ok((v, s)) => {
                let request = v as u8;
                let previous = s.display.mode.spec_bits_per_pixel() as i32;
                let mode = if request == 1 {
                    Some(GraphicsMode::Mono)
                } else if request == 4 {
                    Some(GraphicsMode::Color4)
                } else if request == 8 {
                    Some(GraphicsMode::Color8)
                } else {
                    None
                };
                let s2 = match mode {
                    Some(m) => s.with_display(
                        if m == s.display.mode {
                            s.display
                        } else {
                            crate::display::restarted(s.display, m)
                        },
                    ),
                    None => s,
                };
                continued(s2.push(if request == 0 || mode is Some { previous } else { 0 }))
            },
        }
    }
}


/// Lexicographic comparison of byte strings: -1, 0 or 1.
pub open spec fn byte_order(a: Seq<u8>, b: Seq<u8>) -> i32
    decreases a.len(),
{
    if a.len() == 0 {
        if b.len() == 0 {
            0
        } else {
            -1i32
        }
    } else if b.len() == 0 {
        1
    } else if a[0] < b[0] {
        -1i32
    } else if a[0] > b[0] {
        1
    } else {
        byte_order(a.drop_first(), b.drop_first())
    }
}

/// `a` comes before `b` in byte-string order: at the first position where
/// they differ the byte of `a` is smaller, or `a` is a proper prefix of `b`.
pub open spec fn bytes_before(a: Seq<u8>, b: Seq<u8>) -> bool {
    exists|k: int|
        0 <= k <= a.len() && k <= b.len() && #[trigger] a.take(k) == b.take(k) && (if k == a.len() {
            k < b.len()
        } else {
            k < b.len() && a[k] < b[k]
        })
}

/// String comparison (system call 40) answers -1 exactly when the left
/// string comes first in byte order, 0 when both are equal and 1 when the
/// right one comes first.
pub proof fn law_byte_order(a: Seq<u8>, b: Seq<u8>)
    ensures
        byte_order(a, b) == -1 <==> bytes_before(a, b),
        byte_order(a, b) == 0 <==> a == b,
        byte_order(a, b) == 1 <==> bytes_before(b, a),
    decreases a.len(),
{
    if a.len() == 0 || b.len() == 0 || a[0] != b[0] {
        if a.len() == 0 && b.len() > 0 {
            assert(a.take(0) =~= b.take(0));
        } else if b.len() == 0 && a.len() > 0 {
            assert(a.take(0) =~= b.take(0));
        } else if a.len() > 0 && b.len() > 0 {
            assert(a.take(0) =~= b.take(0));
            assert forall|k: int| 0 < k <= a.len() && k <= b.len() implies #[trigger] a.take(k) != b.take(k) by {
                assert(a.take(k)[0] == a[0]);
                assert(b.take(k)[0] == b[0]);
            }
            assert(a != b);
        }
        if a.len() == 0 && b.len() == 0 {
            assert(a =~= b);
        }
    } else {
        let a1 = a.drop_first();
        let b1 = b.drop_first();
        law_byte_order(a1, b1);
        assert(a == b <==> a1 == b1) by {
            if a1 == b1 {
                assert(a =~= seq![a[0]] + a1);
                assert(b =~= seq![b[0]] + b1);
            }
        }
        assert(bytes_before(a, b) <==> bytes_before(a1, b1)) by {
            if bytes_before(a, b) {
                let k = choose|k: int|
                    0 <= k <= a.len() && k <= b.len() && #[trigger] a.take(k) == b.take(k) && (if k == a.len() {
                        k < b.len()
                    } else {
                        k < b.len() && a[k] < b[k]
                    });
                assert(k > 0);
                assert(a1.take(k - 1) =~= a.take(k).drop_first());
                assert(b1.take(k - 1) =~= b.take(k).drop_first());
                assert(a1.take(k - 1) == b1.take(k - 1));
            }
            if bytes_before(a1, b1) {
                let k = choose|k: int|
                    0 <= k <= a1.len() && k <= b1.len() && #[trigger] a1.take(k) == b1.take(k) && (if k == a1.len() {
                        k < b1.len()
                    } else {
                        k < b1.len() && a1[k] < b1[k]
                    });
                assert(a.take(k + 1) =~= seq![a[0]] + a1.take(k));
                assert(b.take(k + 1) =~= seq![b[0]] + b1.take(k));
                assert(a.take(k + 1) == b.take(k + 1));
            }
        }
        assert(bytes_before(b, a) <==> bytes_before(b1, a1)) by {
            if bytes_before(b, a) {
                let k = choose|k: int|
                    0 <= k <= b.len() && k <= a.len() && #[trigger] b.take(k) == a.take(k) && (if k == b.len() {
                        k < a.len()
                    } else {
                        k < a.len() && b[k] < a[k]
                    });
                assert(k > 0);
                assert(b1.take(k - 1) =~= b.take(k).drop_first());
                assert(a1.take(k - 1) =~= a.take(k).drop_first());
                assert(b1.take(k - 1) == a1.take(k - 1));
            }
            if bytes_before(b1, a1) {
                let k = choose|k: int|
                    0 <= k <= b1.len() && k <= a1.len() && #[trigger] b1.take(k) == a1.take(k) && (if k == b1.len() {
                        k < a1.len()
                    } else {
                        k < a1.len() && b1[k] < a1[k]
                    });
                assert(a.take(k + 1) =~= seq![a[0]] + a1.take(k));
                assert(b.take(k + 1) =~= seq![b[0]] + b1.take(k));
                assert(b.take(k + 1) == a.take(k + 1));
            }
        }
    }
}

/// The first position of `needle` in `data` at or after `from`.
pub open spec fn find_byte(data: Seq<u8>, needle: u8, from: int) -> Option<int>
    decreases data.len() - from,
{
    if from < 0 || from >= data.len() {
        None
    } else if data[from] == needle {
        Some(from)
    } else {
        find_byte(data, needle, from + 1)
    }
}

/// The first position at or after `from` where `needle` occurs in `data`.
pub open spec fn find_window(data: Seq<u8>, needle: Seq<u8>, from: int) -> Option<int>
    decreases data.len() - from,
{
    if from < 0 || from >= data.len() || from + needle.len() > data.len() {
        None
    } else if data.subrange(from, from + needle.len()) == needle {
        Some(from)
    } else {
        find_window(data, needle, from + 1)
    }
}

proof fn lemma_find_byte(data: Seq<u8>, needle: u8, from: int)
    requires
        0 <= from,
    ensures
        match find_byte(data, needle, from) {
            Some(k) => from <= k < data.len() && data[k] == needle && forall|i: int| from <= i < k ==> data[i] != needle,
            None => forall|i: int| from <= i < data.len() ==> data[i] != needle,
        },
    decreases data.len() - from,
{
    if from < data.len() && data[from] != needle {
        lemma_find_byte(data, needle, from + 1);
    }
}

/// Searching a string for a byte (system call 39) finds its first
/// occurrence: the byte is there, and not at any earlier position; when
/// nothing is found the byte does not occur at all.
pub proof fn law_find_byte(data: Seq<u8>, needle: u8)
    ensures
        match find_byte(data, needle, 0) {
            Some(k) => 0 <= k < data.len() && data[k] == needle && forall|i: int| 0 <= i < k ==> data[i] != needle,
            None => forall|i: int| 0 <= i < data.len() ==> data[i] != needle,
        },
{
    lemma_find_byte(data, needle, 0);
}

proof fn lemma_find_window(data: Seq<u8>, needle: Seq<u8>, from: int)
    requires
        0 <= from,
    ensures
        match find_window(data, needle, from) {
            Some(k) => {
                &&& from <= k
                &&& k + needle.len() <= data.len()
                &&& data.subrange(k, k + needle.len()) == needle
                &&& forall|j: int| from <= j < k ==> #[trigger] data.subrange(j, j + needle.len()) != needle
            },
            None => forall|j: int|
                from <= j < data.len() && j + needle.len() <= data.len() ==> #[trigger] data.subrange(j, j + needle.len())
                    != needle,
        },
    decreases data.len() - from,
{
    if from < data.len() && from + needle.len() <= data.len() && data.subrange(from, from + needle.len()) != needle {
        lemma_find_window(data, needle, from + 1);
    }
}

/// Searching a string for another (system call 41) finds the first place
/// where it occurs: the bytes there are the searched string, and it does
/// not occur at any earlier position; when nothing is found it occurs
/// nowhere.
pub proof fn law_find_window(data: Seq<u8>, needle: Seq<u8>)
    ensures
        match find_window(data, needle, 0) {
            Some(k) => {
                &&& 0 <= k
                &&& k + needle.len() <= data.len()
                &&& data.subrange(k, k + needle.len()) == needle
                &&& forall|j: int| 0 <= j < k ==> #[trigger] data.subrange(j, j + needle.len()) != needle
            },
            None => forall|j: int|
                0 <= j < data.len() && j + needle.len() <= data.len() ==> #[trigger] data.subrange(j, j + needle.len())
                    != needle,
        },
{
    lemma_find_window(data, needle, 0);
}

/// `data` XORed with `key` repeated.
pub open spec fn xored(data: Seq<u8>, key: Seq<u8>) -> Seq<u8> {
    Seq::new(data.len(), |i: int| data[i] ^ key[i % (key.len() as int)])
}

/// One CRC-16/CCITT shift step, `n` times.
pub open spec fn crc_shift(crc: u16, n: nat) -> u16
    decreases n,
{
    if n == 0 {
        crc
    } else {
        crc_shift(if crc & 0x8000 != 0 { ((crc << 1u16) ^ 0x1021) as u16 } else { (crc << 1u16) as u16 }, (n - 1) as nat)
    }
}

/// CRC-16/CCITT (initial value 0, no final xor) of `data`.
pub open spec fn crc16(data: Seq<u8>) -> u16
    decreases data.len(),
{
    if data.len() == 0 {
        0
    } else {
        crc_shift(crc16(data.drop_last()) ^ ((data.last() as u16) << 8u16), 8)
    }
}

/// Bytes of a packed block `width` by `height` in graphics mode `mode`.
pub open spec fn packed_length(mode: GraphicsMode, width: u16, height: u16) -> int {
    crate::display::packed_stride(mode, width as int) * height
}

impl EmulatorView {
    /// Pops a length (masked like an address).
    pub open spec fn pop_length(self) -> Step<usize> {
        match self.pop_address() {
            Err(e) => Err(e),
            Ok((a, s)) => Ok((a as usize, s)),
        }
    }

    /// Memory bytes `address..address + length`.
    pub open spec fn memory_bytes(self, address: u32, length: usize) -> core::result::Result<Seq<u8>, Error> {
        match self.vm.range(address, length) {
            Err(e) => Err(e),
            Ok((a, end)) => Ok(self.vm.memory.subrange(a as int, end as int)),
        }
    }

    /// System call 38: appends one string to another.
    pub open spec fn sys_strcat(self) -> Step<HostAction> {
        match self.pop_address() {
            Err(e) => Err(e),
            Ok((source, s1)) => match s1.pop_address() {
                Err(e) => Err(e),
                Ok((destination, s2)) => match s2.c_string(source) {
                    Err(e) => Err(e),
                    Ok(tail) => match s2.c_string(destination) {
                        Err(e) => Err(e),
                        Ok(head) => continued(s2.write_memory(destination, (head + tail).push(0))),
                    },
                },
            },
        }
    }

    /// System call 39: the address of the first occurrence of a byte in a
    /// string (the terminator for 0), or 0.
    pub open spec fn sys_strchr(self) -> Step<HostAction> {
        match self.pop() {
            Err(e) => Err(e),
            Ok((n, s1)) => match s1.pop_address() {
                Err(e) => Err(e),
                Ok((address, s2)) => match s2.c_string(address) {
                    Err(e) => Err(e),
                    Ok(data) => {
                        let needle = n as u8;
                        let offset = if needle == 0 { Some(data.len() as int) } else { find_byte(data, needle, 0) };
                        continued(s2.push(match offset {
                            Some(o) => (address + o) as i32,
                            None => 0,
                        }))
                    },
                },
            },
        }
    }

    /// System call 40: compares two strings.
    pub open spec fn sys_string_compare(self) -> Step<HostAction> {
        match self.pop_address() {
            Err(e) => Err(e),
            Ok((right, s1)) => match s1.pop_address() {
                Err(e) => Err(e),
                Ok((left, s2)) => match s2.c_string(left) {
                    Err(e) => Err(e),
                    Ok(a) => match s2.c_string(right) {
                        Err(e) => Err(e),
                        Ok(b) => continued(s2.push(byte_order(a, b))),
                    },
                },
            },
        }
    }

    /// System call 41: the address of the first occurrence of one string in
    /// another, or 0.
    pub open spec fn sys_strstr(self) -> Step<HostAction> {
        match self.pop_address() {
            Err(e) => Err(e),
            Ok((needle_address, s1)) => match s1.pop_address() {
                Err(e) => Err(e),
                Ok((haystack_address, s2)) => match s2.c_string(needle_address) {
                    Err(e) => Err(e),
                    Ok(needle) => match s2.c_string(haystack_address) {
                        Err(e) => Err(e),
                        Ok(haystack) => {
                            let offset = if needle.len() == 0 { Some(0int) } else { find_window(haystack, needle, 0) };
                            continued(s2.push(match offset {
                                Some(o) => (haystack_address + o) as i32,
                                None => 0,
                            }))
                        },
                    },
                },
            },
        }
    }

    /// System call 44: fills memory with a byte.
    pub open spec fn sys_memset(self) -> Step<HostAction> {
        match self.pop_length() {
            Err(e) => Err(e),
            Ok((length, s1)) => match s1.pop() {
                Err(e) => Err(e),
                Ok((v, s2)) => match s2.pop_address() {
                    Err(e) => Err(e),
                    Ok((destination, s3)) => match s3.vm.range(destination, length) {
                        Err(e) => Err(e),
                        Ok(_) => continued(s3.write_memory(destination, Seq::new(length as nat, |_i: int| v as u8))),
                    },
                },
            },
        }
    }

    /// System calls 45 and 61: copies memory (overlapping ranges copy as
    /// if through a buffer).
    pub open spec fn sys_memcpy(self) -> Step<HostAction> {
        match self.pop_length() {
            Err(e) => Err(e),
            Ok((length, s1)) => match s1.pop_address() {
                Err(e) => Err(e),
                Ok((source, s2)) => match s2.pop_address() {
                    Err(e) => Err(e),
                    Ok((destination, s3)) => match s3.memory_bytes(source, length) {
                        Err(e) => Err(e),
                        Ok(data) => match s3.vm.range(destination, length) {
                            Err(e) => Err(e),
                            Ok(_) => continued(s3.write_memory(destination, data)),
                        },
                    },
                },
            },
        }
    }

    /// System call 62: the CRC-16/CCITT of a memory range.
    pub open spec fn sys_crc16(self) -> Step<HostAction> {
        match self.pop_length() {
            Err(e) => Err(e),
            Ok((length, s1)) => match s1.pop_address() {
                Err(e) => Err(e),
                Ok((address, s2)) => match s2.memory_bytes(address, length) {
                    Err(e) => Err(e),
                    Ok(data) => continued(s2.push(crc16(data) as i32)),
                },
            },
        }
    }

    /// System call 63: XORs a memory range with a repeated key string; an
    /// empty key does nothing.
    pub open spec fn sys_xor(self) -> Step<HostAction> {
        match self.pop_address() {
            Err(e) => Err(e),
            Ok((key_address, s1)) => match s1.pop_length() {
                Err(e) => Err(e),
                Ok((length, s2)) => match s2.pop_address() {
                    Err(e) => Err(e),
                    Ok((destination, s3)) => match s3.c_string(key_address) {
                        Err(e) => Err(e),
                        Ok(key) => if key.len() == 0 {
                            Ok((HostAction::Continue, s3))
                        } else {
                            match s3.memory_bytes(destination, length) {
                                Err(e) => Err(e),
                                Ok(data) => continued(
                                    s3.write_memory(destination, xored(data, key)),
                                ),
                            }
                        },
                    },
                },
            },
        }
    }

    /// System call 66: writes the calendar to memory.
    pub open spec fn sys_gettime(self) -> Step<HostAction> {
        match self.pop_address() {
            Err(e) => Err(e),
            Ok((address, s)) => continued(s.write_memory(address, s.calendar)),
        }
    }

    /// System call 67: sets the calendar from memory.
    pub open spec fn sys_settime(self) -> Step<HostAction> {
        match self.pop_address() {
            Err(e) => Err(e),
            Ok((address, s)) => match s.memory_bytes(address, 8) {
                Err(e) => Err(e),
                Ok(data) => Ok((HostAction::Continue, EmulatorView { calendar: data, ..s })),
            },
        }
    }

    /// System call 8: draws a packed block from memory.
    pub open spec fn sys_write_block(self) -> Step<HostAction> {
        match self.pop_address() {
            Err(e) => Err(e),
            Ok((source, s1)) => match s1.pop() {
                Err(e) => Err(e),
                Ok((m, s2)) => match s2.pop() {
                    Err(e) => Err(e),
                    Ok((h, s3)) => match s3.pop() {
                        Err(e) => Err(e),
                        Ok((w, s4)) => match s4.pop() {
                            Err(e) => Err(e),
                            Ok((y, s5)) => match s5.pop() {
                                Err(e) => Err(e),
                                Ok((x, s6)) => {
                                    let mode = m as u8;
                                    let length = packed_length(s6.display.mode, w as u16, h as u16);
                                    match s6.memory_bytes(source, length as usize) {
                                        Err(e) => Err(e),
                                        Ok(data) => Ok((
                                            HostAction::Continue,
                                            s6.with_display(
                                                s6.display.blit(
                                                    spec_target(mode, true),
                                                    spec_coordinate(x) as int,
                                                    spec_coordinate(y) as int,
                                                    (w as u16) as int,
                                                    (h as u16) as int,
                                                    data,
                                                    mode & 0x0f,
                                                    mode & 0x20 != 0,
                                                ),
                                            ),
                                        )),
                                    }
                                },
                            },
                        },
                    },
                },
            },
        }
    }

    /// System call 71: copies a block of the screen to memory, packed.
    pub open spec fn sys_getblock(self) -> Step<HostAction> {
        match self.pop_address() {
            Err(e) => Err(e),
            Ok((destination, s1)) => match s1.pop() {
                Err(e) => Err(e),
                Ok((m, s2)) => match s2.pop() {
                    Err(e) => Err(e),
                    Ok((h, s3)) => match s3.pop() {
                        Err(e) => Err(e),
                        Ok((w, s4)) => match s4.pop() {
                            Err(e) => Err(e),
                            Ok((y, s5)) => match s5.pop() {
                                Err(e) => Err(e),
                                Ok((x, s6)) => continued(
                                    s6.write_memory(
                                        destination,
                                        s6.display.capture(
                                            spec_target(m as u8, true),
                                            spec_coordinate(x) as int,
                                            spec_coordinate(y) as int,
                                            (w as u16) as int,
                                            (h as u16) as int,
                                        ),
                                    ),
                                ),
                            },
                        },
                    },
                },
            },
        }
    }

    /// System call 85: copies RGBA palette entries from memory; returns how
    /// many were set.
    pub open spec fn sys_setpalette(self) -> Step<HostAction> {
        match self.pop_address() {
            Err(e) => Err(e),
            Ok((address, s1)) => match s1.pop() {
                Err(e) => Err(e),
                Ok((c, s2)) => match s2.pop() {
                    Err(e) => Err(e),
                    Ok((f, s3)) => {
                        let requested: int = if c < 0 { 0 } else if c > 256 { 256 } else { c as int };
                        let first: int = if f < 0 { 0 } else if f > 255 { 255 } else { f as int };
                        let count = if requested < 256 - first { requested } else { 256 - first };
                        match s3.memory_bytes(address, (count * 4) as usize) {
                            Err(e) => Err(e),
                            Ok(data) => {
                                let colors = Seq::new(count as nat, |k: int| [data[4 * k], data[4 * k + 1], data[4 * k + 2], data[4 * k + 3]]);
                                let d = s3.display;
                                let display = crate::display::DisplayView {
                                    palette: crate::display::palette_with(d.palette, first, colors, count),
                                    ..d
                                };
                                continued(s3.with_display(display).push(count as i32))
                            },
                        }
                    },
                },
            },
        }
    }

    /// System call 86: copies the command line, terminated, to memory.
    pub open spec fn sys_getcmdline(self) -> Step<HostAction> {
        match self.pop_address() {
            Err(e) => Err(e),
            Ok((destination, s)) => match s.write_memory(destination, s.command_line) {
                Err(e) => Err(e),
                Ok(t) => continued(t.write_memory((destination + s.command_line.len()) as u32, seq![0u8])),
            },
        }
    }
}


/// A file handle as the guest sees it: the handle byte, or 0.
pub open spec fn handle_value(handle: Option<u8>) -> i32 {
    match handle {
        Some(h) => h as i32,
        None => 0,
    }
}

/// The error a guest read raises when its handle points past the end of a
/// file that was shortened under it.
pub open spec fn read_past_end() -> Error {
    Error::UnsupportedFeature("read past the end of a file")
}

impl EmulatorView {
    pub open spec fn with_files(self, files: VfsView) -> EmulatorView {
        EmulatorView { files, ..self }
    }

    /// System call 46: opens a file (GBK path, mode string) and returns
    /// its handle, or 0.
    pub open spec fn sys_fopen(self, r: Result<HostAction>, after: EmulatorView) -> bool {
        match self.pop_address() {
            Err(e) => r == Err::<HostAction, Error>(e),
            Ok((mode_address, s1)) => match s1.pop_address() {
                Err(e) => r == Err::<HostAction, Error>(e),
                Ok((path_address, s2)) => match s2.c_string(mode_address) {
                    Err(e) => r == Err::<HostAction, Error>(e),
                    Ok(mode) => match s2.c_string(path_address) {
                        Err(e) => r == Err::<HostAction, Error>(e),
                        Ok(path) => exists|handle: Option<u8>, files: VfsView|
                            #[trigger] s2.files.opened(gbk_decoded(path), utf8_lossy(mode), handle, files) && agrees_step(
                                r,
                                continued(s2.with_files(files).push(handle_value(handle))),
                                after,
                            ),
                    },
                },
            },
        }
    }

    /// System call 47: closes a file.
    pub open spec fn sys_fclose(self, r: Result<HostAction>, after: EmulatorView) -> bool {
        match self.pop() {
            Err(e) => r == Err::<HostAction, Error>(e),
            Ok((h, s)) => exists|closed: bool, files: VfsView|
                #[trigger] s.files.closed_handle(h as u8, closed, files) && r == Ok::<HostAction, Error>(HostAction::Continue)
                    && after == s.with_files(files),
        }
    }

    /// System call 48: reads up to a length from a file into memory and
    /// returns the count read.
    pub open spec fn sys_fread(self, r: Result<HostAction>, after: EmulatorView) -> bool {
        match self.pop() {
            Err(e) => r == Err::<HostAction, Error>(e),
            Ok((h, s1)) => match s1.pop_length() {
                Err(e) => r == Err::<HostAction, Error>(e),
                Ok((length, s2)) => match s2.pop() {
                    Err(e) => r == Err::<HostAction, Error>(e),
                    Ok((_unused, s3)) => match s3.pop_address() {
                        Err(e) => r == Err::<HostAction, Error>(e),
                        Ok((destination, s4)) => if !s4.files.read_in_bounds(h as u8) {
                            r == Err::<HostAction, Error>(read_past_end())
                        } else {
                            exists|data: Option<Seq<u8>>, files: VfsView|
                                #[trigger] s4.files.read_result(h as u8, length, data, files) && {
                                    let bytes = match data {
                                        Some(d) => d,
                                        None => Seq::empty(),
                                    };
                                    agrees_step(
                                        r,
                                        match s4.with_files(files).write_memory(destination, bytes) {
                                            Err(e) => Err(e),
                                            Ok(t) => continued(t.push(bytes.len() as i32)),
                                        },
                                        after,
                                    )
                                }
                        },
                    },
                },
            },
        }
    }

    /// System call 49: writes a memory range to a file and returns the
    /// count written.
    pub open spec fn sys_fwrite(self, r: Result<HostAction>, after: EmulatorView) -> bool {
        match self.pop() {
            Err(e) => r == Err::<HostAction, Error>(e),
            Ok((h, s1)) => match s1.pop_length() {
                Err(e) => r == Err::<HostAction, Error>(e),
                Ok((length, s2)) => match s2.pop() {
                    Err(e) => r == Err::<HostAction, Error>(e),
                    Ok((_unused, s3)) => match s3.pop_address() {
                        Err(e) => r == Err::<HostAction, Error>(e),
                        Ok((source, s4)) => match s4.memory_bytes(source, length) {
                            Err(e) => r == Err::<HostAction, Error>(e),
                            Ok(data) => exists|written: Option<usize>, files: VfsView|
                                #[trigger] s4.files.written_result(h as u8, data, written, files) && agrees_step(
                                    r,
                                    continued(
                                        s4.with_files(files).push(
                                            match written {
                                                Some(n) => n as i32,
                                                None => 0,
                                            },
                                        ),
                                    ),
                                    after,
                                ),
                        },
                    },
                },
            },
        }
    }

    /// System call 50: moves a file position; returns it, or -1.
    pub open spec fn sys_fseek(self, r: Result<HostAction>, after: EmulatorView) -> bool {
        match self.pop() {
            Err(e) => r == Err::<HostAction, Error>(e),
            Ok((origin, s1)) => match s1.pop() {
                Err(e) => r == Err::<HostAction, Error>(e),
                Ok((offset, s2)) => match s2.pop() {
                    Err(e) => r == Err::<HostAction, Error>(e),
                    Ok((h, s3)) => exists|position: Option<usize>, files: VfsView|
                        #[trigger] s3.files.sought(h as u8, offset, origin as u8, position, files) && agrees_step(
                            r,
                            continued(
                                s3.with_files(files).push(
                                    match position {
                                        Some(p) => p as i32,
                                        None => -1i32,
                                    },
                                ),
                            ),
                            after,
                        ),
                },
            },
        }
    }

    /// System call 51: a file position, or -1.
    pub open spec fn sys_ftell(self) -> Step<HostAction> {
        match self.pop() {
            Err(e) => Err(e),
            Ok((h, s)) => continued(s.push(match s.files.handle(h as u8) {
                Some(hv) => hv.offset as i32,
                None => -1i32,
            })),
        }
    }

    /// System call 52: whether a file is at its end (true is -1), or -1 for
    /// a bad handle.
    pub open spec fn sys_feof(self) -> Step<HostAction> {
        match self.pop() {
            Err(e) => Err(e),
            Ok((h, s)) => continued(s.push(match s.files.handle(h as u8) {
                Some(hv) => if s.files.file_map().contains_key(hv.path) {
                    spec_bool(hv.offset == s.files.file_map()[hv.path].data.len())
                } else {
                    -1i32
                },
                None => -1i32,
            })),
        }
    }

    /// System call 53: moves a file position to the start.
    pub open spec fn sys_rewind(self, r: Result<HostAction>, after: EmulatorView) -> bool {
        match self.pop() {
            Err(e) => r == Err::<HostAction, Error>(e),
            Ok((h, s)) => exists|ok: bool, files: VfsView|
                #[trigger] s.files.rewound(h as u8, ok, files) && r == Ok::<HostAction, Error>(HostAction::Continue) && after
                    == s.with_files(files),
        }
    }

    /// System call 54: the next byte of a file, or -1.
    pub open spec fn sys_getc(self, r: Result<HostAction>, after: EmulatorView) -> bool {
        match self.pop() {
            Err(e) => r == Err::<HostAction, Error>(e),
            Ok((h, s)) => if !s.files.read_in_bounds(h as u8) {
                r == Err::<HostAction, Error>(read_past_end())
            } else {
                exists|data: Option<Seq<u8>>, files: VfsView|
                    #[trigger] s.files.read_result(h as u8, 1, data, files) && agrees_step(
                        r,
                        continued(
                            s.with_files(files).push(
                                match data {
                                    Some(d) => if d.len() > 0 { d[0] as i32 } else { -1i32 },
                                    None => -1i32,
                                },
                            ),
                        ),
                        after,
                    )
            },
        }
    }

    /// System call 55: writes one byte to a file; returns it, or -1.
    pub open spec fn sys_putc(self, r: Result<HostAction>, after: EmulatorView) -> bool {
        match self.pop() {
            Err(e) => r == Err::<HostAction, Error>(e),
            Ok((h, s1)) => match s1.pop() {
                Err(e) => r == Err::<HostAction, Error>(e),
                Ok((v, s2)) => exists|written: Option<usize>, files: VfsView|
                    #[trigger] s2.files.written_result(h as u8, seq![v as u8], written, files) && agrees_step(
                        r,
                        continued(s2.with_files(files).push(if written == Some(1usize) { (v as u8) as i32 } else { -1i32 })),
                        after,
                    ),
            },
        }
    }

    /// System call 57: creates a directory (true is -1).
    pub open spec fn sys_makedir(self, r: Result<HostAction>, after: EmulatorView) -> bool {
        match self.pop_address() {
            Err(e) => r == Err::<HostAction, Error>(e),
            Ok((address, s)) => match s.c_string(address) {
                Err(e) => r == Err::<HostAction, Error>(e),
                Ok(path) => exists|created: bool, files: VfsView|
                    #[trigger] s.files.directory_created(gbk_decoded(path), created, files) && agrees_step(
                        r,
                        continued(s.with_files(files).push(spec_bool(created))),
                        after,
                    ),
            },
        }
    }

    /// System call 58: deletes a file or an empty directory (true is -1).
    pub open spec fn sys_delete(self, r: Result<HostAction>, after: EmulatorView) -> bool {
        match self.pop_address() {
            Err(e) => r == Err::<HostAction, Error>(e),
            Ok((address, s)) => match s.c_string(address) {
                Err(e) => r == Err::<HostAction, Error>(e),
                Ok(path) => exists|deleted: bool, files: VfsView|
                    #[trigger] s.files.deleted_result(gbk_decoded(path), deleted, files) && agrees_step(
                        r,
                        continued(s.with_files(files).push(spec_bool(deleted))),
                        after,
                    ),
            },
        }
    }

    /// System call 64: changes the current directory (true is -1).
    pub open spec fn sys_chdir(self, r: Result<HostAction>, after: EmulatorView) -> bool {
        match self.pop_address() {
            Err(e) => r == Err::<HostAction, Error>(e),
            Ok((address, s)) => match s.c_string(address) {
                Err(e) => r == Err::<HostAction, Error>(e),
                Ok(path) => exists|ok: bool, files: VfsView|
                    #[trigger] s.files.directory_changed(gbk_decoded(path), ok, files) && agrees_step(
                        r,
                        continued(s.with_files(files).push(spec_bool(ok))),
                        after,
                    ),
            },
        }
    }
}


/// `encoded` cut to `width - 1` bytes and padded with zeros to `width`.
pub open spec fn name_slot(encoded: Seq<u8>, width: int) -> Seq<u8> {
    let n = if encoded.len() < width - 1 { encoded.len() as int } else { width - 1 };
    encoded.take(n) + Seq::new((width - n) as nat, |_i: int| 0u8)
}

/// The GBK slots of `names`, one after another.
pub open spec fn name_slots(names: Seq<Seq<char>>, width: int) -> Seq<u8>
    decreases names.len(),
{
    if names.len() == 0 {
        seq![]
    } else {
        name_slots(names.drop_last(), width) + name_slot(gbk_encoded(names.last()), width)
    }
}

/// Up to `count` entries of `all` from position `index` on.
pub open spec fn window(all: Seq<Seq<char>>, index: int, count: int) -> Seq<Seq<char>> {
    let start = if index < all.len() { index } else { all.len() as int };
    let end = if index + count < all.len() { index + count } else { all.len() as int };
    all.subrange(start, end)
}

/// A flag pair that may open an extension filter.
pub open spec fn is_flag(a: char, b: char) -> bool {
    (a == '+' && (b == 'h' || b == 's')) || (a == '!' && (b == 'd' || b == 'f'))
}

/// A filter without its leading flag pairs.
pub open spec fn strip_flags(t: Seq<char>) -> Seq<char>
    decreases t.len(),
{
    if t.len() >= 2 && is_flag(t[0], t[1]) {
        strip_flags(t.skip(2))
    } else {
        t
    }
}

/// The parts of `t` between occurrences of `sep` (`str::split`), the
/// first one starting with `cur`.
pub open spec fn split_on(t: Seq<char>, sep: char, cur: Seq<char>) -> Seq<Seq<char>>
    decreases t.len(),
{
    if t.len() == 0 {
        seq![cur]
    } else if t[0] == sep {
        seq![cur] + split_on(t.drop_first(), sep, seq![])
    } else {
        split_on(t.drop_first(), sep, cur.push(t[0]))
    }
}

/// `t` without its leading dots.
pub open spec fn trim_dots(t: Seq<char>) -> Seq<char>
    decreases t.len(),
{
    if t.len() > 0 && t[0] == '.' {
        trim_dots(t.drop_first())
    } else {
        t
    }
}

pub open spec fn ascii_lower(c: char) -> char {
    if 'A' <= c <= 'Z' {
        ((c as u32) + 32) as char
    } else {
        c
    }
}

pub open spec fn lower_ascii(t: Seq<char>) -> Seq<char> {
    Seq::new(t.len(), |i: int| ascii_lower(t[i]))
}

/// The non-empty parts, without leading dots, in ASCII lower case.
pub open spec fn extension_list(parts: Seq<Seq<char>>) -> Seq<Seq<char>>
    decreases parts.len(),
{
    if parts.len() == 0 {
        seq![]
    } else {
        let rest = extension_list(parts.drop_last());
        if parts.last().len() == 0 {
            rest
        } else {
            rest.push(lower_ascii(trim_dots(parts.last())))
        }
    }
}

/// The extensions an extension filter names ("*" names none, which matches
/// everything): flag pairs "+h", "+s", "!d", "!f" are skipped, the rest is
/// a ';'-separated list.
pub open spec fn spec_parse_extensions(text: Seq<char>) -> Seq<Seq<char>> {
    let filters = strip_flags(text);
    if filters == seq!['*'] {
        seq![]
    } else {
        extension_list(split_on(filters, ';', seq![]))
    }
}

/// A name passes a filter when the filter is empty or the part after the
/// name's last dot is one of its extensions.
pub open spec fn spec_extension_matches(name: Seq<char>, extensions: Seq<Seq<char>>) -> bool {
    let i = last_index_of(name, '.');
    extensions.len() == 0 || (i >= 0 && extensions.contains(name.skip(i + 1)))
}

/// The names that pass a filter, in order.
pub open spec fn filtered(names: Seq<Seq<char>>, extensions: Seq<Seq<char>>) -> Seq<Seq<char>>
    decreases names.len(),
{
    if names.len() == 0 {
        seq![]
    } else {
        let rest = filtered(names.drop_last(), extensions);
        if spec_extension_matches(names.last(), extensions) {
            rest.push(names.last())
        } else {
            rest
        }
    }
}

/// The attribute block of a file: byte 0 zero, the size as a
/// little-endian 32-bit value, and the calendar three times (created,
/// modified, accessed).
pub open spec fn attributes(size: nat, calendar: Seq<u8>) -> Seq<u8> {
    seq![0u8] + crate::vm::bytes_u32(size as u32) + calendar + calendar + calendar
}

impl EmulatorView {
    /// The current directory as a path.
    pub open spec fn current_directory(self) -> Seq<char> {
        crate::path::join_abs(self.files.cwd)
    }

    /// System call 81: lists the current directory ("..", then its
    /// entries) into 16-byte slots from position `index` on; returns how
    /// many were written.
    pub open spec fn sys_findfile(self, r: Result<HostAction>, after: EmulatorView) -> bool {
        match self.pop_address() {
            Err(e) => r == Err::<HostAction, Error>(e),
            Ok((destination, s1)) => match s1.pop() {
                Err(e) => r == Err::<HostAction, Error>(e),
                Ok((c, s2)) => match s2.pop() {
                    Err(e) => r == Err::<HostAction, Error>(e),
                    Ok((i, s3)) => {
                        let count: int = if c < 0 { 0 } else { c as int };
                        let index: int = if i < 0 { 0 } else { i as int };
                        exists|names: Seq<Seq<char>>|
                            #[trigger] s3.files.listing(s3.current_directory(), names) && {
                                let chosen = window(seq![seq!['.', '.']] + names, index, count);
                                agrees_step(
                                    r,
                                    match s3.write_memory(destination, name_slots(chosen, 16)) {
                                        Err(e) => Err(e),
                                        Ok(t) => continued(t.push(chosen.len() as i32)),
                                    },
                                    after,
                                )
                            }
                    },
                },
            },
        }
    }

    /// System call 82: the number of entries of a directory, or -1.
    pub open spec fn sys_getfilenum(self) -> Step<HostAction> {
        match self.pop_address() {
            Err(e) => Err(e),
            Ok((address, s)) => match s.c_string(address) {
                Err(e) => Err(e),
                Ok(path) => continued(s.push(s.files.entry_count(gbk_decoded(path)))),
            },
        }
    }

    /// Extended function 29: like system call 81 for the entries of the
    /// current directory that pass an extension filter, without "..",
    /// into slots of a given width.
    pub open spec fn ext_findfile(self, r: Result<HostAction>, after: EmulatorView) -> bool {
        match self.pop_address() {
            Err(e) => r == Err::<HostAction, Error>(e),
            Ok((filter_address, s1)) => match s1.pop() {
                Err(e) => r == Err::<HostAction, Error>(e),
                Ok((w, s2)) => match s2.pop_address() {
                    Err(e) => r == Err::<HostAction, Error>(e),
                    Ok((destination, s3)) => match s3.pop() {
                        Err(e) => r == Err::<HostAction, Error>(e),
                        Ok((c, s4)) => match s4.pop() {
                            Err(e) => r == Err::<HostAction, Error>(e),
                            Ok((i, s5)) => match s5.c_string(filter_address) {
                                Err(e) => r == Err::<HostAction, Error>(e),
                                Ok(filter) => {
                                    let width: int = if w < 1 { 1 } else { w as int };
                                    let count: int = if c < 0 { 0 } else { c as int };
                                    let index: int = if i < 0 { 0 } else { i as int };
                                    let extensions = spec_parse_extensions(utf8_lossy(filter));
                                    exists|names: Seq<Seq<char>>|
                                        #[trigger] s5.files.listing(s5.current_directory(), names) && {
                                            let chosen = window(filtered(names, extensions), index, count);
                                            agrees_step(
                                                r,
                                                match s5.write_memory(destination, name_slots(chosen, width)) {
                                                    Err(e) => Err(e),
                                                    Ok(t) => continued(t.push(chosen.len() as i32)),
                                                },
                                                after,
                                            )
                                        }
                                },
                            },
                        },
                    },
                },
            },
        }
    }

    /// Extended function 30: the number of entries of a directory that pass
    /// an extension filter.
    pub open spec fn ext_getfilenum(self, r: Result<HostAction>, after: EmulatorView) -> bool {
        match self.pop_address() {
            Err(e) => r == Err::<HostAction, Error>(e),
            Ok((filter_address, s1)) => match s1.pop_address() {
                Err(e) => r == Err::<HostAction, Error>(e),
                Ok((path_address, s2)) => match s2.c_string(filter_address) {
                    Err(e) => r == Err::<HostAction, Error>(e),
                    Ok(filter) => match s2.c_string(path_address) {
                        Err(e) => r == Err::<HostAction, Error>(e),
                        Ok(path) => exists|names: Seq<Seq<char>>|
                            #[trigger] s2.files.listing(gbk_decoded(path), names) && agrees_step(
                                r,
                                continued(s2.push(filtered(names, spec_parse_extensions(utf8_lossy(filter))).len() as i32)),
                                after,
                            ),
                    },
                },
            },
        }
    }

    /// Extended function 33: writes a file's attribute block and returns 1,
    /// or returns 0 when there is no such file.
    pub open spec fn ext_file_attributes(self) -> Step<HostAction> {
        match self.pop_address() {
            Err(e) => Err(e),
            Ok((output, s1)) => match s1.pop_address() {
                Err(e) => Err(e),
                Ok((path_address, s2)) => match s2.c_string(path_address) {
                    Err(e) => Err(e),
                    Ok(path) => match s2.files.resolve_path(gbk_decoded(path)) {
                        Some(p) => if s2.files.file_map().contains_key(p) {
                            match s2.write_memory(output, attributes(s2.files.file_map()[p].data.len(), s2.calendar)) {
                                Err(e) => Err(e),
                                Ok(t) => continued(t.push(1)),
                            }
                        } else {
                            continued(s2.push(0))
                        },
                        None => continued(s2.push(0)),
                    },
                },
            },
        }
    }
}


/// Byte `i` of `data`, or 0 past its end.
pub open spec fn byte_at(data: Seq<u8>, i: int) -> u8 {
    if 0 <= i < data.len() {
        data[i]
    } else {
        0
    }
}

/// `n` output bytes of one FLM run starting at `output`: class 0 writes
/// (adds, for kind 2) 0, class 1 0xff, class 2 the next input byte each
/// time, class 3 the repeated byte.
pub open spec fn flm_run(
    vm: VmView,
    kind: u16,
    encoded: Seq<u8>,
    class: u8,
    repeated: u8,
    input: int,
    output: u32,
    n: nat,
) -> core::result::Result<VmView, Error>
    decreases n,
{
    if n == 0 {
        Ok(vm)
    } else {
        let delta: u8 = if class == 0 {
            0
        } else if class == 1 {
            0xff
        } else if class == 2 {
            byte_at(encoded, input)
        } else {
            repeated
        };
        let next_input = if class == 2 { input + 1 } else { input };
        let value: core::result::Result<u8, Error> = if kind == 2 {
            match vm.read_u8(output) {
                Err(e) => Err(e),
                Ok(b) => Ok(((b + delta) % 256) as u8),
            }
        } else {
            Ok(delta)
        };
        match value {
            Err(e) => Err(e),
            Ok(v) => match vm.write_bytes(output, seq![v]) {
                Err(e) => Err(e),
                Ok(vm2) => flm_run(vm2, kind, encoded, class, repeated, next_input, (output + 1) as u32, (n - 1) as nat),
            },
        }
    }
}

/// The FLM commands of `encoded` from `input` on, writing at `output`:
/// each command byte holds a run length (low 6 bits, 0 meaning 64) and a
/// class (top 2 bits); class 3 is followed by the byte to repeat.
pub open spec fn flm_commands(vm: VmView, kind: u16, encoded: Seq<u8>, input: int, output: u32) -> core::result::Result<VmView, Error>
    decreases encoded.len() - input,
{
    if input < 0 || input >= encoded.len() {
        Ok(vm)
    } else {
        let command = encoded[input];
        let low = (command & 0x3f) as int;
        let run: nat = if low == 0 { 64 } else { low as nat };
        let class = command >> 6u8;
        let repeated = if class == 3 { byte_at(encoded, input + 1) } else { 0 };
        let start = if class == 3 { input + 2 } else { input + 1 };
        let after = if class == 2 { start + run } else { start };
        match flm_run(vm, kind, encoded, class, repeated, start, output, run) {
            Err(e) => Err(e),
            Ok(vm2) => if after >= encoded.len() {
                Ok(vm2)
            } else {
                flm_commands(vm2, kind, encoded, after, (output + run) as u32)
            },
        }
    }
}

impl EmulatorView {
    /// Extended function 15: decodes an FLM block (a 16-bit header with
    /// the kind in its top 3 bits and the block length in the rest; kind 0
    /// is stored, other kinds run-length coded, kind 2 adding to memory).
    pub open spec fn ext_flm_decode(self) -> core::result::Result<EmulatorView, Error> {
        match self.pop() {
            Err(e) => Err(e),
            Ok((d, s1)) => match s1.pop() {
                Err(e) => Err(e),
                Ok((sv, s2)) => {
                    let destination = s2.guest_address(d);
                    let source = s2.guest_address(sv);
                    match s2.vm.read_u16(source) {
                        Err(e) => Err(e),
                        Ok(header) => {
                            let kind = header >> 13u16;
                            let length = (header & 0x1fff) as int;
                            if length < 2 {
                                Ok(s2)
                            } else {
                                match s2.memory_bytes((source + 2) as u32, (length - 2) as usize) {
                                    Err(e) => Err(e),
                                    Ok(encoded) => if kind == 0 {
                                        s2.write_memory(destination, encoded)
                                    } else {
                                        match flm_commands(s2.vm, kind, encoded, 0, destination) {
                                            Err(e) => Err(e),
                                            Ok(vm) => Ok(s2.with_vm(vm)),
                                        }
                                    },
                                }
                            }
                        },
                    }
                },
            },
        }
    }
}


/// The value of system call 59 at wall-clock time `ms`: the fraction of
/// the current second in 1/256 units.
pub open spec fn sub_second(ms: u32) -> i32 {
    (((ms % 1000) * 256) / 1000) as i32
}

/// GetTickCount at wall-clock time `ms`: milliseconds times 0.256,
/// wrapping at 32 bits.
pub open spec fn tick_count(ms: u32) -> i32 {
    ((((ms as int) * 256) % 0x1_0000_0000) / 1000) as i32
}

impl EmulatorView {
    /// Extended functions that only pop their arguments (and, for 15,
    /// decode an FLM block) and return a constant: 0 returns the LavaX
    /// signature, every other one 0.
    pub open spec fn ext_simple(self, function: i32) -> Step<HostAction> {
        let popped: core::result::Result<EmulatorView, Error> = if function == 1 || function == 6 || function == 8 {
            match self.pop_values(1) {
                Err(e) => Err(e),
                Ok((_v, s)) => Ok(s),
            }
        } else if (9 <= function <= 11) || function == 32 {
            match self.pop_values(2) {
                Err(e) => Err(e),
                Ok((_v, s)) => Ok(s),
            }
        } else if function == 12 || function == 20 {
            match self.pop_values(3) {
                Err(e) => Err(e),
                Ok((_v, s)) => Ok(s),
            }
        } else if function == 15 {
            self.ext_flm_decode()
        } else {
            Ok(self)
        };
        match popped {
            Err(e) => Err(e),
            Ok(s) => continued(s.push(if function == 0 { 0x4C000001 } else { 0 })),
        }
    }

    /// System call 83: the extended functions.
    pub open spec fn sys_extended(self, r: Result<HostAction>, after: EmulatorView) -> bool {
        match self.pop() {
            Err(e) => r == Err::<HostAction, Error>(e),
            Ok((function, s)) => if function == 29 {
                s.ext_findfile(r, after)
            } else if function == 30 {
                s.ext_getfilenum(r, after)
            } else if function == 33 {
                agrees_step(r, s.ext_file_attributes(), after)
            } else if function == 31 {
                exists|ms: u32| agrees_step(r, continued(s.started().push(#[trigger] tick_count(ms))), after)
            } else {
                agrees_step(r, s.ext_simple(function), after)
            },
        }
    }

    /// The machine once its clock has started: the first reading starts it.
    pub open spec fn started(self) -> EmulatorView {
        EmulatorView { clock_started: true, ..self }
    }

    /// System call 59: the fraction of the current second, by the clock
    /// that started at the machine's first reading.
    pub open spec fn sys_timer(self, r: Result<HostAction>, after: EmulatorView) -> bool {
        exists|ms: u32| agrees_step(r, continued(self.started().push(#[trigger] sub_second(ms))), after)
    }

    /// System call 84: single-precision functions, computed by the host
    /// (function 0 answers 0x100, unknown functions 0).
    pub open spec fn sys_math(self) -> Step<HostAction> {
        match self.pop() {
            Err(e) => Err(e),
            Ok((function, s)) => if function == 0 {
                continued(s.push(0x100))
            } else if (7 <= function <= 15) || function == 19 {
                match s.pop() {
                    Err(e) => Err(e),
                    Ok((argument, t)) => Ok((
                        HostAction::Request(crate::emulator::HostRequest::Math { function, argument }),
                        t,
                    )),
                }
            } else {
                continued(s.push(0))
            },
        }
    }
}

/// `std::time::Instant`, a reading of the monotonic clock; opaque here.
#[verifier::external_type_specification]
#[verifier::external_body]
pub struct ExInstant(std::time::Instant);

/// `Instant::now`: the current reading of the monotonic clock. It depends on
/// the time, so nothing is promised of it.
#[verifier::external_body]
fn clock_now() -> std::time::Instant {
    std::time::Instant::now()
}

/// `Instant::elapsed` of `start` in milliseconds, wrapping at 32 bits. It
/// depends on the time, so nothing is promised of it.
#[verifier::external_body]
fn clock_since(start: &std::time::Instant) -> u32 {
    start.elapsed().as_millis() as u32
}


/// The decimal digits of `n`.
pub open spec fn decimal_digits(n: nat) -> Seq<u8>
    decreases n,
{
    if n < 10 {
        seq![(n + 48) as u8]
    } else {
        decimal_digits(n / 10).push((n % 10 + 48) as u8)
    }
}

/// A number in decimal, with a minus sign when negative.
pub open spec fn decimal(v: int) -> Seq<u8> {
    if v < 0 {
        seq![45u8] + decimal_digits((-v) as nat)
    } else {
        decimal_digits(v as nat)
    }
}

pub open spec fn saturated(x: int) -> int {
    if x > usize::MAX {
        usize::MAX as int
    } else {
        x
    }
}

pub open spec fn is_digit(b: u8) -> bool {
    48 <= b <= 57
}

/// Where the decimal digits of `fmt` starting at `i` end.
pub open spec fn digits_end(fmt: Seq<u8>, i: int) -> int
    decreases fmt.len() - i,
{
    if 0 <= i < fmt.len() && is_digit(fmt[i]) {
        digits_end(fmt, i + 1)
    } else {
        i
    }
}

/// The value of the decimal digits of `fmt` from `i` on, saturating at
/// the largest `usize`, added to `acc` ten times over per digit.
pub open spec fn digits_value(fmt: Seq<u8>, i: int, acc: int) -> int
    decreases fmt.len() - i,
{
    if 0 <= i < fmt.len() && is_digit(fmt[i]) {
        digits_value(fmt, i + 1, saturated(saturated(acc * 10) + (fmt[i] - 48)))
    } else {
        acc
    }
}

pub proof fn lemma_digits_end(fmt: Seq<u8>, i: int)
    ensures
        digits_end(fmt, i) >= i,
    decreases fmt.len() - i,
{
    if 0 <= i < fmt.len() && is_digit(fmt[i]) {
        lemma_digits_end(fmt, i + 1);
    }
}

/// A conversion after the '%' at `i - 1`: left alignment ('-'), zero
/// padding ('0'), a width, the conversion character (0 at the end) and
/// where the format goes on.
pub open spec fn conversion(fmt: Seq<u8>, i: int) -> (bool, bool, int, u8, int) {
    let left = byte_at(fmt, i) == 45;
    let i2 = if left { i + 1 } else { i };
    let zero = byte_at(fmt, i2) == 48;
    let i3 = if zero { i2 + 1 } else { i2 };
    let width = digits_value(fmt, i3, 0);
    let i4 = digits_end(fmt, i3);
    let specifier = byte_at(fmt, i4);
    (left, zero, width, specifier, if specifier != 0 { i4 + 1 } else { i4 })
}

/// `text` padded to `width` with spaces (or zeros), on the left unless
/// left-aligned.
pub open spec fn padded(text: Seq<u8>, width: int, left: bool, zero: bool) -> Seq<u8> {
    if width > text.len() {
        let pad = Seq::new((width - text.len()) as nat, |_i: int| if zero { 48u8 } else { 32u8 });
        if left {
            text + pad
        } else {
            pad + text
        }
    } else {
        text
    }
}

pub open spec fn text_at(texts: Seq<Seq<u8>>, i: int) -> Seq<u8> {
    if 0 <= i < texts.len() {
        texts[i]
    } else {
        seq![]
    }
}

pub open spec fn value_at(values: Seq<i32>, i: int) -> i32 {
    if 0 <= i < values.len() {
        values[i]
    } else {
        0
    }
}

/// `prefix` in front of a result.
pub open spec fn after_prefix(prefix: Seq<u8>, r: core::result::Result<Seq<u8>, Error>) -> core::result::Result<Seq<u8>, Error> {
    match r {
        Ok(rest) => Ok(prefix + rest),
        Err(e) => Err(e),
    }
}

/// The values that `%f` conversions of `fmt` take, in order, from `index`
/// on (the `vi`-th value next).
pub open spec fn float_values(fmt: Seq<u8>, values: Seq<i32>, index: int, vi: int) -> Seq<i32>
    decreases fmt.len() - index,
{
    if index < 0 || index >= fmt.len() {
        seq![]
    } else if fmt[index] != 37 {
        float_values(fmt, values, index + 1, vi)
    } else if byte_at(fmt, index + 1) == 37 {
        float_values(fmt, values, index + 2, vi)
    } else {
        let (_left, _zero, _width, specifier, next) = conversion(fmt, index + 1);
        proof {
            lemma_digits_end(fmt, index + 1);
            lemma_digits_end(fmt, index + 2);
            lemma_digits_end(fmt, index + 3);
        }
        let vi2 = if specifier != 37 { vi + 1 } else { vi };
        if specifier == 0 {
            seq![]
        } else if specifier == 102 {
            seq![value_at(values, vi)] + float_values(fmt, values, next, vi2)
        } else {
            float_values(fmt, values, next, vi2)
        }
    }
}

impl EmulatorView {
    /// `printf` formatting of `values` by `fmt` from `index` on: `%d`
    /// decimal, `%f` the host's text (the `fi`-th), `%c` a byte, `%s` a
    /// guest string, `%%` a percent sign, any other character itself; an
    /// optional '-', '0' and width pad the conversion.
    pub open spec fn format_from(
        self,
        fmt: Seq<u8>,
        values: Seq<i32>,
        texts: Seq<Seq<u8>>,
        index: int,
        vi: int,
        fi: int,
    ) -> core::result::Result<Seq<u8>, Error>
        decreases fmt.len() - index,
    {
        if index < 0 || index >= fmt.len() {
            Ok(seq![])
        } else if fmt[index] != 37 {
            after_prefix(seq![fmt[index]], self.format_from(fmt, values, texts, index + 1, vi, fi))
        } else if byte_at(fmt, index + 1) == 37 {
            after_prefix(seq![37u8], self.format_from(fmt, values, texts, index + 2, vi, fi))
        } else {
            let (left, zero, width, specifier, next) = conversion(fmt, index + 1);
            proof {
                lemma_digits_end(fmt, index + 1);
                lemma_digits_end(fmt, index + 2);
                lemma_digits_end(fmt, index + 3);
            }
            let value = value_at(values, vi);
            let vi2 = if specifier != 37 { vi + 1 } else { vi };
            let fi2 = if specifier == 102 { fi + 1 } else { fi };
            if specifier == 0 {
                Ok(seq![])
            } else {
                match self.rendered(specifier, value, texts, fi) {
                    Err(e) => Err(e),
                    Ok(t) => after_prefix(padded(t, width, left, zero), self.format_from(fmt, values, texts, next, vi2, fi2)),
                }
            }
        }
    }

    /// The text of one conversion.
    pub open spec fn rendered(self, specifier: u8, value: i32, texts: Seq<Seq<u8>>, fi: int) -> core::result::Result<Seq<u8>, Error> {
        if specifier == 100 {
            Ok(decimal(value as int))
        } else if specifier == 102 {
            Ok(text_at(texts, fi))
        } else if specifier == 99 {
            Ok(seq![value as u8])
        } else if specifier == 115 {
            self.c_string(self.guest_address(value))
        } else {
            Ok(seq![specifier])
        }
    }

    /// The format string and values of format arguments (the format's
    /// address first).
    pub open spec fn format_string(self, arguments: Seq<i32>) -> core::result::Result<Seq<u8>, Error> {
        self.c_string(self.guest_address(arguments[0]))
    }

    /// The output of formatting `arguments` with the host's `%f` texts.
    pub open spec fn formatted(self, arguments: Seq<i32>, texts: Seq<Seq<u8>>) -> core::result::Result<Seq<u8>, Error> {
        if arguments.len() == 0 {
            Ok(seq![])
        } else {
            self.formatted_from_string(arguments, texts)
        }
    }

    /// The output of formatting non-empty `arguments`.
    pub open spec fn formatted_from_string(self, arguments: Seq<i32>, texts: Seq<Seq<u8>>) -> core::result::Result<Seq<u8>, Error> {
        match self.format_string(arguments) {
            Err(e) => Err(e),
            Ok(fmt) => self.format_from(fmt, arguments.skip(1), texts, 0, 0, 0),
        }
    }

    /// The values whose `%f` text the host must supply.
    pub open spec fn float_list(self, arguments: Seq<i32>) -> core::result::Result<Seq<i32>, Error> {
        if arguments.len() == 0 {
            Ok(seq![])
        } else {
            match self.format_string(arguments) {
                Err(e) => Err(e),
                Ok(fmt) => Ok(float_values(fmt, arguments.skip(1), 0, 0)),
            }
        }
    }

    /// Formats and delivers the text: to the console (then shown), or to
    /// memory with a terminator.
    pub open spec fn emit(self, target: FormatTarget, arguments: Seq<i32>, texts: Seq<Seq<u8>>) -> Step<HostAction> {
        match self.formatted(arguments, texts) {
            Err(e) => Err(e),
            Ok(out) => match target {
                FormatTarget::Console => {
                    let console = self.console.write_all(out);
                    Ok((HostAction::Continue, EmulatorView { console, display: render(self.display, console), ..self }))
                },
                FormatTarget::Memory(d) => match self.write_memory(d, out) {
                    Err(e) => Err(e),
                    Ok(t) => continued(t.write_memory((d + out.len()) as u32, seq![0u8])),
                },
            },
        }
    }

    /// Starts a format: at once when there is no `%f`, else after asking
    /// the host for the first `%f` text.
    pub open spec fn begin_format(self, target: FormatTarget, arguments: Seq<i32>) -> Step<HostAction> {
        match self.float_list(arguments) {
            Err(e) => Err(e),
            Ok(floats) => if floats.len() == 0 {
                self.emit(target, arguments, seq![])
            } else {
                Ok((
                    HostAction::Request(HostRequest::FloatText(floats[0])),
                    EmulatorView { pending_format: Some(FormatView { target, arguments, texts: seq![] }), ..self },
                ))
            },
        }
    }

    /// Pops a count and then that many values.
    pub open spec fn pop_variadic(self) -> Step<Seq<i32>> {
        match self.pop() {
            Err(e) => Err(e),
            Ok((c, s)) => s.pop_values(if c < 0 { 0 } else { c as nat }),
        }
    }

    /// System call 2: formats to the console.
    pub open spec fn sys_printf(self) -> Step<HostAction> {
        match self.pop_variadic() {
            Err(e) => Err(e),
            Ok((arguments, s)) => if arguments.len() == 0 {
                Ok((HostAction::Continue, s))
            } else {
                s.begin_format(FormatTarget::Console, arguments)
            },
        }
    }

    /// System call 56: formats to memory (the destination first).
    pub open spec fn sys_sprintf(self) -> Step<HostAction> {
        match self.pop_variadic() {
            Err(e) => Err(e),
            Ok((arguments, s)) => if arguments.len() < 2 {
                Ok((HostAction::Continue, s))
            } else {
                s.begin_format(FormatTarget::Memory(s.guest_address(arguments[0])), arguments.skip(1))
            },
        }
    }

    /// Goes on with a pending format once the host supplies a `%f` text.
    pub open spec fn continue_format(self, text: Seq<u8>) -> Step<HostAction> {
        match self.pending_format {
            None => Err(Error::UnsupportedFeature("no pending format")),
            Some(f) => {
                let texts = f.texts.push(text);
                match self.float_list(f.arguments) {
                    Err(e) => Err(e),
                    Ok(floats) => if texts.len() < floats.len() {
                        Ok((
                            HostAction::Request(HostRequest::FloatText(floats[texts.len() as int])),
                            EmulatorView { pending_format: Some(FormatView { texts, ..f }), ..self },
                        ))
                    } else {
                        EmulatorView { pending_format: None, ..self }.emit(f.target, f.arguments, texts)
                    },
                }
            },
        }
    }
}


impl EmulatorView {
    /// Pops and discards `count` values.
    pub open spec fn discard(self, count: nat) -> core::result::Result<EmulatorView, Error> {
        match self.pop_values(count) {
            Err(e) => Err(e),
            Ok((_v, s)) => Ok(s),
        }
    }

    /// What system call `call` (0 to 86) returns and leaves behind.
    pub open spec fn system_call(self, call: u8, r: Result<HostAction>, after: EmulatorView) -> bool {
        if call == 0 {
            agrees_step(r, self.sys_putchar(), after)
        } else if call == 1 {
            agrees_step(r, self.sys_getchar(), after)
        } else if call == 2 {
            agrees_step(r, self.sys_printf(), after)
        } else if call == 3 {
            agrees_step(r, self.sys_strcpy(), after)
        } else if call == 4 {
            agrees_step(r, self.sys_strlen(), after)
        } else if call == 5 {
            agrees_step(r, self.sys_setscreen(), after)
        } else if call == 6 {
            agrees_step(r, self.sys_update_lcd(), after)
        } else if call == 7 {
            agrees_step(r, self.sys_delay(), after)
        } else if call == 8 {
            agrees_step(r, self.sys_write_block(), after)
        } else if call == 9 {
            agrees_step(
                r,
                Ok((HostAction::Continue, self.with_display(DisplayView { front: self.display.back, ..self.display }))),
                after,
            )
        } else if call == 10 {
            agrees_step(r, self.sys_textout(), after)
        } else if call == 11 || call == 12 {
            agrees_step(r, self.sys_rectangle(call == 11), after)
        } else if call == 13 {
            agrees_step(r, self.sys_exit(), after)
        } else if call == 14 {
            agrees_step(
                r,
                Ok((
                    HostAction::Continue,
                    self.with_display(
                        self.display.with_buffer(BufferTarget::Back, crate::display::filled(self.display.area(), self.display.clear_color())),
                    ),
                )),
                after,
            )
        } else if call == 15 {
            agrees_step(r, self.map_top(|v: i32| spec_wrapping_abs(v)), after)
        } else if call == 16 {
            agrees_step(r, self.sys_rand(), after)
        } else if call == 17 {
            match self.pop() {
                Err(e) => r == Err::<HostAction, Error>(e),
                Ok((v, s)) => r == Ok::<HostAction, Error>(HostAction::Continue) && after == EmulatorView { random_seed: v, ..s },
            }
        } else if call == 18 {
            agrees_step(r, self.sys_locate(), after)
        } else if call == 19 {
            agrees_step(r, self.sys_inkey(), after)
        } else if call == 20 {
            agrees_step(r, self.sys_point(), after)
        } else if call == 21 {
            agrees_step(r, self.sys_getpoint(), after)
        } else if call == 22 {
            agrees_step(r, self.sys_line(), after)
        } else if call == 23 {
            agrees_step(r, self.sys_box(), after)
        } else if call == 24 || call == 25 {
            agrees_step(r, self.sys_ellipse(call == 24), after)
        } else if call == 26 {
            r == Ok::<HostAction, Error>(HostAction::Continue) && after == self
        } else if 27 <= call <= 37 {
            agrees_step(r, self.sys_ctype(call), after)
        } else if call == 38 {
            agrees_step(r, self.sys_strcat(), after)
        } else if call == 39 {
            agrees_step(r, self.sys_strchr(), after)
        } else if call == 40 {
            agrees_step(r, self.sys_string_compare(), after)
        } else if call == 41 {
            agrees_step(r, self.sys_strstr(), after)
        } else if call == 42 || call == 43 {
            agrees_step(r, self.sys_case(call == 43), after)
        } else if call == 44 {
            agrees_step(r, self.sys_memset(), after)
        } else if call == 45 || call == 61 {
            agrees_step(r, self.sys_memcpy(), after)
        } else if call == 46 {
            self.sys_fopen(r, after)
        } else if call == 47 {
            self.sys_fclose(r, after)
        } else if call == 48 {
            self.sys_fread(r, after)
        } else if call == 49 {
            self.sys_fwrite(r, after)
        } else if call == 50 {
            self.sys_fseek(r, after)
        } else if call == 51 {
            agrees_step(r, self.sys_ftell(), after)
        } else if call == 52 {
            agrees_step(r, self.sys_feof(), after)
        } else if call == 53 {
            self.sys_rewind(r, after)
        } else if call == 54 {
            self.sys_getc(r, after)
        } else if call == 55 {
            self.sys_putc(r, after)
        } else if call == 56 {
            agrees_step(r, self.sys_sprintf(), after)
        } else if call == 57 {
            self.sys_makedir(r, after)
        } else if call == 58 {
            self.sys_delete(r, after)
        } else if call == 59 {
            self.sys_timer(r, after)
        } else if call == 60 {
            agrees_step(r, self.sys_checkkey(), after)
        } else if call == 62 {
            agrees_step(r, self.sys_crc16(), after)
        } else if call == 63 {
            agrees_step(r, self.sys_xor(), after)
        } else if call == 64 {
            self.sys_chdir(r, after)
        } else if call == 65 {
            agrees_step(r, match self.discard(1) {
                Err(e) => Err(e),
                Ok(s) => continued(s.push(0)),
            }, after)
        } else if call == 66 {
            agrees_step(r, self.sys_gettime(), after)
        } else if call == 67 {
            agrees_step(r, self.sys_settime(), after)
        } else if call == 68 {
            agrees_step(r, match self.discard(1) {
                Err(e) => Err(e),
                Ok(s) => s.sys_getchar(),
            }, after)
        } else if call == 69 {
            agrees_step(r, self.sys_transform(), after)
        } else if call == 70 {
            agrees_step(r, self.sys_releasekey(), after)
        } else if call == 71 {
            agrees_step(r, self.sys_getblock(), after)
        } else if call == 72 || call == 73 {
            agrees_step(r, self.sys_trig(call == 72), after)
        } else if call == 74 || call == 78 {
            agrees_step(r, match self.discard(if call == 74 { 3 } else { 2 }) {
                Err(e) => Err(e),
                Ok(s) => Ok((HostAction::Continue, s)),
            }, after)
        } else if call == 75 {
            agrees_step(r, self.sys_set_graphics_mode(), after)
        } else if call == 76 || call == 77 || call == 79 {
            match self.pop() {
                Err(e) => r == Err::<HostAction, Error>(e),
                Ok((v, s)) => {
                    let d = s.display;
                    let color = (v as u8) & d.max_color();
                    let display = if call == 76 {
                        DisplayView { background: color, ..d }
                    } else if call == 77 {
                        DisplayView { foreground: color, ..d }
                    } else {
                        d.fade(v as u8)
                    };
                    r == Ok::<HostAction, Error>(HostAction::Continue) && after == s.with_display(display)
                },
            }
        } else if call == 80 {
            agrees_step(r, match self.discard(3) {
                Err(e) => Err(e),
                Ok(s) => continued(s.push(-1i32)),
            }, after)
        } else if call == 81 {
            self.sys_findfile(r, after)
        } else if call == 82 {
            agrees_step(r, self.sys_getfilenum(), after)
        } else if call == 83 {
            self.sys_extended(r, after)
        } else if call == 84 {
            agrees_step(r, self.sys_math(), after)
        } else if call == 85 {
            agrees_step(r, self.sys_setpalette(), after)
        } else {
            agrees_step(r, self.sys_getcmdline(), after)
        }
    }
}

impl Emulator {
    /// Milliseconds since the machine first read its clock, wrapping at 32
    /// bits; the first reading starts the clock.
    fn clock_ms(&mut self) -> (ms: u32)
        requires
            old(self).inv(),
        ensures
            final(self).inv(),
            final(self)@ == old(self)@.started(),
    {
        let start = match self.clock_start {
            Some(start) => start,
            None => {
                let now = clock_now();
                self.clock_start = Some(now);
                now
            },
        };
        clock_since(&start)
    }

    fn system_putchar(&mut self) -> (r: Result<HostAction>)
        requires
            old(self).inv(),
        ensures
            final(self).inv(),
            final(self)@.elapsed_ms == old(self)@.elapsed_ms,
            final(self)@.time_remainder == old(self)@.time_remainder,
            r is Ok ==> final(self)@.vm.instructions_executed == old(self)@.vm.instructions_executed,
            agrees_step(r, old(self)@.sys_putchar(), final(self)@),
    {
        let value = self.pop_value()?;
        self.console.write(value as u8);
        self.console.render(&mut self.display);
        Ok(HostAction::Continue)
    }

    fn system_getchar(&mut self) -> (r: Result<HostAction>)
        requires
            old(self).inv(),
        ensures
            final(self).inv(),
            final(self)@.elapsed_ms == old(self)@.elapsed_ms,
            final(self)@.time_remainder == old(self)@.time_remainder,
            r is Ok ==> final(self)@.vm.instructions_executed == old(self)@.vm.instructions_executed,
            agrees_step(r, old(self)@.sys_getchar(), final(self)@),
    {
        match self.pending_input_value() {
            Some(value) => {
                self.push_value(value)?;
                Ok(HostAction::Continue)
            },
            None => {
                self.waiting_for_key = true;
                Ok(HostAction::WaitForInput)
            },
        }
    }

    fn system_strcpy(&mut self) -> (r: Result<HostAction>)
        requires
            old(self).inv(),
        ensures
            final(self).inv(),
            final(self)@.elapsed_ms == old(self)@.elapsed_ms,
            final(self)@.time_remainder == old(self)@.time_remainder,
            r is Ok ==> final(self)@.vm.instructions_executed == old(self)@.vm.instructions_executed,
            agrees_step(r, old(self)@.sys_strcpy(), final(self)@),
    {
        let source = self.pop_guest_address()?;
        let destination = self.pop_guest_address()?;
        let mut data = self.read_c_bytes(source)?;
        data.push(0);
        self.write_memory(destination, data.as_slice())?;
        Ok(HostAction::Continue)
    }

    fn system_strlen(&mut self) -> (r: Result<HostAction>)
        requires
            old(self).inv(),
        ensures
            final(self).inv(),
            final(self)@.elapsed_ms == old(self)@.elapsed_ms,
            final(self)@.time_remainder == old(self)@.time_remainder,
            r is Ok ==> final(self)@.vm.instructions_executed == old(self)@.vm.instructions_executed,
            agrees_step(r, old(self)@.sys_strlen(), final(self)@),
    {
        let address = self.pop_guest_address()?;
        let length = self.read_c_bytes(address)?.len();
        self.push_value(length as i32)?;
        Ok(HostAction::Continue)
    }

    fn system_setscreen(&mut self) -> (r: Result<HostAction>)
        requires
            old(self).inv(),
        ensures
            final(self).inv(),
            final(self)@.elapsed_ms == old(self)@.elapsed_ms,
            final(self)@.time_remainder == old(self)@.time_remainder,
            r is Ok ==> final(self)@.vm.instructions_executed == old(self)@.vm.instructions_executed,
            agrees_step(r, old(self)@.sys_setscreen(), final(self)@),
    {
        let small = self.pop_value()? & 0xff != 0;
        let width = self.display.width();
        let height = self.display.height();
        self.console.set_mode(width, height, small);
        Ok(HostAction::Continue)
    }

    fn system_update_lcd(&mut self) -> (r: Result<HostAction>)
        requires
            old(self).inv(),
        ensures
            final(self).inv(),
            final(self)@.elapsed_ms == old(self)@.elapsed_ms,
            final(self)@.time_remainder == old(self)@.time_remainder,
            r is Ok ==> final(self)@.vm.instructions_executed == old(self)@.vm.instructions_executed,
            agrees_step(r, old(self)@.sys_update_lcd(), final(self)@),
    {
        self.pop_value()?;
        self.console.render(&mut self.display);
        Ok(HostAction::Present)
    }

    fn system_delay(&mut self) -> (r: Result<HostAction>)
        requires
            old(self).inv(),
        ensures
            final(self).inv(),
            final(self)@.elapsed_ms == old(self)@.elapsed_ms,
            final(self)@.time_remainder == old(self)@.time_remainder,
            r is Ok ==> final(self)@.vm.instructions_executed == old(self)@.vm.instructions_executed,
            agrees_step(r, old(self)@.sys_delay(), final(self)@),
    {
        let raw = self.pop_value()?;
        let masked = raw & 0x7fff;
        assert(0 <= masked <= 0x7fff) by (bit_vector)
            requires
                masked == raw & 0x7fff,
        ;
        let milliseconds = masked as u32;
        self.delay_remaining_ticks = milliseconds * 256 / 1000;
        if self.delay_remaining_ticks == 0 {
            Ok(HostAction::Continue)
        } else {
            Ok(HostAction::Delay)
        }
    }

    fn system_textout(&mut self) -> (r: Result<HostAction>)
        requires
            old(self).inv(),
        ensures
            final(self).inv(),
            final(self)@.elapsed_ms == old(self)@.elapsed_ms,
            final(self)@.time_remainder == old(self)@.time_remainder,
            r is Ok ==> final(self)@.vm.instructions_executed == old(self)@.vm.instructions_executed,
            agrees_step(r, old(self)@.sys_textout(), final(self)@),
    {
        let mode = self.pop_value()? as u8;
        let address = self.pop_guest_address()?;
        let y = coordinate(self.pop_value()?);
        let x = coordinate(self.pop_value()?);
        let text = self.read_c_bytes(address)?;
        let operation = if mode & 0x0f == 2 {
            DrawOperation::Invert
        } else {
            DrawOperation::Draw
        };
        self.display.draw_text(target_from_flag(mode, true), x, y, text.as_slice(), mode & 0x80 != 0, operation);
        Ok(HostAction::Continue)
    }

    fn pop_corners(&mut self) -> (r: Result<(i32, i32, i32, i32)>)
        requires
            old(self).inv(),
        ensures
            final(self).inv(),
            final(self)@.elapsed_ms == old(self)@.elapsed_ms,
            final(self)@.time_remainder == old(self)@.time_remainder,
            r is Ok ==> final(self)@.vm.instructions_executed == old(self)@.vm.instructions_executed,
            agrees_step(r, old(self)@.pop_corners(), final(self)@),
    {
        let w = self.display.width() as i32;
        let h = self.display.height() as i32;
        let y1 = block_clamp(coordinate(self.pop_value()?), h);
        let x1 = block_clamp(coordinate(self.pop_value()?), w);
        let y0 = block_clamp(coordinate(self.pop_value()?), h);
        let x0 = block_clamp(coordinate(self.pop_value()?), w);
        Ok((x0, y0, x1, y1))
    }

    fn system_rectangle(&mut self, filled: bool) -> (r: Result<HostAction>)
        requires
            old(self).inv(),
        ensures
            final(self).inv(),
            final(self)@.elapsed_ms == old(self)@.elapsed_ms,
            final(self)@.time_remainder == old(self)@.time_remainder,
            r is Ok ==> final(self)@.vm.instructions_executed == old(self)@.vm.instructions_executed,
            agrees_step(r, old(self)@.sys_rectangle(filled), final(self)@),
    {
        let mode = self.pop_value()?;
        let (x0, y0, x1, y1) = self.pop_corners()?;
        self.display.draw_rectangle(target_from_flag(mode as u8, true), x0, y0, x1, y1, filled, DrawOperation::from_lava(mode));
        Ok(HostAction::Continue)
    }

    fn system_exit(&mut self) -> (r: Result<HostAction>)
        requires
            old(self).inv(),
        ensures
            final(self).inv(),
            final(self)@.elapsed_ms == old(self)@.elapsed_ms,
            final(self)@.time_remainder == old(self)@.time_remainder,
            r is Ok ==> final(self)@.vm.instructions_executed == old(self)@.vm.instructions_executed,
            agrees_step(r, old(self)@.sys_exit(), final(self)@),
    {
        let code = self.pop_value()?;
        self.vm.halt(code);
        Ok(HostAction::Halt(code))
    }

    fn system_abs(&mut self) -> (r: Result<HostAction>)
        requires
            old(self).inv(),
        ensures
            final(self).inv(),
            final(self)@.elapsed_ms == old(self)@.elapsed_ms,
            final(self)@.time_remainder == old(self)@.time_remainder,
            r is Ok ==> final(self)@.vm.instructions_executed == old(self)@.vm.instructions_executed,
            agrees_step(r, old(self)@.map_top(|v: i32| spec_wrapping_abs(v)), final(self)@),
    {
        let v = self.pop_value()?;
        let value = if v == i32::MIN {
            i32::MIN
        } else if v < 0 {
            -v
        } else {
            v
        };
        self.push_value(value)?;
        Ok(HostAction::Continue)
    }

    fn system_rand(&mut self) -> (r: Result<HostAction>)
        requires
            old(self).inv(),
        ensures
            final(self).inv(),
            final(self)@.elapsed_ms == old(self)@.elapsed_ms,
            final(self)@.time_remainder == old(self)@.time_remainder,
            r is Ok ==> final(self)@.vm.instructions_executed == old(self)@.vm.instructions_executed,
            agrees_step(r, old(self)@.sys_rand(), final(self)@),
    {
        self.random_seed = self.random_seed.wrapping_mul(0x015a_4e35).wrapping_add(1);
        let value = (self.random_seed >> 16i32) & 0x7fff;
        self.push_value(value)?;
        Ok(HostAction::Continue)
    }

    fn system_srand(&mut self) -> (r: Result<HostAction>)
        requires
            old(self).inv(),
        ensures
            final(self).inv(),
            final(self)@.elapsed_ms == old(self)@.elapsed_ms,
            final(self)@.time_remainder == old(self)@.time_remainder,
            r is Ok ==> final(self)@.vm.instructions_executed == old(self)@.vm.instructions_executed,
            match old(self)@.pop() {
                Err(e) => r == Err::<HostAction, Error>(e),
                Ok((v, s)) => r == Ok::<HostAction, Error>(HostAction::Continue) && final(self)@ == (EmulatorView { random_seed: v, ..s }),
            },
    {
        self.random_seed = self.pop_value()?;
        Ok(HostAction::Continue)
    }

    fn system_locate(&mut self) -> (r: Result<HostAction>)
        requires
            old(self).inv(),
        ensures
            final(self).inv(),
            final(self)@.elapsed_ms == old(self)@.elapsed_ms,
            final(self)@.time_remainder == old(self)@.time_remainder,
            r is Ok ==> final(self)@.vm.instructions_executed == old(self)@.vm.instructions_executed,
            agrees_step(r, old(self)@.sys_locate(), final(self)@),
    {
        let x = self.pop_value()? as usize;
        let y = self.pop_value()? as usize;
        self.console.locate(x, y);
        Ok(HostAction::Continue)
    }

    fn system_inkey(&mut self) -> (r: Result<HostAction>)
        requires
            old(self).inv(),
        ensures
            final(self).inv(),
            final(self)@.elapsed_ms == old(self)@.elapsed_ms,
            final(self)@.time_remainder == old(self)@.time_remainder,
            r is Ok ==> final(self)@.vm.instructions_executed == old(self)@.vm.instructions_executed,
            agrees_step(r, old(self)@.sys_inkey(), final(self)@),
    {
        let key = match self.input.pop_key() {
            Some(k) => k as i32,
            None => 0,
        };
        self.push_value(key)?;
        Ok(HostAction::Continue)
    }

    fn system_point(&mut self) -> (r: Result<HostAction>)
        requires
            old(self).inv(),
        ensures
            final(self).inv(),
            final(self)@.elapsed_ms == old(self)@.elapsed_ms,
            final(self)@.time_remainder == old(self)@.time_remainder,
            r is Ok ==> final(self)@.vm.instructions_executed == old(self)@.vm.instructions_executed,
            agrees_step(r, old(self)@.sys_point(), final(self)@),
    {
        let mode = self.pop_value()?;
        let y = coordinate(self.pop_value()?);
        let x = coordinate(self.pop_value()?);
        self.display.draw_pixel(target_from_flag(mode as u8, false), x, y, DrawOperation::from_lava(mode));
        Ok(HostAction::Continue)
    }

    fn system_getpoint(&mut self) -> (r: Result<HostAction>)
        requires
            old(self).inv(),
        ensures
            final(self).inv(),
            final(self)@.elapsed_ms == old(self)@.elapsed_ms,
            final(self)@.time_remainder == old(self)@.time_remainder,
            r is Ok ==> final(self)@.vm.instructions_executed == old(self)@.vm.instructions_executed,
            agrees_step(r, old(self)@.sys_getpoint(), final(self)@),
    {
        let y = coordinate(self.pop_value()?);
        let x = coordinate(self.pop_value()?);
        let value = match self.display.get_pixel(BufferTarget::Front, x, y) {
            Some(p) => p as i32,
            None => 0,
        };
        self.push_value(value)?;
        Ok(HostAction::Continue)
    }

    fn system_line(&mut self) -> (r: Result<HostAction>)
        requires
            old(self).inv(),
        ensures
            final(self).inv(),
            final(self)@.elapsed_ms == old(self)@.elapsed_ms,
            final(self)@.time_remainder == old(self)@.time_remainder,
            r is Ok ==> final(self)@.vm.instructions_executed == old(self)@.vm.instructions_executed,
            agrees_step(r, old(self)@.sys_line(), final(self)@),
    {
        let mode = self.pop_value()?;
        let y1 = coordinate(self.pop_value()?);
        let x1 = coordinate(self.pop_value()?);
        let y0 = coordinate(self.pop_value()?);
        let x0 = coordinate(self.pop_value()?);
        self.display.draw_line(target_from_flag(mode as u8, false), x0, y0, x1, y1, DrawOperation::from_lava(mode));
        Ok(HostAction::Continue)
    }

    fn system_box(&mut self) -> (r: Result<HostAction>)
        requires
            old(self).inv(),
        ensures
            final(self).inv(),
            final(self)@.elapsed_ms == old(self)@.elapsed_ms,
            final(self)@.time_remainder == old(self)@.time_remainder,
            r is Ok ==> final(self)@.vm.instructions_executed == old(self)@.vm.instructions_executed,
            agrees_step(r, old(self)@.sys_box(), final(self)@),
    {
        let mode = self.pop_value()?;
        let filled = self.pop_value()? != 0;
        let (x0, y0, x1, y1) = self.pop_corners()?;
        self.display.draw_rectangle(BufferTarget::Front, x0, y0, x1, y1, filled, DrawOperation::from_lava(mode));
        Ok(HostAction::Continue)
    }

    fn system_ellipse(&mut self, circle: bool) -> (r: Result<HostAction>)
        requires
            old(self).inv(),
        ensures
            final(self).inv(),
            final(self)@.elapsed_ms == old(self)@.elapsed_ms,
            final(self)@.time_remainder == old(self)@.time_remainder,
            r is Ok ==> final(self)@.vm.instructions_executed == old(self)@.vm.instructions_executed,
            agrees_step(r, old(self)@.sys_ellipse(circle), final(self)@),
    {
        let mode = self.pop_value()?;
        let filled = self.pop_value()? != 0;
        let r1 = self.pop_value()? as u16;
        let r0 = if circle {
            r1
        } else {
            self.pop_value()? as u16
        };
        let y = coordinate(self.pop_value()?);
        let x = coordinate(self.pop_value()?);
        self.display.draw_ellipse(target_from_flag(mode as u8, false), x, y, r0, r1, filled, DrawOperation::from_lava(mode));
        Ok(HostAction::Continue)
    }

    fn system_ctype(&mut self, call: u8) -> (r: Result<HostAction>)
        requires
            old(self).inv(),
        ensures
            final(self).inv(),
            final(self)@.elapsed_ms == old(self)@.elapsed_ms,
            final(self)@.time_remainder == old(self)@.time_remainder,
            r is Ok ==> final(self)@.vm.instructions_executed == old(self)@.vm.instructions_executed,
            agrees_step(r, old(self)@.sys_ctype(call), final(self)@),
    {
        let c = self.pop_value()? as u8;
        let digit = 48 <= c && c <= 57;
        let upper = 65 <= c && c <= 90;
        let lower = 97 <= c && c <= 122;
        let graphic = 33 <= c && c <= 126;
        let matches = if call == 27 {
            digit || upper || lower
        } else if call == 28 {
            upper || lower
        } else if call == 29 {
            c < 32 || c == 127
        } else if call == 30 {
            digit
        } else if call == 31 {
            graphic
        } else if call == 32 {
            lower
        } else if call == 33 {
            graphic || c == 32
        } else if call == 34 {
            graphic && !(digit || upper || lower)
        } else if call == 35 {
            c == 32 || c == 9 || c == 10 || c == 12 || c == 13
        } else if call == 36 {
            upper
        } else {
            digit || (65 <= c && c <= 70) || (97 <= c && c <= 102)
        };
        self.push_value(bool_value(matches))?;
        Ok(HostAction::Continue)
    }

    fn system_case(&mut self, upper: bool) -> (r: Result<HostAction>)
        requires
            old(self).inv(),
        ensures
            final(self).inv(),
            final(self)@.elapsed_ms == old(self)@.elapsed_ms,
            final(self)@.time_remainder == old(self)@.time_remainder,
            r is Ok ==> final(self)@.vm.instructions_executed == old(self)@.vm.instructions_executed,
            agrees_step(r, old(self)@.sys_case(upper), final(self)@),
    {
        let c = self.pop_value()? as u8;
        let converted = if upper {
            if 97 <= c && c <= 122 { c - 32 } else { c }
        } else {
            if 65 <= c && c <= 90 { c + 32 } else { c }
        };
        self.push_value(converted as i32)?;
        Ok(HostAction::Continue)
    }

    fn system_checkkey(&mut self) -> (r: Result<HostAction>)
        requires
            old(self).inv(),
        ensures
            final(self).inv(),
            final(self)@.elapsed_ms == old(self)@.elapsed_ms,
            final(self)@.time_remainder == old(self)@.time_remainder,
            r is Ok ==> final(self)@.vm.instructions_executed == old(self)@.vm.instructions_executed,
            agrees_step(r, old(self)@.sys_checkkey(), final(self)@),
    {
        let key = self.pop_value()? as u8;
        let value = if key < 0x80 {
            bool_value(self.input.is_pressed(key))
        } else {
            let mut found: i32 = 0;
            let mut vk: u16 = 0;
            while vk < 256
                invariant
                    self.inv(),
                    vk <= 256,
                    found == first_pressed_vk(self@.input.pressed, vk as int),
                decreases 256 - vk,
            {
                if found == 0 {
                    let lava = lava_key_from_vk(vk);
                    if lava != 0 && self.input.is_pressed(lava) {
                        found = lava as i32;
                    }
                }
                vk += 1;
            }
            found
        };
        self.push_value(value)?;
        Ok(HostAction::Continue)
    }

    fn system_transform(&mut self) -> (r: Result<HostAction>)
        requires
            old(self).inv(),
        ensures
            final(self).inv(),
            final(self)@.elapsed_ms == old(self)@.elapsed_ms,
            final(self)@.time_remainder == old(self)@.time_remainder,
            r is Ok ==> final(self)@.vm.instructions_executed == old(self)@.vm.instructions_executed,
            agrees_step(r, old(self)@.sys_transform(), final(self)@),
    {
        let value = self.pop_value()? as u8;
        if let Some(transform) = Transform::from_lava(value) {
            self.display.transform(transform);
        }
        Ok(HostAction::Continue)
    }

    fn system_releasekey(&mut self) -> (r: Result<HostAction>)
        requires
            old(self).inv(),
        ensures
            final(self).inv(),
            final(self)@.elapsed_ms == old(self)@.elapsed_ms,
            final(self)@.time_remainder == old(self)@.time_remainder,
            r is Ok ==> final(self)@.vm.instructions_executed == old(self)@.vm.instructions_executed,
            agrees_step(r, old(self)@.sys_releasekey(), final(self)@),
    {
        let key = self.pop_value()? as u8;
        if key < 0x80 {
            self.input.release(key);
        } else {
            self.input.release_all();
        }
        Ok(HostAction::Continue)
    }

    fn system_trig(&mut self, sine: bool) -> (r: Result<HostAction>)
        requires
            old(self).inv(),
        ensures
            final(self).inv(),
            final(self)@.elapsed_ms == old(self)@.elapsed_ms,
            final(self)@.time_remainder == old(self)@.time_remainder,
            r is Ok ==> final(self)@.vm.instructions_executed == old(self)@.vm.instructions_executed,
            agrees_step(r, old(self)@.sys_trig(sine), final(self)@),
    {
        let degrees = (self.pop_value()? as u16) as i32 % 360;
        let value = if sine {
            sin_lookup(degrees)
        } else if degrees >= 270 {
            sin_lookup(degrees - 270)
        } else {
            sin_lookup(degrees + 90)
        };
        self.push_value(value)?;
        Ok(HostAction::Continue)
    }

    fn system_set_graphics_mode(&mut self) -> (r: Result<HostAction>)
        requires
            old(self).inv(),
        ensures
            final(self).inv(),
            final(self)@.elapsed_ms == old(self)@.elapsed_ms,
            final(self)@.time_remainder == old(self)@.time_remainder,
            r is Ok ==> final(self)@.vm.instructions_executed == old(self)@.vm.instructions_executed,
            agrees_step(r, old(self)@.sys_set_graphics_mode(), final(self)@),
    {
        let request = self.pop_value()? as u8;
        let previous = self.display.graphics_mode().bits_per_pixel() as i32;
        let result = if request == 0 {
            previous
        } else if request == 1 {
            self.display.set_graphics_mode(GraphicsMode::Mono);
            previous
        } else if request == 4 {
            self.display.set_graphics_mode(GraphicsMode::Color4);
            previous
        } else if request == 8 {
            self.display.set_graphics_mode(GraphicsMode::Color8);
            previous
        } else {
            0
        };
        self.push_value(result)?;
        Ok(HostAction::Continue)
    }
}


fn byte_order_of(a: &[u8], b: &[u8]) -> (order: i32)
    ensures
        order == byte_order(a@, b@),
{
    let mut i: usize = 0;
    assert(a@.skip(0) =~= a@);
    assert(b@.skip(0) =~= b@);
    while i < a.len() && i < b.len() && a[i] == b[i]
        invariant
            i <= a@.len(),
            i <= b@.len(),
            byte_order(a@, b@) == byte_order(a@.skip(i as int), b@.skip(i as int)),
        decreases a@.len() - i,
    {
        assert(a@.skip(i as int).drop_first() =~= a@.skip(i + 1));
        assert(b@.skip(i as int).drop_first() =~= b@.skip(i + 1));
        i += 1;
    }
    if i == a.len() {
        if i == b.len() {
            0
        } else {
            -1
        }
    } else if i == b.len() {
        1
    } else if a[i] < b[i] {
        -1
    } else {
        1
    }
}

fn find_window_in(data: &[u8], needle: &[u8]) -> (r: Option<usize>)
    ensures
        match r {
            Some(k) => find_window(data@, needle@, 0) == Some(k as int) && k < data@.len(),
            None => find_window(data@, needle@, 0) is None,
        },
{
    let mut from: usize = 0;
    while from < data.len() && needle.len() <= data.len() - from
        invariant
            from <= data@.len(),
            find_window(data@, needle@, 0) == find_window(data@, needle@, from as int),
        decreases data@.len() - from,
    {
        let mut j: usize = 0;
        while j < needle.len() && data[from + j] == needle[j]
            invariant
                j <= needle@.len(),
                from + needle@.len() <= data@.len(),
                data@.len() <= usize::MAX,
                forall|t: int| 0 <= t < j ==> data@[from + t] == needle@[t],
            decreases needle@.len() - j,
        {
            j += 1;
        }
        if j == needle.len() {
            assert(data@.subrange(from as int, from + needle@.len()) =~= needle@);
            return Some(from);
        }
        assert(data@.subrange(from as int, from + needle@.len())[j as int] != needle@[j as int]);
        from += 1;
    }
    None
}

fn crc16_of(data: &[u8]) -> (crc: u16)
    ensures
        crc == crc16(data@),
{
    let mut crc: u16 = 0;
    let mut i: usize = 0;
    while i < data.len()
        invariant
            i <= data@.len(),
            crc == crc16(data@.take(i as int)),
        decreases data@.len() - i,
    {
        assert(data@.take(i + 1).drop_last() =~= data@.take(i as int));
        let ghost start = crc ^ ((data@[i as int] as u16) << 8u16);
        crc = crc ^ ((data[i] as u16) << 8u16);
        let mut k: u32 = 0;
        while k < 8
            invariant
                k <= 8,
                crc_shift(start, 8) == crc_shift(crc, (8 - k) as nat),
            decreases 8 - k,
        {
            crc = if crc & 0x8000 != 0 {
                (crc << 1u16) ^ 0x1021
            } else {
                crc << 1u16
            };
            k += 1;
        }
        i += 1;
    }
    assert(data@.take(data@.len() as int) =~= data@);
    crc
}


fn push_slot(out: &mut Vec<u8>, encoded: &[u8], width: usize)
    requires
        width >= 1,
    ensures
        final(out)@ == old(out)@ + name_slot(encoded@, width as int),
{
    let n = if encoded.len() < width - 1 { encoded.len() } else { width - 1 };
    let ghost start = out@;
    let mut i: usize = 0;
    while i < n
        invariant
            i <= n,
            n <= encoded@.len(),
            out@ == start + encoded@.take(i as int),
        decreases n - i,
    {
        out.push(encoded[i]);
        assert(encoded@.take(i + 1) =~= encoded@.take(i as int).push(encoded@[i as int]));
        i += 1;
    }
    let mut k: usize = n;
    while k < width
        invariant
            n <= k <= width,
            out@ == start + encoded@.take(n as int) + Seq::new((k - n) as nat, |_i: int| 0u8),
        decreases width - k,
    {
        out.push(0u8);
        assert(Seq::new((k + 1 - n) as nat, |_i: int| 0u8) =~= Seq::new((k - n) as nat, |_i: int| 0u8).push(0u8));
        k += 1;
    }
}

fn extension_of(name: &[char]) -> (ext: Option<Vec<char>>)
    ensures
        match ext {
            Some(e) => last_index_of(name@, '.') >= 0 && e@ == name@.skip(last_index_of(name@, '.') + 1),
            None => last_index_of(name@, '.') < 0,
        },
{
    let mut k: usize = name.len();
    assert(name@.take(k as int) =~= name@);
    while k > 0 && name[k - 1] != '.'
        invariant
            k <= name@.len(),
            last_index_of(name@, '.') == last_index_of(name@.take(k as int), '.'),
        decreases k,
    {
        assert(name@.take(k as int).drop_last() =~= name@.take(k - 1));
        k -= 1;
    }
    if k == 0 {
        assert(name@.take(0) =~= Seq::<char>::empty());
        return None;
    }
    assert(name@.take(k as int).last() == '.');
    let mut e: Vec<char> = Vec::new();
    let mut i: usize = k;
    while i < name.len()
        invariant
            k <= i <= name@.len(),
            e@ == name@.subrange(k as int, i as int),
        decreases name@.len() - i,
    {
        e.push(name[i]);
        i += 1;
    }
    Some(e)
}

fn extension_matches(name: &[char], extensions: &Vec<Vec<char>>) -> (matched: bool)
    ensures
        matched == spec_extension_matches(name@, seqs_view(extensions@)),
{
    if extensions.len() == 0 {
        return true;
    }
    let ext = match extension_of(name) {
        Some(e) => e,
        None => return false,
    };
    let mut j: usize = 0;
    while j < extensions.len()
        invariant
            j <= extensions@.len(),
            extensions@.len() > 0,
            last_index_of(name@, '.') >= 0,
            ext@ == name@.skip(last_index_of(name@, '.') + 1),
            forall|t: int| 0 <= t < j ==> seqs_view(extensions@)[t] != ext@,
        decreases extensions@.len() - j,
    {
        if chars_eq(extensions[j].as_slice(), ext.as_slice()) {
            assert(seqs_view(extensions@)[j as int] == ext@);
            assert(seqs_view(extensions@).contains(ext@));
            return true;
        }
        j += 1;
    }
    assert(!seqs_view(extensions@).contains(ext@));
    false
}

fn parse_extensions(value: &[u8]) -> (extensions: Vec<Vec<char>>)
    ensures
        seqs_view(extensions@) == spec_parse_extensions(utf8_lossy(value@)),
{
    let text = utf8_lossy_text(value);
    let t = str_to_chars(text.as_str());
    let ghost full = t@;
    let mut k: usize = 0;
    assert(t@.skip(0) =~= t@);
    while t.len() - k >= 2 && ((t[k] == '+' && (t[k + 1] == 'h' || t[k + 1] == 's')) || (t[k] == '!' && (t[k + 1] == 'd' || t[k + 1] == 'f')))
        invariant
            k <= t@.len(),
            strip_flags(full) == strip_flags(t@.skip(k as int)),
            full == t@,
        decreases t@.len() - k,
    {
        assert(t@.skip(k as int).skip(2) =~= t@.skip(k + 2));
        k += 2;
    }
    let ghost filters = t@.skip(k as int);
    assert(strip_flags(filters) == filters);
    if t.len() - k == 1 && t[k] == '*' {
        assert(filters =~= seq!['*']);
        return Vec::new();
    }
    assert(filters != seq!['*']) by {
        if filters.len() == 1 {
            assert(filters[0] == t@[k as int]);
            assert(seq!['*'][0] == '*');
        } else {
            assert(seq!['*'].len() == 1);
        }
    }
    let mut parts: Vec<Vec<char>> = Vec::new();
    let mut cur: Vec<char> = Vec::new();
    let mut i: usize = k;
    assert(seqs_view(parts@) =~= Seq::<Seq<char>>::empty());
    assert(t@.skip(k as int) =~= filters);
    while i < t.len()
        invariant
            k <= i <= t@.len(),
            filters == t@.skip(k as int),
            seqs_view(parts@) + split_on(t@.skip(i as int), ';', cur@) == split_on(filters, ';', seq![]),
        decreases t@.len() - i,
    {
        assert(t@.skip(i as int).drop_first() =~= t@.skip(i + 1));
        if t[i] == ';' {
            let done = cur;
            cur = Vec::new();
            assert(seqs_view(parts@.push(done)) =~= seqs_view(parts@).push(done@));
            parts.push(done);
            assert(seqs_view(parts@) + split_on(t@.skip(i + 1), ';', cur@) =~= split_on(filters, ';', seq![]));
        } else {
            cur.push(t[i]);
        }
        i += 1;
    }
    assert(t@.skip(i as int) =~= Seq::<char>::empty());
    assert(seqs_view(parts@.push(cur)) =~= seqs_view(parts@).push(cur@));
    parts.push(cur);
    assert(seqs_view(parts@) =~= split_on(filters, ';', seq![]));
    let ghost all = seqs_view(parts@);
    let mut out: Vec<Vec<char>> = Vec::new();
    let mut j: usize = 0;
    assert(all.take(0) =~= Seq::<Seq<char>>::empty());
    while j < parts.len()
        invariant
            j <= parts@.len(),
            all == seqs_view(parts@),
            seqs_view(out@) == extension_list(all.take(j as int)),
        decreases parts@.len() - j,
    {
        assert(all.take(j + 1).drop_last() =~= all.take(j as int));
        let part = &parts[j];
        if part.len() > 0 {
            let mut a: usize = 0;
            assert(part@.skip(0) =~= part@);
            while a < part.len() && part[a] == '.'
                invariant
                    a <= part@.len(),
                    trim_dots(part@) == trim_dots(part@.skip(a as int)),
                decreases part@.len() - a,
            {
                assert(part@.skip(a as int).drop_first() =~= part@.skip(a + 1));
                a += 1;
            }
            let ghost trimmed = part@.skip(a as int);
            assert(trim_dots(trimmed) == trimmed);
            let mut lower: Vec<char> = Vec::new();
            let mut b: usize = a;
            while b < part.len()
                invariant
                    a <= b <= part@.len(),
                    trimmed == part@.skip(a as int),
                    lower@ =~= lower_ascii(trimmed).take(b - a),
                decreases part@.len() - b,
            {
                let c = part[b];
                let l = if 'A' <= c && c <= 'Z' { ((c as u32) + 32) as u8 as char } else { c };
                assert(l == ascii_lower(c)) by {
                    if 'A' <= c && c <= 'Z' {
                        assert((c as u32) + 32 < 128);
                    }
                }
                lower.push(l);
                b += 1;
            }
            assert(lower_ascii(trimmed).take(part@.len() - a) =~= lower_ascii(trimmed));
            assert(seqs_view(out@.push(lower)) =~= seqs_view(out@).push(lower@));
            out.push(lower);
        }
        j += 1;
    }
    assert(all.take(parts@.len() as int) =~= all);
    out
}


/// The slots of the window of `names` (after ".." when `dot_dot`) from
/// `index` on, at most `count` of them, and how many there are.
fn window_slots(dot_dot: bool, names: &Vec<String>, index: usize, count: usize, width: usize) -> (out: (Vec<u8>, usize))
    requires
        width >= 1,
        index <= i32::MAX,
        count <= i32::MAX,
    ensures
        ({
            let all = if dot_dot { seq![seq!['.', '.']] + strings_view(names@) } else { strings_view(names@) };
            let chosen = window(all, index as int, count as int);
            out.0@ == name_slots(chosen, width as int) && out.1 == chosen.len() && out.1 <= i32::MAX
        }),
{
    let ghost all = if dot_dot { seq![seq!['.', '.']] + strings_view(names@) } else { strings_view(names@) };
    let extra: u128 = if dot_dot { 1 } else { 0 };
    let total: u128 = names.len() as u128 + extra;
    let start: u128 = if (index as u128) < total { index as u128 } else { total };
    let end: u128 = if (count as u128) < total - start { start + count as u128 } else { total };
    assert(all.len() == total);
    assert(window(all, index as int, count as int) =~= all.subrange(start as int, end as int));
    let mut output: Vec<u8> = Vec::new();
    let mut k: u128 = start;
    assert(all.subrange(start as int, start as int) =~= Seq::<Seq<char>>::empty());
    while k < end
        invariant
            start <= k <= end <= total,
            end - start <= count,
            total == names@.len() + extra,
            extra == (if dot_dot { 1u128 } else { 0u128 }),
            all == (if dot_dot { seq![seq!['.', '.']] + strings_view(names@) } else { strings_view(names@) }),
            width >= 1,
            output@ == name_slots(all.subrange(start as int, k as int), width as int),
        decreases end - k,
    {
        let encoded = if k < extra {
            proof {
                reveal_strlit("..");
            }
            assert(".."@ =~= seq!['.', '.']);
            gbk_encode("..")
        } else {
            gbk_encode(names[(k - extra) as usize].as_str())
        };
        assert(names@.len() == names.len());
        assert(all[k as int] == if k < extra { seq!['.', '.'] } else { names@[k - extra]@ });
        assert(encoded@ == gbk_encoded(all[k as int]));
        push_slot(&mut output, encoded.as_slice(), width);
        assert(all.subrange(start as int, k + 1).drop_last() =~= all.subrange(start as int, k as int));
        k += 1;
    }
    (output, (end - start) as usize)
}


fn push_digits(out: &mut Vec<u8>, n: u64)
    ensures
        final(out)@ == old(out)@ + decimal_digits(n as nat),
    decreases n,
{
    if n >= 10 {
        push_digits(out, n / 10);
    }
    out.push((n % 10 + 48) as u8);
    assert(decimal_digits(n as nat) == if n < 10 {
        seq![(n + 48) as u8]
    } else {
        decimal_digits((n / 10) as nat).push((n % 10 + 48) as u8)
    });
}

fn decimal_of(v: i32) -> (text: Vec<u8>)
    ensures
        text@ == decimal(v as int),
{
    let mut out: Vec<u8> = Vec::new();
    if v < 0 {
        out.push(45u8);
        let magnitude: u64 = (-(v as i64)) as u64;
        push_digits(&mut out, magnitude);
    } else {
        push_digits(&mut out, v as u64);
    }
    out
}

fn byte_at_of(data: &[u8], i: usize) -> (b: u8)
    ensures
        b == byte_at(data@, i as int),
{
    if i < data.len() {
        data[i]
    } else {
        0
    }
}

fn conversion_at(fmt: &[u8], i: usize) -> (c: (bool, bool, usize, u8, usize))
    requires
        i <= fmt@.len(),
    ensures
        c.0 == conversion(fmt@, i as int).0,
        c.1 == conversion(fmt@, i as int).1,
        c.2 == conversion(fmt@, i as int).2,
        c.3 == conversion(fmt@, i as int).3,
        c.4 == conversion(fmt@, i as int).4,
        i <= c.4 <= fmt@.len(),
{
    assert(fmt@.len() == fmt.len());
    let left = byte_at_of(fmt, i) == 45;
    let i2 = if left { i + 1 } else { i };
    let zero = byte_at_of(fmt, i2) == 48;
    let i3 = if zero { i2 + 1 } else { i2 };
    let mut width: usize = 0;
    let mut k = i3;
    assert(i3 <= fmt@.len() + 2);
    while k < fmt.len() && 48 <= fmt[k] && fmt[k] <= 57
        invariant
            i3 <= k,
            k <= fmt@.len() || k == i3,
            digits_value(fmt@, i3 as int, 0) == digits_value(fmt@, k as int, width as int),
            digits_end(fmt@, i3 as int) == digits_end(fmt@, k as int),
        decreases fmt@.len() - k,
    {
        let digit = (fmt[k] - 48) as usize;
        let times = if width > usize::MAX / 10 { usize::MAX } else { width * 10 };
        width = times.saturating_add(digit);
        k += 1;
    }
    let specifier = byte_at_of(fmt, k);
    proof {
        lemma_digits_end(fmt@, i3 as int);
    }
    (left, zero, width, specifier, if specifier != 0 { k + 1 } else { k })
}


fn float_values_of(fmt: &[u8], values: &[i32]) -> (floats: Vec<i32>)
    ensures
        floats@ == float_values(fmt@, values@, 0, 0),
{
    let mut floats: Vec<i32> = Vec::new();
    let mut index: usize = 0;
    let mut vi: usize = 0;
    let ghost goal = float_values(fmt@, values@, 0, 0);
    while index < fmt.len()
        invariant
            index <= fmt@.len(),
            vi <= index,
            goal == float_values(fmt@, values@, 0, 0),
            goal == floats@ + float_values(fmt@, values@, index as int, vi as int),
        decreases fmt@.len() - index,
    {
        if fmt[index] != 37 {
            index += 1;
        } else if byte_at_of(fmt, index + 1) == 37 {
            index += 2;
        } else {
            let (_left, _zero, _width, specifier, next) = conversion_at(fmt, index + 1);
            let vi2 = if specifier != 37 { vi + 1 } else { vi };
            if specifier == 0 {
                assert(fmt@[index as int] == 37);
                assert(byte_at(fmt@, index + 1) != 37);
                assert(conversion(fmt@, index + 1).3 == 0);
                assert(float_values(fmt@, values@, index as int, vi as int) =~= Seq::<i32>::empty());
                assert(goal =~= floats@);
                return floats;
            }
            if specifier == 102 {
                let value = if vi < values.len() { values[vi] } else { 0 };
                assert(floats@.push(value) + float_values(fmt@, values@, next as int, vi2 as int) =~= floats@ + (seq![value]
                    + float_values(fmt@, values@, next as int, vi2 as int)));
                floats.push(value);
            }
            index = next;
            vi = vi2;
        }
    }
    assert(goal =~= floats@);
    floats
}


pub proof fn lemma_after_prefix_empty(r: core::result::Result<Seq<u8>, Error>)
    ensures
        after_prefix(seq![], r) == r,
{
    if let Ok(rest) = r {
        assert(Seq::<u8>::empty() + rest =~= rest);
    }
}

pub proof fn lemma_after_prefix_empty_tail(prefix: Seq<u8>)
    ensures
        after_prefix(prefix, Ok(seq![])) == Ok::<Seq<u8>, Error>(prefix),
{
    assert(prefix + Seq::<u8>::empty() =~= prefix);
}

pub proof fn lemma_after_prefix_join(a: Seq<u8>, b: Seq<u8>, r: core::result::Result<Seq<u8>, Error>)
    ensures
        after_prefix(a, after_prefix(b, r)) == after_prefix(a + b, r),
{
    if let Ok(rest) = r {
        assert(a + (b + rest) =~= (a + b) + rest);
    }
}

fn append_padded(out: &mut Vec<u8>, text: &[u8], width: usize, left: bool, zero: bool)
    ensures
        final(out)@ == old(out)@ + padded(text@, width as int, left, zero),
{
    let ghost before = out@;
    let pad_byte: u8 = if zero { 48 } else { 32 };
    let count: usize = if width > text.len() { width - text.len() } else { 0 };
    if !left {
        append_fill(out, pad_byte, count);
    }
    let ghost mid = out@;
    let mut k: usize = 0;
    while k < text.len()
        invariant
            k <= text@.len(),
            out@ == mid + text@.take(k as int),
        decreases text@.len() - k,
    {
        out.push(text[k]);
        assert(text@.take(k + 1) =~= text@.take(k as int).push(text@[k as int]));
        k += 1;
    }
    assert(text@.take(text@.len() as int) =~= text@);
    if left {
        append_fill(out, pad_byte, count);
    }
    assert(out@ =~= before + padded(text@, width as int, left, zero));
}

fn append_fill(out: &mut Vec<u8>, byte: u8, count: usize)
    ensures
        final(out)@ == old(out)@ + Seq::new(count as nat, |_i: int| byte),
{
    let ghost before = out@;
    let mut j: usize = 0;
    while j < count
        invariant
            j <= count,
            out@ == before + Seq::new(j as nat, |_i: int| byte),
        decreases count - j,
    {
        out.push(byte);
        assert(Seq::new((j + 1) as nat, |_i: int| byte) =~= Seq::new(j as nat, |_i: int| byte).push(byte));
        j += 1;
    }
}

fn find_byte_in(data: &[u8], needle: u8) -> (r: Option<usize>)
    ensures
        match r {
            Some(k) => find_byte(data@, needle, 0) == Some(k as int) && k < data@.len(),
            None => find_byte(data@, needle, 0) is None,
        },
{
    let mut k: usize = 0;
    while k < data.len()
        invariant
            k <= data@.len(),
            find_byte(data@, needle, 0) == find_byte(data@, needle, k as int),
        decreases data@.len() - k,
    {
        if data[k] == needle {
            return Some(k);
        }
        k += 1;
    }
    None
}

impl Emulator {
    fn memory_range(&self, address: u32, length: usize) -> (r: Result<(usize, usize)>)
        requires
            self.inv(),
        ensures
            match self@.vm.range(address, length) {
                Ok(range) => r == Ok::<(usize, usize), Error>(range),
                Err(e) => r == Err::<(usize, usize), Error>(e),
            },
            r matches Ok((a, end)) ==> a <= end <= self@.vm.memory.len(),
    {
        self.vm.checked_range(address, length)
    }

    fn memory_bytes(&self, address: u32, length: usize) -> (r: Result<Vec<u8>>)
        requires
            self.inv(),
        ensures
            match self@.memory_bytes(address, length) {
                Ok(bytes) => r matches Ok(v) && v@ == bytes,
                Err(e) => r == Err::<Vec<u8>, Error>(e),
            },
    {
        let (start, end) = self.memory_range(address, length)?;
        Ok(crate::bytes::copy_range(self.vm.memory(), start, end))
    }

    fn pop_guest_length(&mut self) -> (r: Result<usize>)
        requires
            old(self).inv(),
        ensures
            final(self).inv(),
            final(self)@.elapsed_ms == old(self)@.elapsed_ms,
            final(self)@.time_remainder == old(self)@.time_remainder,
            r is Ok ==> final(self)@.vm.instructions_executed == old(self)@.vm.instructions_executed,
            agrees_step(r, old(self)@.pop_length(), final(self)@),
    {
        Ok(self.pop_guest_address()? as usize)
    }

    fn system_strcat(&mut self) -> (r: Result<HostAction>)
        requires
            old(self).inv(),
        ensures
            final(self).inv(),
            final(self)@.elapsed_ms == old(self)@.elapsed_ms,
            final(self)@.time_remainder == old(self)@.time_remainder,
            r is Ok ==> final(self)@.vm.instructions_executed == old(self)@.vm.instructions_executed,
            agrees_step(r, old(self)@.sys_strcat(), final(self)@),
    {
        let source = self.pop_guest_address()?;
        let destination = self.pop_guest_address()?;
        let tail = self.read_c_bytes(source)?;
        let mut data = self.read_c_bytes(destination)?;
        let mut i: usize = 0;
        let ghost head = data@;
        while i < tail.len()
            invariant
                i <= tail@.len(),
                data@ == head + tail@.take(i as int),
            decreases tail@.len() - i,
        {
            data.push(tail[i]);
            i += 1;
        }
        assert(tail@.take(tail@.len() as int) =~= tail@);
        data.push(0);
        self.write_memory(destination, data.as_slice())?;
        Ok(HostAction::Continue)
    }

    fn system_strchr(&mut self) -> (r: Result<HostAction>)
        requires
            old(self).inv(),
        ensures
            final(self).inv(),
            final(self)@.elapsed_ms == old(self)@.elapsed_ms,
            final(self)@.time_remainder == old(self)@.time_remainder,
            r is Ok ==> final(self)@.vm.instructions_executed == old(self)@.vm.instructions_executed,
            agrees_step(r, old(self)@.sys_strchr(), final(self)@),
    {
        let needle = self.pop_value()? as u8;
        let address = self.pop_guest_address()?;
        let data = self.read_c_bytes(address)?;
        let offset: Option<usize> = if needle == 0 {
            Some(data.len())
        } else {
            find_byte_in(data.as_slice(), needle)
        };
        proof {
            self.vm.lemma_wf();
        }
        let value = match offset {
            Some(o) => (address as u64 + o as u64) as i32,
            None => 0,
        };

        self.push_value(value)?;
        Ok(HostAction::Continue)
    }
}

impl Emulator {
    fn system_string_compare(&mut self) -> (r: Result<HostAction>)
        requires
            old(self).inv(),
        ensures
            final(self).inv(),
            final(self)@.elapsed_ms == old(self)@.elapsed_ms,
            final(self)@.time_remainder == old(self)@.time_remainder,
            r is Ok ==> final(self)@.vm.instructions_executed == old(self)@.vm.instructions_executed,
            agrees_step(r, old(self)@.sys_string_compare(), final(self)@),
    {
        let right = self.pop_guest_address()?;
        let left = self.pop_guest_address()?;
        let a = self.read_c_bytes(left)?;
        let b = self.read_c_bytes(right)?;
        let order = byte_order_of(a.as_slice(), b.as_slice());
        self.push_value(order)?;
        Ok(HostAction::Continue)
    }

    fn system_strstr(&mut self) -> (r: Result<HostAction>)
        requires
            old(self).inv(),
        ensures
            final(self).inv(),
            final(self)@.elapsed_ms == old(self)@.elapsed_ms,
            final(self)@.time_remainder == old(self)@.time_remainder,
            r is Ok ==> final(self)@.vm.instructions_executed == old(self)@.vm.instructions_executed,
            agrees_step(r, old(self)@.sys_strstr(), final(self)@),
    {
        let needle_address = self.pop_guest_address()?;
        let haystack_address = self.pop_guest_address()?;
        let needle = self.read_c_bytes(needle_address)?;
        let haystack = self.read_c_bytes(haystack_address)?;
        let offset = if needle.len() == 0 {
            Some(0usize)
        } else {
            find_window_in(haystack.as_slice(), needle.as_slice())
        };
        let value = match offset {
            Some(o) => (haystack_address as u64 + o as u64) as i32,
            None => 0,
        };
        self.push_value(value)?;
        Ok(HostAction::Continue)
    }

    fn system_memset(&mut self) -> (r: Result<HostAction>)
        requires
            old(self).inv(),
        ensures
            final(self).inv(),
            final(self)@.elapsed_ms == old(self)@.elapsed_ms,
            final(self)@.time_remainder == old(self)@.time_remainder,
            r is Ok ==> final(self)@.vm.instructions_executed == old(self)@.vm.instructions_executed,
            agrees_step(r, old(self)@.sys_memset(), final(self)@),
    {
        let length = self.pop_guest_length()?;
        let value = self.pop_value()? as u8;
        let destination = self.pop_guest_address()?;
        self.memory_range(destination, length)?;
        let data = crate::bytes::filled_bytes(value, length);
        self.write_memory(destination, data.as_slice())?;
        Ok(HostAction::Continue)
    }

    fn system_memcpy(&mut self) -> (r: Result<HostAction>)
        requires
            old(self).inv(),
        ensures
            final(self).inv(),
            final(self)@.elapsed_ms == old(self)@.elapsed_ms,
            final(self)@.time_remainder == old(self)@.time_remainder,
            r is Ok ==> final(self)@.vm.instructions_executed == old(self)@.vm.instructions_executed,
            agrees_step(r, old(self)@.sys_memcpy(), final(self)@),
    {
        let length = self.pop_guest_length()?;
        let source = self.pop_guest_address()?;
        let destination = self.pop_guest_address()?;
        let data = self.memory_bytes(source, length)?;
        self.memory_range(destination, length)?;
        self.write_memory(destination, data.as_slice())?;
        Ok(HostAction::Continue)
    }

    fn system_crc16(&mut self) -> (r: Result<HostAction>)
        requires
            old(self).inv(),
        ensures
            final(self).inv(),
            final(self)@.elapsed_ms == old(self)@.elapsed_ms,
            final(self)@.time_remainder == old(self)@.time_remainder,
            r is Ok ==> final(self)@.vm.instructions_executed == old(self)@.vm.instructions_executed,
            agrees_step(r, old(self)@.sys_crc16(), final(self)@),
    {
        let length = self.pop_guest_length()?;
        let address = self.pop_guest_address()?;
        let data = self.memory_bytes(address, length)?;
        let crc = crc16_of(data.as_slice());
        self.push_value(crc as i32)?;
        Ok(HostAction::Continue)
    }

    fn system_xor(&mut self) -> (r: Result<HostAction>)
        requires
            old(self).inv(),
        ensures
            final(self).inv(),
            final(self)@.elapsed_ms == old(self)@.elapsed_ms,
            final(self)@.time_remainder == old(self)@.time_remainder,
            r is Ok ==> final(self)@.vm.instructions_executed == old(self)@.vm.instructions_executed,
            agrees_step(r, old(self)@.sys_xor(), final(self)@),
    {
        let key_address = self.pop_guest_address()?;
        let length = self.pop_guest_length()?;
        let destination = self.pop_guest_address()?;
        let key = self.read_c_bytes(key_address)?;
        if key.len() == 0 {
            return Ok(HostAction::Continue);
        }
        let data = self.memory_bytes(destination, length)?;
        let mut out: Vec<u8> = Vec::new();
        let mut i: usize = 0;
        while i < data.len()
            invariant
                i <= data@.len(),
                key@.len() > 0,
                out@ =~= xored(data@, key@).take(i as int),
            decreases data@.len() - i,
        {
            out.push(data[i] ^ key[i % key.len()]);
            i += 1;
        }
        assert(xored(data@, key@).take(data@.len() as int) =~= xored(data@, key@));
        self.write_memory(destination, out.as_slice())?;
        Ok(HostAction::Continue)
    }

    fn system_gettime(&mut self) -> (r: Result<HostAction>)
        requires
            old(self).inv(),
        ensures
            final(self).inv(),
            final(self)@.elapsed_ms == old(self)@.elapsed_ms,
            final(self)@.time_remainder == old(self)@.time_remainder,
            r is Ok ==> final(self)@.vm.instructions_executed == old(self)@.vm.instructions_executed,
            agrees_step(r, old(self)@.sys_gettime(), final(self)@),
    {
        let address = self.pop_guest_address()?;
        let calendar = self.calendar;
        self.write_memory(address, calendar.as_slice())?;
        Ok(HostAction::Continue)
    }

    fn system_settime(&mut self) -> (r: Result<HostAction>)
        requires
            old(self).inv(),
        ensures
            final(self).inv(),
            final(self)@.elapsed_ms == old(self)@.elapsed_ms,
            final(self)@.time_remainder == old(self)@.time_remainder,
            r is Ok ==> final(self)@.vm.instructions_executed == old(self)@.vm.instructions_executed,
            agrees_step(r, old(self)@.sys_settime(), final(self)@),
    {
        let address = self.pop_guest_address()?;
        let data = self.memory_bytes(address, 8)?;
        let calendar: [u8; 8] = [data[0], data[1], data[2], data[3], data[4], data[5], data[6], data[7]];
        self.calendar = calendar;
        assert(self.calendar@ =~= data@);
        Ok(HostAction::Continue)
    }

    fn system_write_block(&mut self) -> (r: Result<HostAction>)
        requires
            old(self).inv(),
        ensures
            final(self).inv(),
            final(self)@.elapsed_ms == old(self)@.elapsed_ms,
            final(self)@.time_remainder == old(self)@.time_remainder,
            r is Ok ==> final(self)@.vm.instructions_executed == old(self)@.vm.instructions_executed,
            agrees_step(r, old(self)@.sys_write_block(), final(self)@),
    {
        let source = self.pop_guest_address()?;
        let mode = self.pop_value()? as u8;
        let height = self.pop_value()? as u16;
        let width = self.pop_value()? as u16;
        let y = coordinate(self.pop_value()?);
        let x = coordinate(self.pop_value()?);
        let stride = crate::display::stride_of(self.display.graphics_mode(), width);
        assert(stride * height <= 0xffff * 0xffff) by (nonlinear_arith)
            requires
                stride <= 0xffff,
                height <= 0xffff,
        ;
        let length = stride * height as usize;
        let data = self.memory_bytes(source, length)?;
        self.display.blit(target_from_flag(mode, true), x, y, width, height, data.as_slice(), mode & 0x0f, mode & 0x20 != 0);
        Ok(HostAction::Continue)
    }

    fn system_getblock(&mut self) -> (r: Result<HostAction>)
        requires
            old(self).inv(),
        ensures
            final(self).inv(),
            final(self)@.elapsed_ms == old(self)@.elapsed_ms,
            final(self)@.time_remainder == old(self)@.time_remainder,
            r is Ok ==> final(self)@.vm.instructions_executed == old(self)@.vm.instructions_executed,
            agrees_step(r, old(self)@.sys_getblock(), final(self)@),
    {
        let destination = self.pop_guest_address()?;
        let mode = self.pop_value()? as u8;
        let height = self.pop_value()? as u16;
        let width = self.pop_value()? as u16;
        let y = coordinate(self.pop_value()?);
        let x = coordinate(self.pop_value()?);
        let data = self.display.capture(target_from_flag(mode, true), x, y, width, height);
        self.write_memory(destination, data.as_slice())?;
        Ok(HostAction::Continue)
    }

    fn system_setpalette(&mut self) -> (r: Result<HostAction>)
        requires
            old(self).inv(),
        ensures
            final(self).inv(),
            final(self)@.elapsed_ms == old(self)@.elapsed_ms,
            final(self)@.time_remainder == old(self)@.time_remainder,
            r is Ok ==> final(self)@.vm.instructions_executed == old(self)@.vm.instructions_executed,
            agrees_step(r, old(self)@.sys_setpalette(), final(self)@),
    {
        let address = self.pop_guest_address()?;
        let c = self.pop_value()?;
        let f = self.pop_value()?;
        let requested: usize = if c < 0 { 0 } else if c > 256 { 256 } else { c as usize };
        let first: u8 = if f < 0 { 0 } else if f > 255 { 255 } else { f as u8 };
        let available: usize = 256 - first as usize;
        let count = if requested < available { requested } else { available };
        let data = self.memory_bytes(address, count * 4)?;
        let mut colors: Vec<[u8; 4]> = Vec::new();
        let mut k: usize = 0;
        let ghost goal = Seq::new(count as nat, |j: int| [data@[4 * j], data@[4 * j + 1], data@[4 * j + 2], data@[4 * j + 3]]);
        while k < count
            invariant
                k <= count,
                count <= 256,
                data@.len() == count * 4,
                goal == Seq::new(count as nat, |j: int| [data@[4 * j], data@[4 * j + 1], data@[4 * j + 2], data@[4 * j + 3]]),
                colors@ =~= goal.take(k as int),
            decreases count - k,
        {
            let entry: [u8; 4] = [data[4 * k], data[4 * k + 1], data[4 * k + 2], data[4 * k + 3]];
            colors.push(entry);
            k += 1;
        }
        assert(goal.take(count as int) =~= goal);
        let written = self.display.set_palette_rgba(first, colors.as_slice());
        self.push_value(written as i32)?;
        Ok(HostAction::Continue)
    }

    fn system_getcmdline(&mut self) -> (r: Result<HostAction>)
        requires
            old(self).inv(),
        ensures
            final(self).inv(),
            final(self)@.elapsed_ms == old(self)@.elapsed_ms,
            final(self)@.time_remainder == old(self)@.time_remainder,
            r is Ok ==> final(self)@.vm.instructions_executed == old(self)@.vm.instructions_executed,
            agrees_step(r, old(self)@.sys_getcmdline(), final(self)@),
    {
        let destination = self.pop_guest_address()?;
        let command_line = self.command_line.clone();
        assert(command_line@ =~= self.command_line@);
        self.write_memory(destination, command_line.as_slice())?;
        let terminator: [u8; 1] = [0u8];
        assert(terminator@ =~= seq![0u8]);
        self.write_memory((destination as usize + command_line.len()) as u32, terminator.as_slice())?;
        Ok(HostAction::Continue)
    }

    /// Pops `count` values; they come back in the order they were pushed.
    fn pop_values(&mut self, count: usize) -> (r: Result<Vec<i32>>)
        requires
            old(self).inv(),
        ensures
            final(self).inv(),
            final(self)@.elapsed_ms == old(self)@.elapsed_ms,
            final(self)@.time_remainder == old(self)@.time_remainder,
            r is Ok ==> final(self)@.vm.instructions_executed == old(self)@.vm.instructions_executed,
            match old(self)@.pop_values(count as nat) {
                Ok((values, s)) => r matches Ok(v) && v@ == values && final(self)@ == s,
                Err(e) => r == Err::<Vec<i32>, Error>(e),
            },
        decreases count,
    {
        if count == 0 {
            return Ok(Vec::new());
        }
        let value = self.pop_value()?;
        let mut rest = self.pop_values(count - 1)?;
        rest.push(value);
        Ok(rest)
    }
}

impl Emulator {
    fn read_guest_text(&self, address: u32) -> (r: Result<String>)
        requires
            self.inv(),
        ensures
            match self@.c_string(address) {
                Ok(bytes) => r matches Ok(t) && t@ == gbk_decoded(bytes),
                Err(e) => r == Err::<String, Error>(e),
            },
    {
        let bytes = self.read_c_bytes(address)?;
        Ok(gbk_decode(bytes.as_slice()))
    }

    fn system_fopen(&mut self) -> (r: Result<HostAction>)
        requires
            old(self).inv(),
        ensures
            final(self).inv(),
            final(self)@.elapsed_ms == old(self)@.elapsed_ms,
            final(self)@.time_remainder == old(self)@.time_remainder,
            r is Ok ==> final(self)@.vm.instructions_executed == old(self)@.vm.instructions_executed,
            old(self)@.sys_fopen(r, final(self)@),
    {
        let mode_address = self.pop_guest_address()?;
        let path_address = self.pop_guest_address()?;
        let mode_bytes = self.read_c_bytes(mode_address)?;
        let mode = utf8_lossy_text(mode_bytes.as_slice());
        let path = self.read_guest_text(path_address)?;
        let ghost s2 = self@;
        let handle = self.files.open(path.as_str(), mode.as_str());
        let ghost files = self@.files;
        let value = match handle {
            Some(h) => h as i32,
            None => 0,
        };
        let r = self.push_value(value);
        proof {
            assert(s2.files.opened(path@, mode@, handle, files));
        }
        r?;
        Ok(HostAction::Continue)
    }

    fn system_fclose(&mut self) -> (r: Result<HostAction>)
        requires
            old(self).inv(),
        ensures
            final(self).inv(),
            final(self)@.elapsed_ms == old(self)@.elapsed_ms,
            final(self)@.time_remainder == old(self)@.time_remainder,
            r is Ok ==> final(self)@.vm.instructions_executed == old(self)@.vm.instructions_executed,
            old(self)@.sys_fclose(r, final(self)@),
    {
        let handle = self.pop_value()? as u8;
        let ghost s = self@;
        let closed = self.files.close(handle);
        assert(s.files.closed_handle(handle, closed, self@.files));
        Ok(HostAction::Continue)
    }

    fn system_fread(&mut self) -> (r: Result<HostAction>)
        requires
            old(self).inv(),
        ensures
            final(self).inv(),
            final(self)@.elapsed_ms == old(self)@.elapsed_ms,
            final(self)@.time_remainder == old(self)@.time_remainder,
            r is Ok ==> final(self)@.vm.instructions_executed == old(self)@.vm.instructions_executed,
            old(self)@.sys_fread(r, final(self)@),
    {
        let handle = self.pop_value()? as u8;
        let length = self.pop_guest_length()?;
        self.pop_value()?;
        let destination = self.pop_guest_address()?;
        if !self.files.can_read(handle) {
            return Err(Error::UnsupportedFeature("read past the end of a file"));
        }
        let ghost s4 = self@;
        let read = self.files.read(handle, length);
        let ghost files = self@.files;
        let ghost spec_data = match &read {
            Some(d) => Some(d@),
            None => None::<Seq<u8>>,
        };
        assert(s4.files.read_result(handle, length, spec_data, files));
        let data = match read {
            Some(d) => d,
            None => Vec::new(),
        };
        self.write_memory(destination, data.as_slice())?;
        self.push_value(data.len() as i32)?;
        Ok(HostAction::Continue)
    }

    fn system_fwrite(&mut self) -> (r: Result<HostAction>)
        requires
            old(self).inv(),
        ensures
            final(self).inv(),
            final(self)@.elapsed_ms == old(self)@.elapsed_ms,
            final(self)@.time_remainder == old(self)@.time_remainder,
            r is Ok ==> final(self)@.vm.instructions_executed == old(self)@.vm.instructions_executed,
            old(self)@.sys_fwrite(r, final(self)@),
    {
        let handle = self.pop_value()? as u8;
        let length = self.pop_guest_length()?;
        self.pop_value()?;
        let source = self.pop_guest_address()?;
        let data = self.memory_bytes(source, length)?;
        let ghost s4 = self@;
        let written = self.files.write(handle, data.as_slice());
        assert(s4.files.written_result(handle, data@, written, self@.files));
        let value = match written {
            Some(n) => n as i32,
            None => 0,
        };
        self.push_value(value)?;
        Ok(HostAction::Continue)
    }

    fn system_fseek(&mut self) -> (r: Result<HostAction>)
        requires
            old(self).inv(),
        ensures
            final(self).inv(),
            final(self)@.elapsed_ms == old(self)@.elapsed_ms,
            final(self)@.time_remainder == old(self)@.time_remainder,
            r is Ok ==> final(self)@.vm.instructions_executed == old(self)@.vm.instructions_executed,
            old(self)@.sys_fseek(r, final(self)@),
    {
        let origin = self.pop_value()? as u8;
        let offset = self.pop_value()?;
        let handle = self.pop_value()? as u8;
        let ghost s3 = self@;
        let position = self.files.seek(handle, offset, origin);
        assert(s3.files.sought(handle, offset, origin, position, self@.files));
        let value = match position {
            Some(p) => p as i32,
            None => -1,
        };
        self.push_value(value)?;
        Ok(HostAction::Continue)
    }

    fn system_ftell(&mut self) -> (r: Result<HostAction>)
        requires
            old(self).inv(),
        ensures
            final(self).inv(),
            final(self)@.elapsed_ms == old(self)@.elapsed_ms,
            final(self)@.time_remainder == old(self)@.time_remainder,
            r is Ok ==> final(self)@.vm.instructions_executed == old(self)@.vm.instructions_executed,
            agrees_step(r, old(self)@.sys_ftell(), final(self)@),
    {
        let handle = self.pop_value()? as u8;
        let value = match self.files.tell(handle) {
            Some(p) => p as i32,
            None => -1,
        };
        self.push_value(value)?;
        Ok(HostAction::Continue)
    }

    fn system_feof(&mut self) -> (r: Result<HostAction>)
        requires
            old(self).inv(),
        ensures
            final(self).inv(),
            final(self)@.elapsed_ms == old(self)@.elapsed_ms,
            final(self)@.time_remainder == old(self)@.time_remainder,
            r is Ok ==> final(self)@.vm.instructions_executed == old(self)@.vm.instructions_executed,
            agrees_step(r, old(self)@.sys_feof(), final(self)@),
    {
        let handle = self.pop_value()? as u8;
        let value = match self.files.eof(handle) {
            Some(at_end) => bool_value(at_end),
            None => -1,
        };
        self.push_value(value)?;
        Ok(HostAction::Continue)
    }

    fn system_rewind(&mut self) -> (r: Result<HostAction>)
        requires
            old(self).inv(),
        ensures
            final(self).inv(),
            final(self)@.elapsed_ms == old(self)@.elapsed_ms,
            final(self)@.time_remainder == old(self)@.time_remainder,
            r is Ok ==> final(self)@.vm.instructions_executed == old(self)@.vm.instructions_executed,
            old(self)@.sys_rewind(r, final(self)@),
    {
        let handle = self.pop_value()? as u8;
        let ghost s = self@;
        let ok = self.files.rewind(handle);
        assert(s.files.rewound(handle, ok, self@.files));
        Ok(HostAction::Continue)
    }

    fn system_getc(&mut self) -> (r: Result<HostAction>)
        requires
            old(self).inv(),
        ensures
            final(self).inv(),
            final(self)@.elapsed_ms == old(self)@.elapsed_ms,
            final(self)@.time_remainder == old(self)@.time_remainder,
            r is Ok ==> final(self)@.vm.instructions_executed == old(self)@.vm.instructions_executed,
            old(self)@.sys_getc(r, final(self)@),
    {
        let handle = self.pop_value()? as u8;
        if !self.files.can_read(handle) {
            return Err(Error::UnsupportedFeature("read past the end of a file"));
        }
        let ghost s = self@;
        let read = self.files.read(handle, 1);
        let ghost spec_data = match &read {
            Some(d) => Some(d@),
            None => None::<Seq<u8>>,
        };
        assert(s.files.read_result(handle, 1, spec_data, self@.files));
        let value = match read {
            Some(d) => if d.len() > 0 { d[0] as i32 } else { -1 },
            None => -1,
        };
        self.push_value(value)?;
        Ok(HostAction::Continue)
    }

    fn system_putc(&mut self) -> (r: Result<HostAction>)
        requires
            old(self).inv(),
        ensures
            final(self).inv(),
            final(self)@.elapsed_ms == old(self)@.elapsed_ms,
            final(self)@.time_remainder == old(self)@.time_remainder,
            r is Ok ==> final(self)@.vm.instructions_executed == old(self)@.vm.instructions_executed,
            old(self)@.sys_putc(r, final(self)@),
    {
        let handle = self.pop_value()? as u8;
        let value = self.pop_value()? as u8;
        let byte: [u8; 1] = [value];
        assert(byte@ =~= seq![value]);
        let ghost s2 = self@;
        let written = self.files.write(handle, byte.as_slice());
        assert(s2.files.written_result(handle, seq![value], written, self@.files));
        let result = if written == Some(1usize) { value as i32 } else { -1 };
        self.push_value(result)?;
        Ok(HostAction::Continue)
    }

    fn system_makedir(&mut self) -> (r: Result<HostAction>)
        requires
            old(self).inv(),
        ensures
            final(self).inv(),
            final(self)@.elapsed_ms == old(self)@.elapsed_ms,
            final(self)@.time_remainder == old(self)@.time_remainder,
            r is Ok ==> final(self)@.vm.instructions_executed == old(self)@.vm.instructions_executed,
            old(self)@.sys_makedir(r, final(self)@),
    {
        let address = self.pop_guest_address()?;
        let path = self.read_guest_text(address)?;
        let ghost s = self@;
        let created = self.files.create_directory(path.as_str());
        assert(s.files.directory_created(path@, created, self@.files));
        self.push_value(bool_value(created))?;
        Ok(HostAction::Continue)
    }

    fn system_delete(&mut self) -> (r: Result<HostAction>)
        requires
            old(self).inv(),
        ensures
            final(self).inv(),
            final(self)@.elapsed_ms == old(self)@.elapsed_ms,
            final(self)@.time_remainder == old(self)@.time_remainder,
            r is Ok ==> final(self)@.vm.instructions_executed == old(self)@.vm.instructions_executed,
            old(self)@.sys_delete(r, final(self)@),
    {
        let address = self.pop_guest_address()?;
        let path = self.read_guest_text(address)?;
        let ghost s = self@;
        let deleted = self.files.delete(path.as_str());
        assert(s.files.deleted_result(path@, deleted, self@.files));
        self.push_value(bool_value(deleted))?;
        Ok(HostAction::Continue)
    }

    fn system_chdir(&mut self) -> (r: Result<HostAction>)
        requires
            old(self).inv(),
        ensures
            final(self).inv(),
            final(self)@.elapsed_ms == old(self)@.elapsed_ms,
            final(self)@.time_remainder == old(self)@.time_remainder,
            r is Ok ==> final(self)@.vm.instructions_executed == old(self)@.vm.instructions_executed,
            old(self)@.sys_chdir(r, final(self)@),
    {
        let address = self.pop_guest_address()?;
        let path = self.read_guest_text(address)?;
        let ghost s = self@;
        let changed = self.files.change_directory(path.as_str());
        assert(s.files.directory_changed(path@, changed, self@.files));
        self.push_value(bool_value(changed))?;
        Ok(HostAction::Continue)
    }
}

impl Emulator {
    fn system_findfile(&mut self) -> (r: Result<HostAction>)
        requires
            old(self).inv(),
        ensures
            final(self).inv(),
            final(self)@.elapsed_ms == old(self)@.elapsed_ms,
            final(self)@.time_remainder == old(self)@.time_remainder,
            r is Ok ==> final(self)@.vm.instructions_executed == old(self)@.vm.instructions_executed,
            old(self)@.sys_findfile(r, final(self)@),
    {
        let destination = self.pop_guest_address()?;
        let c = self.pop_value()?;
        let i = self.pop_value()?;
        let count: usize = if c < 0 { 0 } else { c as usize };
        let index: usize = if i < 0 { 0 } else { i as usize };
        let ghost s3 = self@;
        let cwd = self.files.current_directory();
        let listing = self.files.list(cwd.as_str());
        assert(s3.files.listing(s3.current_directory(), strings_view(listing@)));
        let (entries, found) = window_slots(true, &listing, index, count, 16);
        self.write_memory(destination, entries.as_slice())?;
        self.push_value(found as i32)?;
        Ok(HostAction::Continue)
    }

    fn system_getfilenum(&mut self) -> (r: Result<HostAction>)
        requires
            old(self).inv(),
        ensures
            final(self).inv(),
            final(self)@.elapsed_ms == old(self)@.elapsed_ms,
            final(self)@.time_remainder == old(self)@.time_remainder,
            r is Ok ==> final(self)@.vm.instructions_executed == old(self)@.vm.instructions_executed,
            agrees_step(r, old(self)@.sys_getfilenum(), final(self)@),
    {
        let address = self.pop_guest_address()?;
        let path = self.read_guest_text(address)?;
        let count = self.files.count(path.as_str());
        self.push_value(count)?;
        Ok(HostAction::Continue)
    }

    /// The names of `listing` that pass `extensions`, in order.
    fn filter_names(listing: &Vec<String>, extensions: &Vec<Vec<char>>) -> (names: Vec<String>)
        ensures
            strings_view(names@) == filtered(strings_view(listing@), seqs_view(extensions@)),
    {
        let ghost all = strings_view(listing@);
        let mut names: Vec<String> = Vec::new();
        let mut j: usize = 0;
        assert(all.take(0) =~= Seq::<Seq<char>>::empty());
        while j < listing.len()
            invariant
                j <= listing@.len(),
                all == strings_view(listing@),
                strings_view(names@) == filtered(all.take(j as int), seqs_view(extensions@)),
            decreases listing@.len() - j,
        {
            assert(all.take(j + 1).drop_last() =~= all.take(j as int));
            let chars = str_to_chars(listing[j].as_str());
            if extension_matches(chars.as_slice(), extensions) {
                let name = listing[j].clone();
                assert(strings_view(names@.push(name)) =~= strings_view(names@).push(name@));
                names.push(name);
            }
            j += 1;
        }
        assert(all.take(listing@.len() as int) =~= all);
        names
    }

    fn extended_findfile(&mut self) -> (r: Result<HostAction>)
        requires
            old(self).inv(),
        ensures
            final(self).inv(),
            final(self)@.elapsed_ms == old(self)@.elapsed_ms,
            final(self)@.time_remainder == old(self)@.time_remainder,
            r is Ok ==> final(self)@.vm.instructions_executed == old(self)@.vm.instructions_executed,
            old(self)@.ext_findfile(r, final(self)@),
    {
        let filter_address = self.pop_guest_address()?;
        let w = self.pop_value()?;
        let destination = self.pop_guest_address()?;
        let c = self.pop_value()?;
        let i = self.pop_value()?;
        let width: usize = if w < 1 { 1 } else { w as usize };
        let count: usize = if c < 0 { 0 } else { c as usize };
        let index: usize = if i < 0 { 0 } else { i as usize };
        let filter = self.read_c_bytes(filter_address)?;
        let extensions = parse_extensions(filter.as_slice());
        let ghost s5 = self@;
        let cwd = self.files.current_directory();
        let listing = self.files.list(cwd.as_str());
        assert(s5.files.listing(s5.current_directory(), strings_view(listing@)));
        let names = Self::filter_names(&listing, &extensions);
        let (output, found) = window_slots(false, &names, index, count, width);
        self.write_memory(destination, output.as_slice())?;
        self.push_value(found as i32)?;
        Ok(HostAction::Continue)
    }

    fn extended_getfilenum(&mut self) -> (r: Result<HostAction>)
        requires
            old(self).inv(),
        ensures
            final(self).inv(),
            final(self)@.elapsed_ms == old(self)@.elapsed_ms,
            final(self)@.time_remainder == old(self)@.time_remainder,
            r is Ok ==> final(self)@.vm.instructions_executed == old(self)@.vm.instructions_executed,
            old(self)@.ext_getfilenum(r, final(self)@),
    {
        let filter_address = self.pop_guest_address()?;
        let path_address = self.pop_guest_address()?;
        let filter = self.read_c_bytes(filter_address)?;
        let extensions = parse_extensions(filter.as_slice());
        let path = self.read_guest_text(path_address)?;
        let ghost s2 = self@;
        let listing = self.files.list(path.as_str());
        let names = Self::filter_names(&listing, &extensions);
        assert(s2.files.listing(path@, strings_view(listing@)));
        assert(names@.len() == strings_view(names@).len());
        self.push_value(names.len() as i32)?;
        Ok(HostAction::Continue)
    }

    fn extended_file_attributes(&mut self) -> (r: Result<HostAction>)
        requires
            old(self).inv(),
        ensures
            final(self).inv(),
            final(self)@.elapsed_ms == old(self)@.elapsed_ms,
            final(self)@.time_remainder == old(self)@.time_remainder,
            r is Ok ==> final(self)@.vm.instructions_executed == old(self)@.vm.instructions_executed,
            agrees_step(r, old(self)@.ext_file_attributes(), final(self)@),
    {
        let output = self.pop_guest_address()?;
        let path_address = self.pop_guest_address()?;
        let path = self.read_guest_text(path_address)?;
        let size = match self.files.file(path.as_str()) {
            Some(data) => data.len(),
            None => {
                self.push_value(0)?;
                return Ok(HostAction::Continue);
            },
        };
        let v = size as u32;
        let mut attributes: Vec<u8> = Vec::new();
        attributes.push(0u8);
        attributes.push(v as u8);
        attributes.push((v >> 8u32) as u8);
        attributes.push((v >> 16u32) as u8);
        attributes.push((v >> 24u32) as u8);
        let mut copy: u32 = 0;
        while copy < 3
            invariant
                copy <= 3,
                self.inv(),
                attributes@.len() == 5 + 8 * copy,
                attributes@.take(5) == seq![0u8] + crate::vm::bytes_u32(v),
                forall|t: int| 5 <= t < attributes@.len() ==> attributes@[t] == self@.calendar[(t - 5) % 8],
            decreases 3 - copy,
        {
            let mut b: usize = 0;
            while b < 8
                invariant
                    b <= 8,
                    copy < 3,
                    self.inv(),
                    attributes@.len() == 5 + 8 * copy + b,
                    attributes@.take(5) == seq![0u8] + crate::vm::bytes_u32(v),
                    forall|t: int| 5 <= t < attributes@.len() ==> attributes@[t] == self@.calendar[(t - 5) % 8],
                decreases 8 - b,
            {
                attributes.push(self.calendar[b]);
                b += 1;
            }
            copy += 1;
        }
        assert(attributes@ =~= seq![0u8] + crate::vm::bytes_u32(v) + self@.calendar + self@.calendar + self@.calendar);
        self.write_memory(output, attributes.as_slice())?;
        self.push_value(1)?;
        Ok(HostAction::Continue)
    }
}

impl Emulator {
    #[verifier::rlimit(60)]
    fn flm_run_exec(
        &mut self,
        kind: u16,
        encoded: &[u8],
        class: u8,
        repeated: u8,
        start: usize,
        base: u32,
        run: usize,
    ) -> (r: Result<()>)
        requires
            old(self).inv(),
            1 <= run <= 64,
            encoded@.len() < 0x2000,
            start <= encoded@.len() + 2,
            base <= 0x0100_0000,
        ensures
            final(self).inv(),
            final(self)@.elapsed_ms == old(self)@.elapsed_ms,
            final(self)@.time_remainder == old(self)@.time_remainder,
            r is Ok ==> final(self)@.vm.instructions_executed == old(self)@.vm.instructions_executed,
            match flm_run(old(self)@.vm, kind, encoded@, class, repeated, start as int, base, run as nat) {
                Ok(vm) => r == Ok::<(), Error>(()) && final(self)@ == old(self)@.with_vm(vm) && base + run <= 0x0100_0000,
                Err(e) => r == Err::<(), Error>(e),
            },
    {
        let mut pos = start;
        let mut output = base;
        let mut n: usize = run;
        while n > 0
            invariant
                self.inv(),
                n <= run <= 64,
                encoded@.len() < 0x2000,
                start <= encoded@.len() + 2,
                pos == if class == 2 { start + (run - n) } else { start as int },
                output == base + (run - n),
                output <= 0x0100_0000,
                self@ == old(self)@.with_vm(self@.vm),
                self@.vm.instructions_executed == old(self)@.vm.instructions_executed,
                flm_run(old(self)@.vm, kind, encoded@, class, repeated, start as int, base, run as nat) == flm_run(
                    self@.vm,
                    kind,
                    encoded@,
                    class,
                    repeated,
                    pos as int,
                    output,
                    n as nat,
                ),
            decreases n,
        {
            let delta: u8 = if class == 0 {
                0
            } else if class == 1 {
                0xff
            } else if class == 2 {
                if pos < encoded.len() { encoded[pos] } else { 0 }
            } else {
                repeated
            };
            if class == 2 {
                pos = pos + 1;
            }
            let value = if kind == 2 {
                let b = self.vm.read_u8(output)?;
                b.wrapping_add(delta)
            } else {
                delta
            };
            let bytes: [u8; 1] = [value];
            assert(bytes@ =~= seq![value]);
            self.write_memory(output, bytes.as_slice())?;
            proof {
                self.vm.lemma_wf();
            }
            output = output + 1;
            n = n - 1;
        }
        Ok(())
    }

    fn flm_decode(&mut self) -> (r: Result<()>)
        requires
            old(self).inv(),
        ensures
            final(self).inv(),
            final(self)@.elapsed_ms == old(self)@.elapsed_ms,
            final(self)@.time_remainder == old(self)@.time_remainder,
            r is Ok ==> final(self)@.vm.instructions_executed == old(self)@.vm.instructions_executed,
            match old(self)@.ext_flm_decode() {
                Ok(s) => r == Ok::<(), Error>(()) && final(self)@ == s,
                Err(e) => r == Err::<(), Error>(e),
            },
    {
        let destination_value = self.pop_value()?;
        let source_value = self.pop_value()?;
        let destination = self.guest_address(destination_value);
        let source = self.guest_address(source_value);
        let header = self.vm.read_u16(source)?;
        let kind = header >> 13u16;
        let length = (header & 0x1fff) as usize;
        assert(header & 0x1fff <= 0x1fff) by (bit_vector);
        if length < 2 {
            return Ok(());
        }
        let encoded = self.memory_bytes(source + 2, length - 2)?;
        if kind == 0 {
            return self.write_memory(destination, encoded.as_slice());
        }
        assert(encoded@.len() == length - 2);
        let ghost s2 = self@;
        let ghost goal = flm_commands(self@.vm, kind, encoded@, 0, destination);
        assert(old(self)@.ext_flm_decode() == match goal {
            Err(e) => Err(e),
            Ok(vm) => Ok(s2.with_vm(vm)),
        });
        let mut input: usize = 0;
        let mut output: u32 = destination;
        while input < encoded.len()
            invariant
                self.inv(),
                kind != 0,
                encoded@.len() < 0x2000,
                input <= encoded@.len() + 66,
                output <= 0x0100_0000,
                self@ == s2.with_vm(self@.vm),
                self@.vm.instructions_executed == old(self)@.vm.instructions_executed,
                s2.elapsed_ms == old(self)@.elapsed_ms,
                s2.time_remainder == old(self)@.time_remainder,
                old(self)@.ext_flm_decode() == match goal {
                    Err(e) => Err(e),
                    Ok(vm) => Ok(s2.with_vm(vm)),
                },
                goal == flm_commands(self@.vm, kind, encoded@, input as int, output),
            decreases encoded@.len() + 66 - input,
        {
            let command = encoded[input];
            let low = (command & 0x3f) as usize;
            assert(command & 0x3f <= 0x3f) by (bit_vector);
            let run: usize = if low == 0 { 64 } else { low };
            let class = command >> 6u8;
            let repeated: u8 = if class == 3 {
                if input + 1 < encoded.len() { encoded[input + 1] } else { 0 }
            } else {
                0
            };
            let start = if class == 3 { input + 2 } else { input + 1 };
            let after: usize = if class == 2 { start + run } else { start };
            self.flm_run_exec(kind, encoded.as_slice(), class, repeated, start, output, run)?;
            output = output + run as u32;
            input = after;
        }
        Ok(())
    }
}

impl Emulator {
    fn system_timer(&mut self) -> (r: Result<HostAction>)
        requires
            old(self).inv(),
        ensures
            final(self).inv(),
            final(self)@.elapsed_ms == old(self)@.elapsed_ms,
            final(self)@.time_remainder == old(self)@.time_remainder,
            r is Ok ==> final(self)@.vm.instructions_executed == old(self)@.vm.instructions_executed,
            old(self)@.sys_timer(r, final(self)@),
    {
        let ms = self.clock_ms();
        let value = ((ms % 1000) * 256 / 1000) as i32;
        let r = self.push_value(value);
        assert(value == sub_second(ms));
        r?;
        Ok(HostAction::Continue)
    }

    fn system_math(&mut self) -> (r: Result<HostAction>)
        requires
            old(self).inv(),
        ensures
            final(self).inv(),
            final(self)@.elapsed_ms == old(self)@.elapsed_ms,
            final(self)@.time_remainder == old(self)@.time_remainder,
            r is Ok ==> final(self)@.vm.instructions_executed == old(self)@.vm.instructions_executed,
            agrees_step(r, old(self)@.sys_math(), final(self)@),
    {
        let function = self.pop_value()?;
        if function == 0 {
            self.push_value(0x100)?;
            Ok(HostAction::Continue)
        } else if (7 <= function && function <= 15) || function == 19 {
            let argument = self.pop_value()?;
            Ok(HostAction::Request(crate::emulator::HostRequest::Math { function, argument }))
        } else {
            self.push_value(0)?;
            Ok(HostAction::Continue)
        }
    }

    fn system_extended(&mut self) -> (r: Result<HostAction>)
        requires
            old(self).inv(),
        ensures
            final(self).inv(),
            final(self)@.elapsed_ms == old(self)@.elapsed_ms,
            final(self)@.time_remainder == old(self)@.time_remainder,
            r is Ok ==> final(self)@.vm.instructions_executed == old(self)@.vm.instructions_executed,
            old(self)@.sys_extended(r, final(self)@),
    {
        let function = self.pop_value()?;
        if function == 29 {
            return self.extended_findfile();
        }
        if function == 30 {
            return self.extended_getfilenum();
        }
        if function == 33 {
            return self.extended_file_attributes();
        }
        if function == 31 {
            let ms = self.clock_ms();
            let value = (ms.wrapping_mul(256) / 1000) as i32;
            assert(value == tick_count(ms));
            self.push_value(value)?;
            return Ok(HostAction::Continue);
        }
        if function == 1 || function == 6 || function == 8 {
            self.pop_values(1)?;
        } else if (9 <= function && function <= 11) || function == 32 {
            self.pop_values(2)?;
        } else if function == 12 || function == 20 {
            self.pop_values(3)?;
        } else if function == 15 {
            self.flm_decode()?;
        }
        let result: i32 = if function == 0 { 0x4C000001 } else { 0 };
        self.push_value(result)?;
        Ok(HostAction::Continue)
    }
}

impl Emulator {
    fn render_conversion(&self, specifier: u8, value: i32, texts: &Vec<Vec<u8>>, fi: usize) -> (r: Result<Vec<u8>>)
        requires
            self.inv(),
        ensures
            match self@.rendered(specifier, value, texts_view(texts@), fi as int) {
                Ok(t) => r matches Ok(v) && v@ == t,
                Err(e) => r == Err::<Vec<u8>, Error>(e),
            },
    {
        if specifier == 100 {
            Ok(decimal_of(value))
        } else if specifier == 102 {
            if fi < texts.len() {
                assert(texts_view(texts@)[fi as int] == texts@[fi as int]@);
                Ok(texts[fi].clone())
            } else {
                Ok(Vec::new())
            }
        } else if specifier == 99 {
            let mut one: Vec<u8> = Vec::new();
            one.push(value as u8);
            Ok(one)
        } else if specifier == 115 {
            let address = self.guest_address(value);
            self.read_c_bytes(address)
        } else {
            let mut one: Vec<u8> = Vec::new();
            one.push(specifier);
            Ok(one)
        }
    }

    fn format_with(&self, fmt: &[u8], values: &[i32], texts: &Vec<Vec<u8>>) -> (r: Result<Vec<u8>>)
        requires
            self.inv(),
        ensures
            match self@.format_from(fmt@, values@, texts_view(texts@), 0, 0, 0) {
                Ok(out) => r matches Ok(v) && v@ == out,
                Err(e) => r == Err::<Vec<u8>, Error>(e),
            },
    {
        let ghost tv = texts_view(texts@);
        let ghost goal = self@.format_from(fmt@, values@, tv, 0, 0, 0);
        let mut output: Vec<u8> = Vec::new();
        let mut index: usize = 0;
        let mut vi: usize = 0;
        let mut fi: usize = 0;
        assert(after_prefix(output@, goal) == goal) by {
            lemma_after_prefix_empty(goal);
        }
        while index < fmt.len()
            invariant
                self.inv(),
                index <= fmt@.len(),
                vi <= index,
                fi <= index,
                tv == texts_view(texts@),
                goal == self@.format_from(fmt@, values@, tv, 0, 0, 0),
                goal == after_prefix(output@, self@.format_from(fmt@, values@, tv, index as int, vi as int, fi as int)),
            decreases fmt@.len() - index,
        {
            let ghost before = output@;
            if fmt[index] != 37 {
                let b = fmt[index];
                output.push(b);
                proof {
                    lemma_after_prefix_join(before, seq![b], self@.format_from(fmt@, values@, tv, index + 1, vi as int, fi as int));
                    assert(before + seq![b] =~= output@);
                }
                index += 1;
            } else if byte_at_of(fmt, index + 1) == 37 {
                output.push(37u8);
                proof {
                    lemma_after_prefix_join(before, seq![37u8], self@.format_from(fmt@, values@, tv, index + 2, vi as int, fi as int));
                    assert(before + seq![37u8] =~= output@);
                }
                index += 2;
            } else {
                let (left, zero, width, specifier, next) = conversion_at(fmt, index + 1);
                let value = if vi < values.len() { values[vi] } else { 0 };
                let vi2 = if specifier != 37 { vi + 1 } else { vi };
                let fi2 = if specifier == 102 { fi + 1 } else { fi };
                if specifier == 0 {
                    proof {
                        lemma_after_prefix_empty_tail(before);
                    }
                    return Ok(output);
                }
                let rendered = self.render_conversion(specifier, value, texts, fi)?;
                append_padded(&mut output, rendered.as_slice(), width, left, zero);
                proof {
                    lemma_after_prefix_join(
                        before,
                        padded(rendered@, width as int, left, zero),
                        self@.format_from(fmt@, values@, tv, next as int, vi2 as int, fi2 as int),
                    );
                }
                index = next;
                vi = vi2;
                fi = fi2;
            }
        }
        proof {
            lemma_after_prefix_empty_tail(output@);
        }
        Ok(output)
    }
}

impl Emulator {
    fn format_string(&self, arguments: &Vec<i32>) -> (r: Result<Vec<u8>>)
        requires
            self.inv(),
            arguments@.len() > 0,
        ensures
            match self@.format_string(arguments@) {
                Ok(f) => r matches Ok(v) && v@ == f,
                Err(e) => r == Err::<Vec<u8>, Error>(e),
            },
    {
        let address = self.guest_address(arguments[0]);
        self.read_c_bytes(address)
    }

    fn tail_values(arguments: &Vec<i32>) -> (values: Vec<i32>)
        requires
            arguments@.len() > 0,
        ensures
            values@ == arguments@.skip(1),
    {
        let mut values: Vec<i32> = Vec::new();
        let mut k: usize = 1;
        while k < arguments.len()
            invariant
                1 <= k <= arguments@.len(),
                values@ == arguments@.subrange(1, k as int),
            decreases arguments@.len() - k,
        {
            values.push(arguments[k]);
            k += 1;
        }
        values
    }

    /// Formats `arguments` (the format's address first) with the host's
    /// `%f` texts (see `EmulatorView::formatted`).
    fn format_arguments(&self, arguments: &Vec<i32>, texts: &Vec<Vec<u8>>) -> (r: Result<Vec<u8>>)
        requires
            self.inv(),
        ensures
            match self@.formatted(arguments@, texts_view(texts@)) {
                Ok(out) => r matches Ok(v) && v@ == out,
                Err(e) => r == Err::<Vec<u8>, Error>(e),
            },
    {
        if arguments.len() == 0 {
            return Ok(Vec::new());
        }
        let fmt = self.format_string(arguments)?;
        let values = Self::tail_values(arguments);
        self.format_with(fmt.as_slice(), values.as_slice(), texts)
    }

    fn float_arguments(&self, arguments: &Vec<i32>) -> (r: Result<Vec<i32>>)
        requires
            self.inv(),
        ensures
            match self@.float_list(arguments@) {
                Ok(f) => r matches Ok(v) && v@ == f,
                Err(e) => r == Err::<Vec<i32>, Error>(e),
            },
    {
        if arguments.len() == 0 {
            return Ok(Vec::new());
        }
        let fmt = self.format_string(arguments)?;
        let values = Self::tail_values(arguments);
        Ok(float_values_of(fmt.as_slice(), values.as_slice()))
    }

    fn emit(&mut self, target: FormatTarget, arguments: &Vec<i32>, texts: &Vec<Vec<u8>>) -> (r: Result<HostAction>)
        requires
            old(self).inv(),
        ensures
            final(self).inv(),
            final(self)@.elapsed_ms == old(self)@.elapsed_ms,
            final(self)@.time_remainder == old(self)@.time_remainder,
            agrees_step(r, old(self)@.emit(target, arguments@, texts_view(texts@)), final(self)@),
    {
        let output = self.format_arguments(arguments, texts)?;
        match target {
            FormatTarget::Console => {
                self.console.write_all(output.as_slice());
                self.console.render(&mut self.display);
                Ok(HostAction::Continue)
            },
            FormatTarget::Memory(destination) => {
                self.write_memory(destination, output.as_slice())?;
                let terminator: [u8; 1] = [0u8];
                assert(terminator@ =~= seq![0u8]);
                self.write_memory((destination as usize + output.len()) as u32, terminator.as_slice())?;
                Ok(HostAction::Continue)
            },
        }
    }

    fn begin_format(&mut self, target: FormatTarget, arguments: Vec<i32>) -> (r: Result<HostAction>)
        requires
            old(self).inv(),
            arguments@.len() > 0,
        ensures
            final(self).inv(),
            final(self)@.elapsed_ms == old(self)@.elapsed_ms,
            final(self)@.time_remainder == old(self)@.time_remainder,
            agrees_step(r, old(self)@.begin_format(target, arguments@), final(self)@),
    {
        let floats = self.float_arguments(&arguments)?;
        if floats.len() == 0 {
            let texts: Vec<Vec<u8>> = Vec::new();
            assert(texts_view(texts@) =~= Seq::<Seq<u8>>::empty());
            return self.emit(target, &arguments, &texts);
        }
        let first = floats[0];
        let texts: Vec<Vec<u8>> = Vec::new();
        assert(texts_view(texts@) =~= Seq::<Seq<u8>>::empty());
        self.pending_format = Some(PendingFormat { target, arguments, texts });
        Ok(HostAction::Request(HostRequest::FloatText(first)))
    }

    fn pop_variadic(&mut self) -> (r: Result<Vec<i32>>)
        requires
            old(self).inv(),
        ensures
            final(self).inv(),
            final(self)@.elapsed_ms == old(self)@.elapsed_ms,
            final(self)@.time_remainder == old(self)@.time_remainder,
            r is Ok ==> final(self)@.vm.instructions_executed == old(self)@.vm.instructions_executed,
            match old(self)@.pop_variadic() {
                Ok((values, s)) => r matches Ok(v) && v@ == values && final(self)@ == s,
                Err(e) => r == Err::<Vec<i32>, Error>(e),
            },
    {
        let c = self.pop_value()?;
        let count: usize = if c < 0 { 0 } else { c as usize };
        self.pop_values(count)
    }

    fn system_printf(&mut self) -> (r: Result<HostAction>)
        requires
            old(self).inv(),
        ensures
            final(self).inv(),
            final(self)@.elapsed_ms == old(self)@.elapsed_ms,
            final(self)@.time_remainder == old(self)@.time_remainder,
            r is Ok ==> final(self)@.vm.instructions_executed == old(self)@.vm.instructions_executed,
            agrees_step(r, old(self)@.sys_printf(), final(self)@),
    {
        let arguments = self.pop_variadic()?;
        if arguments.len() == 0 {
            return Ok(HostAction::Continue);
        }
        self.begin_format(FormatTarget::Console, arguments)
    }

    fn system_sprintf(&mut self) -> (r: Result<HostAction>)
        requires
            old(self).inv(),
        ensures
            final(self).inv(),
            final(self)@.elapsed_ms == old(self)@.elapsed_ms,
            final(self)@.time_remainder == old(self)@.time_remainder,
            r is Ok ==> final(self)@.vm.instructions_executed == old(self)@.vm.instructions_executed,
            agrees_step(r, old(self)@.sys_sprintf(), final(self)@),
    {
        let arguments = self.pop_variadic()?;
        if arguments.len() < 2 {
            return Ok(HostAction::Continue);
        }
        let destination = self.guest_address(arguments[0]);
        let rest = Self::tail_values(&arguments);
        self.begin_format(FormatTarget::Memory(destination), rest)
    }

    /// Goes on with a pending format once the host has supplied the text
    /// of its next `%f` value.
    pub(crate) fn continue_format(&mut self, text: Vec<u8>) -> (r: Result<HostAction>)
        requires
            old(self).inv(),
        ensures
            final(self).inv(),
            final(self)@.elapsed_ms == old(self)@.elapsed_ms,
            final(self)@.time_remainder == old(self)@.time_remainder,
            r is Ok ==> final(self)@.vm.instructions_executed == old(self)@.vm.instructions_executed,
            agrees_step(r, old(self)@.continue_format(text@), final(self)@),
    {
        let pending = match self.pending_format.take() {
            Some(p) => p,
            None => return Err(Error::UnsupportedFeature("no pending format")),
        };
        let ghost f = crate::emulator::format_view(pending);
        let PendingFormat { target, arguments, mut texts } = pending;
        texts.push(text);
        assert(texts_view(texts@) =~= f.texts.push(text@));
        let floats = self.float_arguments(&arguments)?;
        if texts.len() < floats.len() {
            let next = floats[texts.len()];
            self.pending_format = Some(PendingFormat { target, arguments, texts });
            return Ok(HostAction::Request(HostRequest::FloatText(next)));
        }
        self.emit(target, &arguments, &texts)
    }
}

impl Emulator {
    /// Runs system call `call` (see `EmulatorView::system_call`).
    #[verifier::rlimit(100)]
    pub(crate) fn dispatch_system_call(&mut self, call: u8) -> (r: Result<HostAction>)
        requires
            old(self).inv(),
            call <= 86,
        ensures
            final(self).inv(),
            final(self)@.elapsed_ms == old(self)@.elapsed_ms,
            final(self)@.time_remainder == old(self)@.time_remainder,
            r is Ok ==> final(self)@.vm.instructions_executed == old(self)@.vm.instructions_executed,
            old(self)@.system_call(call, r, final(self)@),
    {
        if call == 0 {
            self.system_putchar()
        } else if call == 1 {
            self.system_getchar()
        } else if call == 2 {
            self.system_printf()
        } else if call == 3 {
            self.system_strcpy()
        } else if call == 4 {
            self.system_strlen()
        } else if call == 5 {
            self.system_setscreen()
        } else if call == 6 {
            self.system_update_lcd()
        } else if call == 7 {
            self.system_delay()
        } else if call == 8 {
            self.system_write_block()
        } else if call == 9 {
            self.display.present();
            Ok(HostAction::Continue)
        } else if call == 10 {
            self.system_textout()
        } else if call == 11 || call == 12 {
            self.system_rectangle(call == 11)
        } else if call == 13 {
            self.system_exit()
        } else if call == 14 {
            self.display.clear(BufferTarget::Back);
            Ok(HostAction::Continue)
        } else if call == 15 {
            self.system_abs()
        } else if call == 16 {
            self.system_rand()
        } else if call == 17 {
            self.system_srand()
        } else if call == 18 {
            self.system_locate()
        } else if call == 19 {
            self.system_inkey()
        } else if call == 20 {
            self.system_point()
        } else if call == 21 {
            self.system_getpoint()
        } else if call == 22 {
            self.system_line()
        } else if call == 23 {
            self.system_box()
        } else if call == 24 || call == 25 {
            self.system_ellipse(call == 24)
        } else if call == 26 {
            Ok(HostAction::Continue)
        } else if 27 <= call && call <= 37 {
            self.system_ctype(call)
        } else if call == 38 {
            self.system_strcat()
        } else if call == 39 {
            self.system_strchr()
        } else if call == 40 {
            self.system_string_compare()
        } else if call == 41 {
            self.system_strstr()
        } else if call == 42 || call == 43 {
            self.system_case(call == 43)
        } else if call == 44 {
            self.system_memset()
        } else if call == 45 || call == 61 {
            self.system_memcpy()
        } else if call == 46 {
            self.system_fopen()
        } else if call == 47 {
            self.system_fclose()
        } else if call == 48 {
            self.system_fread()
        } else if call == 49 {
            self.system_fwrite()
        } else if call == 50 {
            self.system_fseek()
        } else if call == 51 {
            self.system_ftell()
        } else if call == 52 {
            self.system_feof()
        } else if call == 53 {
            self.system_rewind()
        } else if call == 54 {
            self.system_getc()
        } else if call == 55 {
            self.system_putc()
        } else if call == 56 {
            self.system_sprintf()
        } else if call == 57 {
            self.system_makedir()
        } else if call == 58 {
            self.system_delete()
        } else if call == 59 {
            self.system_timer()
        } else if call == 60 {
            self.system_checkkey()
        } else if call == 62 {
            self.system_crc16()
        } else if call == 63 {
            self.system_xor()
        } else if call == 64 {
            self.system_chdir()
        } else if call == 65 {
            self.pop_values(1)?;
            self.push_value(0)?;
            Ok(HostAction::Continue)
        } else if call == 66 {
            self.system_gettime()
        } else if call == 67 {
            self.system_settime()
        } else if call == 68 {
            self.pop_values(1)?;
            self.system_getchar()
        } else if call == 69 {
            self.system_transform()
        } else if call == 70 {
            self.system_releasekey()
        } else if call == 71 {
            self.system_getblock()
        } else if call == 72 || call == 73 {
            self.system_trig(call == 72)
        } else if call == 74 || call == 78 {
            self.pop_values(if call == 74 { 3 } else { 2 })?;
            Ok(HostAction::Continue)
        } else if call == 75 {
            self.system_set_graphics_mode()
        } else if call == 76 || call == 77 || call == 79 {
            let value = self.pop_value()? as u8;
            if call == 76 {
                self.display.set_background(value);
            } else if call == 77 {
                self.display.set_foreground(value);
            } else {
                self.display.fade(value);
            }
            Ok(HostAction::Continue)
        } else if call == 80 {
            self.pop_values(3)?;
            self.push_value(-1)?;
            Ok(HostAction::Continue)
        } else if call == 81 {
            self.system_findfile()
        } else if call == 82 {
            self.system_getfilenum()
        } else if call == 83 {
            self.system_extended()
        } else if call == 84 {
            self.system_math()
        } else if call == 85 {
            self.system_setpalette()
        } else {
            self.system_getcmdline()
        }
    }
}


/// Handing a `%f` text to a pending format runs no instruction.
pub proof fn lemma_continue_format_count(s: EmulatorView, text: Seq<u8>)
    ensures
        s.continue_format(text) matches Ok((_a, t)) ==> t.vm.instructions_executed == s.vm.instructions_executed,
{
}


/// System call 59 succeeds below 64 stacked values: it starts the clock if
/// needed, pushes the fraction of the current second scaled to 0..=255, and
/// the frame goes on.
pub proof fn law_timer_succeeds(s: EmulatorView, r: Result<HostAction>, after: EmulatorView)
    requires
        s.vm.wf(),
        s.vm.evaluation_top / 4 < 64,
        s.system_call(59, r, after),
    ensures
        r == Ok::<HostAction, Error>(HostAction::Continue),
        exists|v: i32| 0 <= v <= 255 && s.started().push(v) == Ok::<EmulatorView, Error>(after),
{
    let ms = choose|ms: u32| agrees_step(r, continued(s.started().push(#[trigger] sub_second(ms))), after);
    let v = sub_second(ms);
    assert(0 <= (ms % 1000) * 256 / 1000 <= 255) by (nonlinear_arith);
    crate::vm::law_push_below_capacity(s.vm, v);
    assert(s.started().push(v) == Ok::<EmulatorView, Error>(after));
}


/// Every entry of the quarter-wave table lies in 0..=1024.
proof fn lemma_sin90_range()
    ensures
        forall|i: int| 0 <= i <= 90 ==> 0 <= #[trigger] sin90(i) <= 1024,
{
    assert forall|i: int| 0 <= i <= 90 implies 0 <= #[trigger] sin90(i) <= 1024 by {
        if i == 0 {
            assert(0 <= sin90(0) <= 1024);
        } else if i == 1 {
            assert(0 <= sin90(1) <= 1024);
        } else if i == 2 {
            assert(0 <= sin90(2) <= 1024);
        } else if i == 3 {
            assert(0 <= sin90(3) <= 1024);
        } else if i == 4 {
            assert(0 <= sin90(4) <= 1024);
        } else if i == 5 {
            assert(0 <= sin90(5) <= 1024);
        } else if i == 6 {
            assert(0 <= sin90(6) <= 1024);
        } else if i == 7 {
            assert(0 <= sin90(7) <= 1024);
        } else if i == 8 {
            assert(0 <= sin90(8) <= 1024);
        } else if i == 9 {
            assert(0 <= sin90(9) <= 1024);
        } else if i == 10 {
            assert(0 <= sin90(10) <= 1024);
        } else if i == 11 {
            assert(0 <= sin90(11) <= 1024);
        } else if i == 12 {
            assert(0 <= sin90(12) <= 1024);
        } else if i == 13 {
            assert(0 <= sin90(13) <= 1024);
        } else if i == 14 {
            assert(0 <= sin90(14) <= 1024);
        } else if i == 15 {
            assert(0 <= sin90(15) <= 1024);
        } else if i == 16 {
            assert(0 <= sin90(16) <= 1024);
        } else if i == 17 {
            assert(0 <= sin90(17) <= 1024);
        } else if i == 18 {
            assert(0 <= sin90(18) <= 1024);
        } else if i == 19 {
            assert(0 <= sin90(19) <= 1024);
        } else if i == 20 {
            assert(0 <= sin90(20) <= 1024);
        } else if i == 21 {
            assert(0 <= sin90(21) <= 1024);
        } else if i == 22 {
            assert(0 <= sin90(22) <= 1024);
        } else if i == 23 {
            assert(0 <= sin90(23) <= 1024);
        } else if i == 24 {
            assert(0 <= sin90(24) <= 1024);
        } else if i == 25 {
            assert(0 <= sin90(25) <= 1024);
        } else if i == 26 {
            assert(0 <= sin90(26) <= 1024);
        } else if i == 27 {
            assert(0 <= sin90(27) <= 1024);
        } else if i == 28 {
            assert(0 <= sin90(28) <= 1024);
        } else if i == 29 {
            assert(0 <= sin90(29) <= 1024);
        } else if i == 30 {
            assert(0 <= sin90(30) <= 1024);
        } else if i == 31 {
            assert(0 <= sin90(31) <= 1024);
        } else if i == 32 {
            assert(0 <= sin90(32) <= 1024);
        } else if i == 33 {
            assert(0 <= sin90(33) <= 1024);
        } else if i == 34 {
            assert(0 <= sin90(34) <= 1024);
        } else if i == 35 {
            assert(0 <= sin90(35) <= 1024);
        } else if i == 36 {
            assert(0 <= sin90(36) <= 1024);
        } else if i == 37 {
            assert(0 <= sin90(37) <= 1024);
        } else if i == 38 {
            assert(0 <= sin90(38) <= 1024);
        } else if i == 39 {
            assert(0 <= sin90(39) <= 1024);
        } else if i == 40 {
            assert(0 <= sin90(40) <= 1024);
        } else if i == 41 {
            assert(0 <= sin90(41) <= 1024);
        } else if i == 42 {
            assert(0 <= sin90(42) <= 1024);
        } else if i == 43 {
            assert(0 <= sin90(43) <= 1024);
        } else if i == 44 {
            assert(0 <= sin90(44) <= 1024);
        } else if i == 45 {
            assert(0 <= sin90(45) <= 1024);
        } else if i == 46 {
            assert(0 <= sin90(46) <= 1024);
        } else if i == 47 {
            assert(0 <= sin90(47) <= 1024);
        } else if i == 48 {
            assert(0 <= sin90(48) <= 1024);
        } else if i == 49 {
            assert(0 <= sin90(49) <= 1024);
        } else if i == 50 {
            assert(0 <= sin90(50) <= 1024);
        } else if i == 51 {
            assert(0 <= sin90(51) <= 1024);
        } else if i == 52 {
            assert(0 <= sin90(52) <= 1024);
        } else if i == 53 {
            assert(0 <= sin90(53) <= 1024);
        } else if i == 54 {
            assert(0 <= sin90(54) <= 1024);
        } else if i == 55 {
            assert(0 <= sin90(55) <= 1024);
        } else if i == 56 {
            assert(0 <= sin90(56) <= 1024);
        } else if i == 57 {
            assert(0 <= sin90(57) <= 1024);
        } else if i == 58 {
            assert(0 <= sin90(58) <= 1024);
        } else if i == 59 {
            assert(0 <= sin90(59) <= 1024);
        } else if i == 60 {
            assert(0 <= sin90(60) <= 1024);
        } else if i == 61 {
            assert(0 <= sin90(61) <= 1024);
        } else if i == 62 {
            assert(0 <= sin90(62) <= 1024);
        } else if i == 63 {
            assert(0 <= sin90(63) <= 1024);
        } else if i == 64 {
            assert(0 <= sin90(64) <= 1024);
        } else if i == 65 {
            assert(0 <= sin90(65) <= 1024);
        } else if i == 66 {
            assert(0 <= sin90(66) <= 1024);
        } else if i == 67 {
            assert(0 <= sin90(67) <= 1024);
        } else if i == 68 {
            assert(0 <= sin90(68) <= 1024);
        } else if i == 69 {
            assert(0 <= sin90(69) <= 1024);
        } else if i == 70 {
            assert(0 <= sin90(70) <= 1024);
        } else if i == 71 {
            assert(0 <= sin90(71) <= 1024);
        } else if i == 72 {
            assert(0 <= sin90(72) <= 1024);
        } else if i == 73 {
            assert(0 <= sin90(73) <= 1024);
        } else if i == 74 {
            assert(0 <= sin90(74) <= 1024);
        } else if i == 75 {
            assert(0 <= sin90(75) <= 1024);
        } else if i == 76 {
            assert(0 <= sin90(76) <= 1024);
        } else if i == 77 {
            assert(0 <= sin90(77) <= 1024);
        } else if i == 78 {
            assert(0 <= sin90(78) <= 1024);
        } else if i == 79 {
            assert(0 <= sin90(79) <= 1024);
        } else if i == 80 {
            assert(0 <= sin90(80) <= 1024);
        } else if i == 81 {
            assert(0 <= sin90(81) <= 1024);
        } else if i == 82 {
            assert(0 <= sin90(82) <= 1024);
        } else if i == 83 {
            assert(0 <= sin90(83) <= 1024);
        } else if i == 84 {
            assert(0 <= sin90(84) <= 1024);
        } else if i == 85 {
            assert(0 <= sin90(85) <= 1024);
        } else if i == 86 {
            assert(0 <= sin90(86) <= 1024);
        } else if i == 87 {
            assert(0 <= sin90(87) <= 1024);
        } else if i == 88 {
            assert(0 <= sin90(88) <= 1024);
        } else if i == 89 {
            assert(0 <= sin90(89) <= 1024);
        } else if i == 90 {
            assert(0 <= sin90(90) <= 1024);
        }
    }
}

/// The integer sine of any non-negative angle, as `sin_lookup` gives it.
pub open spec fn sine_of(degrees: int) -> int {
    spec_sin(degrees % 360) as int
}

/// The integer sine is 1024 times the sine: 0, 1024, 0 and -1024 at the
/// four right angles; it repeats every 360 degrees, is symmetric about 90
/// degrees, changes sign over 180 degrees and never exceeds 1024.
pub proof fn law_sine_table(d: int)
    requires
        0 <= d,
    ensures
        sine_of(0) == 0 && sine_of(90) == 1024 && sine_of(180) == 0 && sine_of(270) == -1024,
        sine_of(d + 360) == sine_of(d),
        d <= 90 ==> sine_of(180 - d) == sine_of(d),
        d < 180 ==> sine_of(d + 180) == -sine_of(d),
        -1024 <= sine_of(d) <= 1024,
{
    lemma_sin90_range();
    assert(sin90(0) == 0 && sin90(90) == 1024);
    vstd::arithmetic::div_mod::lemma_fundamental_div_mod(d, 360);
    vstd::arithmetic::div_mod::lemma_mod_add_multiples_vanish(d, 360);
    let m = d % 360;
    assert(0 <= m < 360);
    if d <= 90 {
        vstd::arithmetic::div_mod::lemma_small_mod(d as nat, 360);
        vstd::arithmetic::div_mod::lemma_small_mod((180 - d) as nat, 360);
    }
    if d < 180 {
        vstd::arithmetic::div_mod::lemma_small_mod(d as nat, 360);
        vstd::arithmetic::div_mod::lemma_small_mod((d + 180) as nat, 360);
    }
    vstd::arithmetic::div_mod::lemma_small_mod(0, 360);
    vstd::arithmetic::div_mod::lemma_small_mod(90, 360);
    vstd::arithmetic::div_mod::lemma_small_mod(180, 360);
    vstd::arithmetic::div_mod::lemma_small_mod(270, 360);
    assert(0 <= sin90(m) <= 1024 || !(0 <= m <= 90));
    if m >= 90 && m < 180 {
        assert(0 <= sin90(180 - m) <= 1024);
    } else if m >= 180 && m < 270 {
        assert(0 <= sin90(m - 180) <= 1024);
    } else if m >= 270 {
        assert(0 <= sin90(360 - m) <= 1024);
    }
}


/// String length (system call 4) pushes the number of bytes before the
/// terminator of the string at the popped address. String copy (3) leaves
/// the source string (the top value's address) at the destination (the
/// address below it), and string append (38) leaves there the destination
/// string followed by the source string.
pub proof fn law_string_calls(s: EmulatorView)
    requires
        s.vm.wf(),
    ensures
        ({
            let source = s.pop_address()->Ok_0.0;
            let s1 = s.pop_address()->Ok_0.1;
            let destination = s1.pop_address()->Ok_0.0;
            &&& s.sys_strlen() matches Ok((_, t)) ==> (s.c_string(source) matches Ok(text) && t.vm.pop() matches Ok(
                (n, _),
            ) && n == text.len())
            &&& s.sys_strcpy() matches Ok((_, t)) ==> (s.c_string(source) matches Ok(text) && t.c_string(destination)
                == Ok::<Seq<u8>, Error>(text))
            &&& s.sys_strcat() matches Ok((_, t)) ==> (s.c_string(source) matches Ok(tail) && s.c_string(
                destination,
            ) matches Ok(head) && t.c_string(destination) == Ok::<Seq<u8>, Error>(head + tail))
        }),
{
    if let Ok((source, s1)) = s.pop_address() {
        law_c_string(s.vm, source);
        assert(s1.vm.wf());
        if let Ok(text) = s1.c_string(source) {
            assert(text.len() < s.vm.memory.len());
            law_push_then_pop(s1.vm, text.len() as i32);
        }
        if let Ok((destination, s2)) = s1.pop_address() {
            law_c_string(s.vm, destination);
            assert(s2.vm.wf());
            if let Ok(text) = s2.c_string(source) {
                law_string_write_then_read(s2.vm, destination, text);
                if let Ok(head) = s2.c_string(destination) {
                    let joined = head + text;
                    assert forall|i: int| 0 <= i < joined.len() implies joined[i] != 0 by {
                        if i < head.len() {
                            assert(joined[i] == head[i]);
                        } else {
                            assert(joined[i] == text[i - head.len()]);
                        }
                    }
                    law_string_write_then_read(s2.vm, destination, joined);
                }
            }
        }
    }
}


/// Filling memory (system call 44) sets each of the `length` bytes from
/// the destination on to the low byte of the fill value; copying memory
/// (45) gives those bytes the values that the `length` bytes from the
/// source had before the call, so overlapping ranges copy as if through a
/// buffer. Memory outside the destination range keeps its bytes.
pub proof fn law_memory_calls(s: EmulatorView)
    requires
        s.vm.wf(),
    ensures
        ({
            let length = s.pop_length()->Ok_0.0;
            let s1 = s.pop_length()->Ok_0.1;
            let value = s1.pop()->Ok_0.0;
            let fill_destination = s1.pop()->Ok_0.1.pop_address()->Ok_0.0;
            let source = s1.pop_address()->Ok_0.0;
            let copy_destination = s1.pop_address()->Ok_0.1.pop_address()->Ok_0.0;
            &&& s.sys_memset() matches Ok((_, t)) ==> {
                &&& forall|i: int| 0 <= i < length ==> #[trigger] t.vm.memory[fill_destination + i] == value as u8
                &&& forall|i: int|
                    0 <= i < s.vm.memory.len() && !(fill_destination <= i < fill_destination + length)
                        ==> #[trigger] t.vm.memory[i] == s.vm.memory[i]
            }
            &&& s.sys_memcpy() matches Ok((_, t)) ==> {
                &&& forall|i: int| 0 <= i < length ==> #[trigger] t.vm.memory[copy_destination + i] == s.vm.memory[source + i]
                &&& forall|i: int|
                    0 <= i < s.vm.memory.len() && !(copy_destination <= i < copy_destination + length)
                        ==> #[trigger] t.vm.memory[i] == s.vm.memory[i]
            }
        }),
{
    if let Ok((length, s1)) = s.pop_length() {
        if let Ok((value, s2)) = s1.pop() {
            if let Ok((destination, s3)) = s2.pop_address() {
                assert(s3.vm.wf());
                let bytes = Seq::new(length as nat, |_i: int| value as u8);
                law_write_then_read(s3.vm, destination, bytes);
                if let Ok(vm) = s3.vm.write_bytes(destination, bytes) {
                    assert forall|i: int| 0 <= i < length implies #[trigger] vm.memory[destination + i] == value as u8 by {
                        assert(vm.read_u8((destination + i) as u32) == Ok::<u8, Error>(bytes[i]));
                        assert((destination + i) as u32 == destination + i);
                    }
                }
            }
        }
        if let Ok((source, s2)) = s1.pop_address() {
            if let Ok((destination, s3)) = s2.pop_address() {
                assert(s3.vm.wf());
                if let Ok(data) = s3.memory_bytes(source, length) {
                    law_write_then_read(s3.vm, destination, data);
                    if let Ok(vm) = s3.vm.write_bytes(destination, data) {
                        assert forall|i: int| 0 <= i < length implies #[trigger] vm.memory[destination + i]
                            == s.vm.memory[source + i] by {
                            assert(vm.read_u8((destination + i) as u32) == Ok::<u8, Error>(data[i]));
                            assert((destination + i) as u32 == destination + i);
                        }
                    }
                }
            }
        }
    }
}


/// String comparison (system call 40) of the string at the address below
/// the top value (left) with the string at the top value's address
/// (right) pushes -1 when the left string comes first in byte order, 0
/// when both are equal and 1 when the right one comes first.
pub proof fn law_string_compare(s: EmulatorView)
    requires
        s.vm.wf(),
    ensures
        ({
            let right = s.pop_address()->Ok_0.0;
            let left = s.pop_address()->Ok_0.1.pop_address()->Ok_0.0;
            s.sys_string_compare() matches Ok((_, t)) ==> (s.c_string(left) matches Ok(a) && s.c_string(right) matches Ok(
                b,
            ) && t.vm.pop() matches Ok((v, _)) && (v == -1 <==> bytes_before(a, b)) && (v == 0 <==> a == b) && (v
                == 1 <==> bytes_before(b, a)))
        }),
{
    if let Ok((right, s1)) = s.pop_address() {
        if let Ok((left, s2)) = s1.pop_address() {
            assert(s2.vm.wf());
            if let (Ok(a), Ok(b)) = (s2.c_string(left), s2.c_string(right)) {
                law_byte_order(a, b);
                law_push_then_pop(s2.vm, byte_order(a, b));
            }
        }
    }
}

} // verus!
