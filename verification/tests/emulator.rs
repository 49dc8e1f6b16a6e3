use lavaxemu_core::{
    FONT_SIZE,
    Emulator, Error, FloatRequest, FrameStatus, HostReply, HostRequest, Program, LAV_HEADER_SIZE, LAV_MAGIC,
};

fn emulator(bytecode: &[u8]) -> Emulator {
    let mut image = vec![0; LAV_HEADER_SIZE];
    image[..4].copy_from_slice(&LAV_MAGIC);
    image[8] = 0xf0;
    image[9] = 15;
    image[10] = 10;
    image.extend_from_slice(bytecode);
    Emulator::new(Program::load(&image).unwrap(), vec![0; FONT_SIZE])
}

#[test]
fn runs_drawing_calls_and_presents_a_frame() {
    let mut emulator = emulator(&[
        0x01, 2, // x
        0x01, 3, // y
        0x01, 0x41, // set on the back buffer
        0x94, // point
        0x89, // present
        0x40,
    ]);
    let frame = emulator.run_frame().unwrap();
    assert_eq!(frame.status, FrameStatus::Halted(0));
    assert_eq!(emulator.display().indexed_frame()[3 * 240 + 2], 255);
}

#[test]
fn waits_for_and_delivers_input() {
    let mut emulator = emulator(&[0x81, 0x38, 0x40]);
    assert_eq!(emulator.run_frame().unwrap().status, FrameStatus::WaitingForInput);
    emulator.input_mut().set_key(b'A', true);
    assert_eq!(emulator.run_frame().unwrap().status, FrameStatus::Halted(0));
    assert_eq!(emulator.vm().result(), i32::from(b'A'));
}

#[test]
fn provides_deterministic_virtual_files() {
    let mut emulator = emulator(&[0x40]);
    emulator.files_mut().import_file("/data/save.dat", vec![1, 2, 3]);
    let handle = emulator.files_mut().open("/data/save.dat", "rb").unwrap();
    assert_eq!(emulator.files_mut().read(handle, 3).unwrap(), [1, 2, 3]);
}

#[test]
fn crc_matches_the_ccitt_check_value() {
    let mut crc = 0u16;
    for &byte in b"123456789" {
        crc ^= u16::from(byte) << 8;
        for _ in 0..8 {
            crc = if crc & 0x8000 != 0 { (crc << 1) ^ 0x1021 } else { crc << 1 };
        }
    }
    assert_eq!(crc, 0x31c3);
}

#[test]
fn the_guest_crc_call_matches_the_ccitt_check_value() {
    // crc of the 9 bytes "123456789" at 0x3000 (system call 62); keep it in the result
    let mut emulator = emulator(&[0x03, 0x00, 0x30, 0, 0, 0x01, 9, 0xbe, 0x38, 0x40]);
    emulator.vm_mut().memory_mut()[0x3000..0x3009].copy_from_slice(b"123456789");
    assert_eq!(emulator.run_frame().unwrap().status, FrameStatus::Halted(0));
    assert_eq!(emulator.vm().result(), 0x31c3);
}

#[test]
fn a_float_instruction_waits_for_the_host() {
    let one = 1.0f32.to_bits() as i32;
    let two = 2.0f32.to_bits() as i32;
    let mut code = vec![0x03];
    code.extend_from_slice(&one.to_le_bytes());
    code.push(0x03);
    code.extend_from_slice(&two.to_le_bytes());
    code.extend_from_slice(&[0x56, 0x38, 0x40]);
    let mut emulator = emulator(&code);
    let frame = emulator.run_frame().unwrap();
    let request = FloatRequest { opcode: 0x56, lhs: one, rhs: two };
    assert_eq!(frame.status, FrameStatus::Host(HostRequest::Float(request)));
    assert_eq!(frame.instructions, 3);
    // while the request is open a new frame reports it again and runs nothing
    let again = emulator.run_frame().unwrap();
    assert_eq!(again.status, FrameStatus::Host(HostRequest::Float(request)));
    assert_eq!(again.instructions, 0);
    let three = 3.0f32.to_bits() as i32;
    let done = emulator.resume_frame(HostReply::Value(three)).unwrap();
    assert_eq!(done.status, FrameStatus::Halted(0));
    assert_eq!(done.instructions, 5);
    assert_eq!(emulator.vm().result(), three);
}

#[test]
fn a_reply_needs_a_matching_request() {
    let mut emulator = emulator(&[0x40]);
    assert_eq!(
        emulator.resume_frame(HostReply::Value(1)),
        Err(Error::UnsupportedFeature("no host request is pending"))
    );
    let mut emulator = self::emulator(&[0x01, 5, 0x54, 0x38, 0x40]);
    let frame = emulator.run_frame().unwrap();
    assert_eq!(frame.status, FrameStatus::Host(HostRequest::Float(FloatRequest { opcode: 0x54, lhs: 5, rhs: 0 })));
    assert_eq!(
        emulator.resume_frame(HostReply::Text(b"5".to_vec())),
        Err(Error::UnsupportedFeature("the reply does not answer the pending request"))
    );
    let done = emulator.resume_frame(HostReply::Value(5.0f32.to_bits() as i32)).unwrap();
    assert_eq!(done.status, FrameStatus::Halted(0));
    assert_eq!(emulator.vm().result(), 5.0f32.to_bits() as i32);
}

#[test]
fn sprintf_asks_the_host_for_float_text() {
    // sprintf(0x3100, "x=%f", 1.5)
    let value = 1.5f32.to_bits() as i32;
    let mut code = vec![0x03, 0x00, 0x31, 0, 0, 0x03, 0x00, 0x30, 0, 0, 0x03];
    code.extend_from_slice(&value.to_le_bytes());
    code.extend_from_slice(&[0x01, 3, 0xb8, 0x40]);
    let mut emulator = emulator(&code);
    emulator.vm_mut().memory_mut()[0x3000..0x3005].copy_from_slice(b"x=%f\0");
    let frame = emulator.run_frame().unwrap();
    assert_eq!(frame.status, FrameStatus::Host(HostRequest::FloatText(value)));
    assert_eq!(frame.system_calls, 1);
    let done = emulator.resume_frame(HostReply::Text(b"1.5".to_vec())).unwrap();
    assert_eq!(done.status, FrameStatus::Halted(0));
    assert_eq!(&emulator.vm().memory()[0x3100..0x3106], b"x=1.5\0");
}

#[test]
fn a_frame_stays_within_its_budget() {
    // an endless loop: jump to the start of the bytecode
    let start = LAV_HEADER_SIZE as u32;
    let mut emulator = emulator(&[0x3b, start as u8, (start >> 8) as u8, (start >> 16) as u8]);
    let frame = emulator.run_frame_with_budget(2500).unwrap();
    assert_eq!(frame.status, FrameStatus::Running);
    assert_eq!(frame.instructions, 2500);
    assert_eq!(emulator.vm().instructions_executed(), 2500);
    let frame = emulator.run_frame_with_budget(0).unwrap();
    assert_eq!(frame.status, FrameStatus::Running);
    assert_eq!(frame.instructions, 0);
}

#[test]
fn a_halted_program_reports_its_exit_code_each_frame() {
    let mut emulator = emulator(&[0x40]);
    assert_eq!(emulator.run_frame().unwrap().status, FrameStatus::Halted(0));
    let frame = emulator.run_frame().unwrap();
    assert_eq!(frame.status, FrameStatus::Halted(0));
    assert_eq!(frame.instructions, 0);
}

#[test]
fn frames_advance_the_clock_by_a_sixtieth_of_a_second() {
    let mut emulator = emulator(&[0x40]);
    for _ in 0..3 {
        emulator.run_frame().unwrap();
    }
    assert_eq!(emulator.elapsed_ms(), 50);
    emulator.reset();
    assert_eq!(emulator.elapsed_ms(), 0);
    assert!(emulator.vm().is_running());
}

#[test]
fn a_delay_sleeps_for_whole_frames() {
    // delay(100 ms) = 25 ticks of 1/256 s; a frame takes 256/60 of them
    let mut emulator = emulator(&[0x01, 100, 0x87, 0x40]);
    assert_eq!(emulator.run_frame().unwrap().status, FrameStatus::Delayed);
    let mut delayed = 0;
    loop {
        let frame = emulator.run_frame().unwrap();
        if frame.status != FrameStatus::Delayed {
            assert_eq!(frame.status, FrameStatus::Halted(0));
            break;
        }
        delayed += 1;
    }
    assert_eq!(delayed, 5);
}

#[test]
fn a_math_call_asks_the_host() {
    // sqrt(4.0) via system call 84: argument, then function 13
    let four = 4.0f32.to_bits() as i32;
    let mut code = vec![0x03];
    code.extend_from_slice(&four.to_le_bytes());
    code.extend_from_slice(&[0x01, 13, 0xd4, 0x38, 0x40]);
    let mut emulator = emulator(&code);
    let frame = emulator.run_frame().unwrap();
    assert_eq!(frame.status, FrameStatus::Host(HostRequest::Math { function: 13, argument: four }));
    let two = 2.0f32.to_bits() as i32;
    assert_eq!(emulator.resume_frame(HostReply::Value(two)).unwrap().status, FrameStatus::Halted(0));
    assert_eq!(emulator.vm().result(), two);
}

#[test]
fn the_command_line_reaches_the_guest() {
    let mut emulator = emulator(&[0x40]);
    emulator.set_command_line(b"one two".to_vec());
    assert_eq!(emulator.run_frame().unwrap().status, FrameStatus::Halted(0));
}

#[test]
fn guest_paths_are_gbk_text() {
    // fopen("存档.dat" in GBK, "rb"), keep the handle in the result
    let mut emulator = emulator(&[0x03, 0x00, 0x30, 0, 0, 0x03, 0x00, 0x31, 0, 0, 0xae, 0x38, 0x40]);
    emulator.files_mut().import_file("/存档.dat", vec![1]);
    emulator.vm_mut().memory_mut()[0x3000..0x3009].copy_from_slice(b"\xb4\xe6\xb5\xb5.dat\0");
    emulator.vm_mut().memory_mut()[0x3100..0x3103].copy_from_slice(b"rb\0");
    assert_eq!(emulator.run_frame().unwrap().status, FrameStatus::Halted(0));
    assert_eq!(emulator.vm().result(), 0x80);
}

#[test]
fn file_names_reach_the_guest_in_gbk() {
    // findfile(index 1, count 1, destination 0x3200)
    let mut emulator = emulator(&[0x01, 1, 0x01, 1, 0x03, 0x00, 0x32, 0, 0, 0xd1, 0x38, 0x40]);
    emulator.files_mut().import_file("/存档.dat", vec![1]);
    assert_eq!(emulator.run_frame().unwrap().status, FrameStatus::Halted(0));
    assert_eq!(emulator.vm().result(), 1);
    assert_eq!(&emulator.vm().memory()[0x3200..0x3210], b"\xb4\xe6\xb5\xb5.dat\0\0\0\0\0\0\0\0");
}

#[test]
fn the_platform_signature_identifies_lavax_hardware() {
    // extended call 0 (GetPID)
    let mut emulator = emulator(&[0x01, 0, 0xd3, 0x38, 0x40]);
    assert_eq!(emulator.run_frame().unwrap().status, FrameStatus::Halted(0));
    assert_eq!(emulator.vm().result(), 0x4c00_0001);
}

#[test]
fn a_new_machine_has_an_empty_file_system() {
    let emulator = emulator(&[0x40]);
    assert!(emulator.files().files().is_empty());
    assert_eq!(emulator.files().current_directory(), "/");
    assert_eq!(emulator.vm().pc(), LAV_HEADER_SIZE);
    assert_eq!(emulator.vm().stack_depth(), 0);
}

#[test]
fn the_timer_reads_a_fraction_of_a_second() {
    // system call 59, keep its value in the result
    let mut emulator = emulator(&[0xbb, 0x38, 0x40]);
    assert_eq!(emulator.run_frame().unwrap().status, FrameStatus::Halted(0));
    assert!((0..=255).contains(&emulator.vm().result()));
}
