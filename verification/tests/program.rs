use lavaxemu_core::{AddressWidth, Error, GraphicsMode, Program, LAV_HEADER_SIZE, LAV_MAGIC};

fn image(flags: u8, width: u8, height: u8) -> Vec<u8> {
    let mut data = vec![0; LAV_HEADER_SIZE + 1];
    data[..4].copy_from_slice(&LAV_MAGIC);
    data[8] = flags;
    data[9] = width;
    data[10] = height;
    data[16] = 0x7f;
    data
}

#[test]
fn parses_color8_program_header() {
    let program = Program::load(&image(0xf0, 15, 10)).unwrap();
    assert_eq!(program.header().address_width, AddressWidth::Bits32);
    assert_eq!(program.header().graphics_mode, GraphicsMode::Color8);
    assert_eq!((program.header().width, program.header().height), (240, 160));
    assert!(!program.header().has_pointer);
    assert_eq!(program.bytecode(), &[0x7f]);
}

#[test]
fn applies_legacy_dimension_limits() {
    let program = Program::load(&image(0x41, 0, 255)).unwrap();
    assert_eq!(program.header().address_width, AddressWidth::Bits16);
    assert_eq!(program.header().graphics_mode, GraphicsMode::Color4);
    assert_eq!((program.header().width, program.header().height), (160, 240));
    assert!(program.header().has_pointer);
}

#[test]
fn rejects_invalid_magic() {
    let error = Program::load(&[0; LAV_HEADER_SIZE]).unwrap_err();
    assert_eq!(error, Error::InvalidMagic([0; 4]));
}

#[test]
fn rejects_truncated_input() {
    let error = Program::load(&LAV_MAGIC).unwrap_err();
    assert_eq!(error, Error::FileTooShort { expected: LAV_HEADER_SIZE, actual: 4 });
}

#[test]
fn header_flags_pick_width_and_mode() {
    assert_eq!(AddressWidth::Bits16.bits(), 16);
    assert_eq!(AddressWidth::Bits32.bits(), 32);
    assert_eq!(GraphicsMode::Mono.bits_per_pixel(), 1);
    assert_eq!(GraphicsMode::Color8.bits_per_pixel(), 8);
    let program = Program::load(&image(0x00, 20, 10)).unwrap();
    assert_eq!(program.header().graphics_mode, GraphicsMode::Mono);
    assert_eq!((program.header().width, program.header().height), (320, 160));
    assert_eq!(program.image().len(), LAV_HEADER_SIZE + 1);
}
