use vstd::prelude::*;

use crate::bytes::copy_bytes;
use crate::error::{Error, Result};

verus! {

/// The signature that opens every LAV image.
pub const LAV_MAGIC: [u8; 4] = [76u8, 65u8, 86u8, 18u8];

/// Size of the fixed LAV header; bytecode starts right after it.
pub const LAV_HEADER_SIZE: usize = 16;

/// Width of guest addresses encoded in the bytecode.
#[derive(Debug, Clone, Copy, PartialEq, Eq, Structural)]
pub enum AddressWidth {
    Bits16,
    Bits24,
    Bits32,
}

impl AddressWidth {
    pub open spec fn spec_bits(self) -> u8 {
        match self {
            AddressWidth::Bits16 => 16,
            AddressWidth::Bits24 => 24,
            AddressWidth::Bits32 => 32,
        }
    }

    /// Number of bits of the address width.
    pub fn bits(self) -> (bits: u8)
        ensures
            bits == self.spec_bits(),
    {
        match self {
            AddressWidth::Bits16 => 16,
            AddressWidth::Bits24 => 24,
            AddressWidth::Bits32 => 32,
        }
    }
}

/// Colour depth of the screen.
#[derive(Debug, Clone, Copy, PartialEq, Eq, Structural)]
pub enum GraphicsMode {
    Mono,
    Color4,
    Color8,
}

impl GraphicsMode {
    pub open spec fn spec_bits_per_pixel(self) -> u8 {
        match self {
            GraphicsMode::Mono => 1,
            GraphicsMode::Color4 => 4,
            GraphicsMode::Color8 => 8,
        }
    }

    /// Number of bits that one pixel occupies.
    pub fn bits_per_pixel(self) -> (bits: u8)
        ensures
            bits == self.spec_bits_per_pixel(),
    {
        match self {
            GraphicsMode::Mono => 1,
            GraphicsMode::Color4 => 4,
            GraphicsMode::Color8 => 8,
        }
    }
}

/// The decoded fixed header of a LAV image.
#[derive(Debug, Clone, PartialEq, Eq)]
pub struct ProgramHeader {
    pub flags: u8,
    pub address_width: AddressWidth,
    pub graphics_mode: GraphicsMode,
    pub has_pointer: bool,
    pub width: u16,
    pub height: u16,
    pub reserved: [u8; 5],
}

/// Address width selected by the header flags: bit 4 wins over bit 7.
pub open spec fn spec_address_width(flags: u8) -> AddressWidth {
    if flags & 0x10 != 0 {
        AddressWidth::Bits32
    } else if flags & 0x80 != 0 {
        AddressWidth::Bits24
    } else {
        AddressWidth::Bits16
    }
}

/// Graphics mode selected by bits 5 and 6 of the header flags.
pub open spec fn spec_graphics_mode(flags: u8) -> GraphicsMode {
    if flags & 0x60 == 0x40 {
        GraphicsMode::Color4
    } else if flags & 0x60 == 0x60 {
        GraphicsMode::Color8
    } else {
        GraphicsMode::Mono
    }
}

/// A screen dimension stored in units of 16 pixels, clamped to `lo..=hi`.
pub open spec fn spec_dimension(units: u8, lo: int, hi: int) -> int {
    let value = units * 16;
    if value < lo {
        lo
    } else if value > hi {
        hi
    } else {
        value
    }
}

/// The header that a well-formed image (at least 16 bytes, LAV signature) decodes to.
pub open spec fn spec_header(data: Seq<u8>) -> ProgramHeader {
    ProgramHeader {
        flags: data[8],
        address_width: spec_address_width(data[8]),
        graphics_mode: spec_graphics_mode(data[8]),
        has_pointer: data[8] & 1 != 0,
        width: spec_dimension(data[9], 160, 320) as u16,
        height: spec_dimension(data[10], 80, 240) as u16,
        reserved: [data[11], data[12], data[13], data[14], data[15]],
    }
}

/// True when the image opens with the LAV signature.
pub open spec fn has_lav_magic(data: Seq<u8>) -> bool {
    data.len() >= 4 && data[0] == 76 && data[1] == 65 && data[2] == 86 && data[3] == 18
}

fn clamp_dimension(units: u8, lo: u16, hi: u16) -> (value: u16)
    requires
        lo <= hi,
    ensures
        value == spec_dimension(units, lo as int, hi as int),
{
    let value = (units as u16) * 16;
    if value < lo {
        lo
    } else if value > hi {
        hi
    } else {
        value
    }
}

impl ProgramHeader {
    fn parse(data: &[u8]) -> (result: Result<ProgramHeader>)
        ensures
            data@.len() < LAV_HEADER_SIZE ==> result == Err::<ProgramHeader, Error>(
                Error::FileTooShort { expected: LAV_HEADER_SIZE, actual: data@.len() as usize },
            ),
            data@.len() >= LAV_HEADER_SIZE && !has_lav_magic(data@) ==> result == Err::<
                ProgramHeader,
                Error,
            >(Error::InvalidMagic([data@[0], data@[1], data@[2], data@[3]])),
            data@.len() >= LAV_HEADER_SIZE && has_lav_magic(data@) ==> result == Ok::<
                ProgramHeader,
                Error,
            >(spec_header(data@)),
    {
        if data.len() < LAV_HEADER_SIZE {
            return Err(Error::FileTooShort { expected: LAV_HEADER_SIZE, actual: data.len() });
        }
        let magic = [data[0], data[1], data[2], data[3]];
        if !(data[0] == 76 && data[1] == 65 && data[2] == 86 && data[3] == 18) {
            return Err(Error::InvalidMagic(magic));
        }
        let flags = data[8];
        let address_width = if flags & 0x10 != 0 {
            AddressWidth::Bits32
        } else if flags & 0x80 != 0 {
            AddressWidth::Bits24
        } else {
            AddressWidth::Bits16
        };
        let graphics_mode = if flags & 0x60 == 0x40 {
            GraphicsMode::Color4
        } else if flags & 0x60 == 0x60 {
            GraphicsMode::Color8
        } else {
            GraphicsMode::Mono
        };
        let width = clamp_dimension(data[9], 160, 320);
        let height = clamp_dimension(data[10], 80, 240);
        Ok(ProgramHeader {
            flags,
            address_width,
            graphics_mode,
            has_pointer: flags & 1 != 0,
            width,
            height,
            reserved: [data[11], data[12], data[13], data[14], data[15]],
        })
    }
}

/// A loaded LAV program: its header and the whole image, header included.
#[derive(Debug, Clone, PartialEq, Eq)]
pub struct Program {
    header: ProgramHeader,
    image: Vec<u8>,
}

impl Program {
    pub closed spec fn spec_header(&self) -> ProgramHeader {
        self.header
    }

    pub closed spec fn spec_image(&self) -> Seq<u8> {
        self.image@
    }

    /// Every program keeps a full header in front of its bytecode.
    pub closed spec fn wf(&self) -> bool {
        &&& self.image@.len() >= LAV_HEADER_SIZE
        &&& self.image@.len() <= usize::MAX
        &&& has_lav_magic(self.image@)
        &&& self.header == spec_header(self.image@)
    }

    /// What a well-formed program guarantees.
    pub proof fn lemma_wf(&self)
        requires
            self.wf(),
        ensures
            self.spec_image().len() >= LAV_HEADER_SIZE,
            self.spec_image().len() <= usize::MAX,
            has_lav_magic(self.spec_image()),
            self.spec_header() == spec_header(self.spec_image()),
    {
    }

    /// Decodes the header of `data` and keeps a copy of the whole image.
    pub fn load(data: &[u8]) -> (result: Result<Program>)
        ensures
            data@.len() < LAV_HEADER_SIZE ==> result == Err::<Program, Error>(
                Error::FileTooShort { expected: LAV_HEADER_SIZE, actual: data@.len() as usize },
            ),
            data@.len() >= LAV_HEADER_SIZE && !has_lav_magic(data@) ==> result == Err::<
                Program,
                Error,
            >(Error::InvalidMagic([data@[0], data@[1], data@[2], data@[3]])),
            data@.len() >= LAV_HEADER_SIZE && has_lav_magic(data@) ==> result is Ok,
            result matches Ok(program) ==> {
                &&& program.wf()
                &&& program.spec_image() == data@
                &&& program.spec_header() == spec_header(data@)
            },
    {
        let header = ProgramHeader::parse(data)?;
        let image = copy_bytes(data);
        let length = image.len();
        assert(image@.len() == length);
        Ok(Program { header, image })
    }

    /// The decoded header.
    pub fn header(&self) -> (header: &ProgramHeader)
        ensures
            *header == self.spec_header(),
    {
        &self.header
    }

    /// The whole image, header included.
    pub fn image(&self) -> (image: &[u8])
        ensures
            image@ == self.spec_image(),
    {
        self.image.as_slice()
    }

    /// The bytecode that follows the header.
    pub fn bytecode(&self) -> (code: &[u8])
        requires
            self.wf(),
        ensures
            code@ == self.spec_image().subrange(LAV_HEADER_SIZE as int, self.spec_image().len() as int),
    {
        let image = self.image.as_slice();
        &image[LAV_HEADER_SIZE..image.len()]
    }
}


/// What the header of a loaded program says, read off the header bytes:
/// flag bit 0x10 selects 32-bit addresses, otherwise bit 0x80 selects
/// 24-bit ones, otherwise addresses have 16 bits; flag bits 0x60 give the
/// colour depth (0x40: 4 bits, 0x60: 8 bits, otherwise 1 bit); bit 0x01
/// says the program uses a pointer; the width is byte 9 times 16 within
/// 160..=320 and the height byte 10 times 16 within 80..=240.
pub proof fn law_header_fields(data: Seq<u8>)
    requires
        data.len() >= LAV_HEADER_SIZE,
    ensures
        ({
            let header = spec_header(data);
            let flags = data[8];
            &&& header.flags == flags
            &&& header.address_width.spec_bits() == if flags & 0x10 == 0x10 {
                32u8
            } else if flags & 0x80 == 0x80 {
                24
            } else {
                16
            }
            &&& header.graphics_mode.spec_bits_per_pixel() == if flags & 0x60 == 0x40 {
                4u8
            } else if flags & 0x60 == 0x60 {
                8
            } else {
                1
            }
            &&& header.has_pointer == (flags % 2 == 1)
            &&& 160 <= header.width <= 320
            &&& 80 <= header.height <= 240
            &&& 160 <= data[9] * 16 <= 320 ==> header.width == data[9] * 16
            &&& 80 <= data[10] * 16 <= 240 ==> header.height == data[10] * 16
        }),
{
    let flags = data[8];
    assert(flags & 0x10 != 0 <==> flags & 0x10 == 0x10) by (bit_vector);
    assert(flags & 0x80 != 0 <==> flags & 0x80 == 0x80) by (bit_vector);
    assert(flags & 1 != 0 <==> flags % 2 == 1) by (bit_vector);
}

} // verus!
