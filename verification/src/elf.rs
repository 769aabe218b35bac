//! The binary metadata extractor: what the resolver needs to know about
//! one file's bytes, obtained through the object-format parser.

use vstd::prelude::*;

use crate::binary_file::view_of_opt_string;
use crate::errors::ParseError;

verus! {

/// Mathematical value of an [`ElfMeta`].
pub ghost struct ElfMetaView {
    pub is_64: bool,
    pub is_executable: bool,
    pub interpreter: Option<Seq<char>>,
    pub libraries: Seq<Seq<char>>,
}

/// What one parse attempt yields: whether the bytes parse at all, and if so
/// which metadata they carry.
pub ghost struct ElfParseView {
    pub ok: bool,
    pub meta: ElfMetaView,
}

/// The metadata the resolver needs from one binary: bit-width, whether some
/// segment is marked executable, the declared runtime interpreter (if any),
/// and the declared dependency names in on-disk declaration order.
pub struct ElfMeta {
    pub is_64: bool,
    pub is_executable: bool,
    pub interpreter: Option<String>,
    pub libraries: Vec<String>,
}

pub open spec fn view_of_strings(v: Seq<String>) -> Seq<Seq<char>> {
    v.map_values(|s: String| s@)
}

impl View for ElfMeta {
    type V = ElfMetaView;

    open spec fn view(&self) -> ElfMetaView {
        ElfMetaView {
            is_64: self.is_64,
            is_executable: self.is_executable,
            interpreter: view_of_opt_string(self.interpreter),
            libraries: view_of_strings(self.libraries@),
        }
    }
}

/// What the binary-format parser makes of a given byte sequence.  The result
/// is a function of the bytes alone; its definition is the parser's.
pub uninterp spec fn elf_parse(bytes: Seq<u8>) -> ElfParseView;

/// Relies on goblin's `Elf::parse` and the fields of its `Elf` struct: the
/// outcome is a pure function of the byte buffer; `libraries` lists the
/// declared dependencies in declaration order, `interpreter` the declared
/// runtime loader, and a program header with the executable flag set marks
/// the file executable.
#[verifier::external_body]
fn parse_elf_bytes(data: &Vec<u8>) -> (r: Result<ElfMeta, ParseError>)
    ensures
        r is Ok <==> elf_parse(data@).ok,
        r is Ok ==> r.unwrap()@ == elf_parse(data@).meta,
{
    match goblin::elf::Elf::parse(data.as_slice()) {
        Ok(elf) => Ok(ElfMeta {
            is_64: elf.is_64,
            is_executable: elf.program_headers.iter().any(|h| h.is_executable()),
            interpreter: elf.interpreter.map(|s| s.to_string()),
            libraries: elf.libraries.iter().map(|s| s.to_string()).collect(),
        }),
        Err(_) => Err(ParseError),
    }
}

/// Extracts the resolver-relevant metadata from the raw bytes of a binary.
/// Fails with [`ParseError`] exactly when the bytes are not a well-formed
/// binary of the expected object format.
pub fn extract(data: &Vec<u8>) -> (r: Result<ElfMeta, ParseError>)
    ensures
        r is Ok <==> elf_parse(data@).ok,
        r is Ok ==> r.unwrap()@ == elf_parse(data@).meta,
{
    parse_elf_bytes(data)
}

} // verus!
