//! The signature sniffer: recognises an ELF header from a file's first bytes.
use vstd::prelude::*;
use vstd::string::StringExecFns;

verus! {

/// Word size announced by an ELF header.
#[derive(Debug, Clone, Copy, PartialEq, Eq, Structural)]
pub enum WordSize {
    Bits32,
    Bits64,
    Unknown,
}

/// Byte order announced by an ELF header.
#[derive(Debug, Clone, Copy, PartialEq, Eq, Structural)]
pub enum Endianness {
    Little,
    Big,
    Unknown,
}

/// What an ELF header says of the file's class and data encoding.
#[derive(Debug, Clone, Copy, PartialEq, Eq, Structural)]
pub struct ElfClass {
    pub word: WordSize,
    pub endian: Endianness,
}

/// Number of header bytes the sniffer reads.
pub const HEADER_LEN: usize = 6;

/// The header starts with the ELF magic `7F 45 4C 46` and holds the two
/// class bytes after it.
pub open spec fn has_elf_magic(h: Seq<u8>) -> bool {
    &&& h.len() >= 6
    &&& h[0] == 0x7f
    &&& h[1] == 0x45
    &&& h[2] == 0x4c
    &&& h[3] == 0x46
}

/// The word size that the class byte announces.
pub open spec fn word_of(b: u8) -> WordSize {
    if b == 1 {
        WordSize::Bits32
    } else if b == 2 {
        WordSize::Bits64
    } else {
        WordSize::Unknown
    }
}

/// The byte order that the data-encoding byte announces.
pub open spec fn endian_of(b: u8) -> Endianness {
    if b == 1 {
        Endianness::Little
    } else if b == 2 {
        Endianness::Big
    } else {
        Endianness::Unknown
    }
}

/// The classification of a header, when it is an ELF header.
pub open spec fn classify(h: Seq<u8>) -> Option<ElfClass> {
    if has_elf_magic(h) {
        Some(ElfClass { word: word_of(h[4]), endian: endian_of(h[5]) })
    } else {
        None
    }
}

/// How a word size is named in the summary.
pub open spec fn word_name(w: WordSize) -> Seq<char> {
    match w {
        WordSize::Bits32 => seq!['3', '2', '-', 'b', 'i', 't'],
        WordSize::Bits64 => seq!['6', '4', '-', 'b', 'i', 't'],
        WordSize::Unknown => seq!['u', 'n', 'k', 'n', 'o', 'w', 'n', '-', 'b', 'i', 't'],
    }
}

/// How a byte order is named in the summary.
pub open spec fn endian_name(e: Endianness) -> Seq<char> {
    match e {
        Endianness::Little => seq!['l', 'i', 't', 't', 'l', 'e', '-', 'e', 'n', 'd', 'i', 'a', 'n'],
        Endianness::Big => seq!['b', 'i', 'g', '-', 'e', 'n', 'd', 'i', 'a', 'n'],
        Endianness::Unknown => seq![
            'u', 'n', 'k', 'n', 'o', 'w', 'n', '-', 'e', 'n', 'd', 'i', 'a', 'n',
        ],
    }
}

/// The one-line summary: `ELF 64-bit little-endian`.
pub open spec fn summary_text(c: ElfClass) -> Seq<char> {
    seq!['E', 'L', 'F', ' '] + word_name(c.word) + seq![' '] + endian_name(c.endian)
}

/// Classifies the first bytes of a file; only the first six are read.
/// Anything that is not an ELF header, a short one included, gives `None`.
pub fn sniff(header: &[u8]) -> (r: Option<ElfClass>)
    ensures
        r == classify(header@),
{
    if header.len() < HEADER_LEN {
        return None;
    }
    if header[0] != 0x7f || header[1] != 0x45 || header[2] != 0x4c || header[3] != 0x46 {
        return None;
    }
    let word = if header[4] == 1 {
        WordSize::Bits32
    } else if header[4] == 2 {
        WordSize::Bits64
    } else {
        WordSize::Unknown
    };
    let endian = if header[5] == 1 {
        Endianness::Little
    } else if header[5] == 2 {
        Endianness::Big
    } else {
        Endianness::Unknown
    };
    Some(ElfClass { word, endian })
}

impl ElfClass {
    /// The one-line summary of this class.
    pub fn describe(&self) -> (s: String)
        ensures
            s@ == summary_text(*self),
    {
        let mut s = String::from_str("ELF ");
        match self.word {
            WordSize::Bits32 => s.append("32-bit"),
            WordSize::Bits64 => s.append("64-bit"),
            WordSize::Unknown => s.append("unknown-bit"),
        }
        s.append(" ");
        match self.endian {
            Endianness::Little => s.append("little-endian"),
            Endianness::Big => s.append("big-endian"),
            Endianness::Unknown => s.append("unknown-endian"),
        }
        proof {
            reveal_strlit("ELF ");
            reveal_strlit("32-bit");
            reveal_strlit("64-bit");
            reveal_strlit("unknown-bit");
            reveal_strlit(" ");
            reveal_strlit("little-endian");
            reveal_strlit("big-endian");
            reveal_strlit("unknown-endian");
        }
        assert(s@ =~= summary_text(*self));
        s
    }
}

/// The summary line for a file's first bytes, or `None` (nothing to show)
/// when they are not an ELF header.
pub fn sniff_summary(header: &[u8]) -> (r: Option<String>)
    ensures
        r is None <==> !has_elf_magic(header@),
        r is Some ==> r->0@ == summary_text(classify(header@)->0),
{
    match sniff(header) {
        Some(c) => Some(c.describe()),
        None => None,
    }
}

} // verus!
