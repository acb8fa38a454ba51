//! Loading the `.text` section of a 64-bit little-endian eBPF ELF file as a
//! sequence of instructions.
use vstd::prelude::*;

use crate::insn::{decode_error, Insn};
use crate::le::{le_value, lemma_le_value_bound, lemma_le_value_bytes, lemma_pow256_values, load_le, pow256};

verus! {

pub const ELF_HEADER_SIZE: usize = 64;
pub const SHDR_SIZE: usize = 64;
pub const INSN_SIZE: usize = 8;
pub const ELFCLASS64: u8 = 2;
pub const ELFDATA2LSB: u8 = 1;
pub const EM_BPF: u16 = 247;
pub const OFF_EI_CLASS: usize = 4;
pub const OFF_EI_DATA: usize = 5;
pub const OFF_E_MACHINE: usize = 18;
pub const OFF_E_SHOFF: usize = 40;
pub const OFF_E_SHENTSIZE: usize = 58;
pub const OFF_E_SHNUM: usize = 60;
pub const OFF_E_SHSTRNDX: usize = 62;
pub const OFF_SH_NAME: usize = 0;
pub const OFF_SH_OFFSET: usize = 24;
pub const OFF_SH_SIZE: usize = 32;
const U16_SIZE: usize = 2;
const U32_SIZE: usize = 4;
const U64_SIZE: usize = 8;

#[derive(Debug)]
pub enum ElfError {
    TooShort,
    BadMagic,
    NotElf64,
    NotLittleEndian,
    UnsupportedMachine,
    InvalidShentsize,
    InvalidShstrndx,
    TextSectionNotFound,
    TextSectionUnaligned,
    InvalidTextOffset,
    BadInstruction { index: usize },
}

/// The name of each error.
pub open spec fn elf_error_kind(e: ElfError) -> Seq<char> {
    match e {
        ElfError::TooShort => "too-short"@,
        ElfError::BadMagic => "bad-magic"@,
        ElfError::NotElf64 => "not-elf64"@,
        ElfError::NotLittleEndian => "not-little-endian"@,
        ElfError::UnsupportedMachine => "unsupported-machine"@,
        ElfError::InvalidShentsize => "invalid-shentsize"@,
        ElfError::InvalidShstrndx => "invalid-shstrndx"@,
        ElfError::TextSectionNotFound => "text-section-not-found"@,
        ElfError::TextSectionUnaligned => "text-section-unaligned"@,
        ElfError::InvalidTextOffset => "invalid-text-offset"@,
        ElfError::BadInstruction { .. } => "bad-instruction"@,
    }
}

impl ElfError {
    pub fn kind(&self) -> (r: &'static str)
        ensures
            r@ == elf_error_kind(*self),
    {
        match self {
            Self::TooShort => "too-short",
            Self::BadMagic => "bad-magic",
            Self::NotElf64 => "not-elf64",
            Self::NotLittleEndian => "not-little-endian",
            Self::UnsupportedMachine => "unsupported-machine",
            Self::InvalidShentsize => "invalid-shentsize",
            Self::InvalidShstrndx => "invalid-shstrndx",
            Self::TextSectionNotFound => "text-section-not-found",
            Self::TextSectionUnaligned => "text-section-unaligned",
            Self::InvalidTextOffset => "invalid-text-offset",
            Self::BadInstruction { .. } => "bad-instruction",
        }
    }
}

/// The `n`-byte little-endian number at `off` in `buf`, if it lies in `buf`.
pub open spec fn le_field(buf: Seq<u8>, off: int, n: int) -> Option<nat> {
    if 0 <= off && off + n <= buf.len() {
        Some(le_value(buf.subrange(off, off + n)))
    } else {
        None
    }
}

/// A 64-bit field read as an offset or a size.
pub open spec fn size_field(buf: Seq<u8>, off: int) -> Option<int> {
    match le_field(buf, off, 8) {
        Some(v) => Some((v as u64 as usize) as int),
        None => None,
    }
}

/// Where the name that starts at `i` in `s` ends: at the first NUL, or at
/// the end of `s`.
pub open spec fn name_end(s: Seq<u8>, i: int) -> int
    decreases s.len() - i,
{
    if i < 0 || i >= s.len() {
        s.len() as int
    } else if s[i] == 0 {
        i
    } else {
        name_end(s, i + 1)
    }
}

/// The NUL-terminated name at `off` in the string table `s`, if `off` lies in it.
pub open spec fn name_at(s: Seq<u8>, off: int) -> Option<Seq<u8>> {
    if off < 0 || off >= s.len() {
        None
    } else {
        Some(s.subrange(off, name_end(s, off)))
    }
}

/// The bytes of `.text`.
pub open spec fn text_name() -> Seq<u8> {
    seq![0x2eu8, 0x74u8, 0x65u8, 0x78u8, 0x74u8]
}

/// The ELF magic number.
pub open spec fn elf_magic() -> Seq<u8> {
    seq![0x7fu8, 0x45u8, 0x4cu8, 0x46u8]
}

/// Where the header of section `i` starts.
pub open spec fn section_header(shoff: int, i: int) -> int {
    shoff + i * SHDR_SIZE
}

/// The name of section `i`, if its header and its name can be read.
pub open spec fn section_name(buf: Seq<u8>, shoff: int, strtab: Seq<u8>, i: int) -> Option<Seq<u8>> {
    let h = section_header(shoff, i);
    if h > usize::MAX {
        None
    } else {
        match le_field(buf, h + OFF_SH_NAME, 4) {
            None => None,
            Some(name_off) => name_at(strtab, name_off as int),
        }
    }
}

/// The first section from `i` on that is named `.text`.
pub open spec fn find_text(buf: Seq<u8>, shoff: int, shnum: int, strtab: Seq<u8>, i: int) -> Option<int>
    decreases shnum - i,
{
    if i >= shnum {
        None
    } else if section_name(buf, shoff, strtab, i) == Some(text_name()) {
        Some(i)
    } else {
        find_text(buf, shoff, shnum, strtab, i + 1)
    }
}

/// The section-header offset, count and string-table index, when the file
/// header is a 64-bit little-endian eBPF header with 64-byte section headers.
pub open spec fn elf_header(buf: Seq<u8>) -> Result<(int, int, int), ElfError> {
    if buf.len() < ELF_HEADER_SIZE {
        Err(ElfError::TooShort)
    } else if buf.subrange(0, 4) != elf_magic() {
        Err(ElfError::BadMagic)
    } else if buf[OFF_EI_CLASS as int] != ELFCLASS64 {
        Err(ElfError::NotElf64)
    } else if buf[OFF_EI_DATA as int] != ELFDATA2LSB {
        Err(ElfError::NotLittleEndian)
    } else if le_field(buf, OFF_E_MACHINE as int, 2) != Some(EM_BPF as nat) {
        Err(ElfError::UnsupportedMachine)
    } else if le_field(buf, OFF_E_SHENTSIZE as int, 2) != Some(SHDR_SIZE as nat) {
        Err(ElfError::InvalidShentsize)
    } else {
        Ok(
            (
                size_field(buf, OFF_E_SHOFF as int)->Some_0,
                le_field(buf, OFF_E_SHNUM as int, 2)->Some_0 as int,
                le_field(buf, OFF_E_SHSTRNDX as int, 2)->Some_0 as int,
            ),
        )
    }
}

/// Reading the string table's header would run past the address space.
pub open spec fn shstr_header_overflows(buf: Seq<u8>) -> bool {
    match elf_header(buf) {
        Ok((shoff, shnum, shstrndx)) => shstrndx < shnum && section_header(shoff, shstrndx)
            <= usize::MAX && section_header(shoff, shstrndx) + OFF_SH_OFFSET > usize::MAX,
        Err(_) => false,
    }
}

/// The bytes of the `.text` section, or why they cannot be found.
pub open spec fn elf_text(buf: Seq<u8>) -> Result<Seq<u8>, ElfError> {
    match elf_header(buf) {
        Err(e) => Err(e),
        Ok((shoff, shnum, shstrndx)) => {
            let h = section_header(shoff, shstrndx);
            if shstrndx >= shnum || h > usize::MAX {
                Err(ElfError::InvalidShstrndx)
            } else {
                match (size_field(buf, h + OFF_SH_OFFSET), size_field(buf, h + OFF_SH_SIZE)) {
                    (Some(so), Some(ss)) => if so + ss > usize::MAX || so + ss > buf.len() {
                        Err(ElfError::InvalidShstrndx)
                    } else {
                        let strtab = buf.subrange(so, so + ss);
                        match find_text(buf, shoff, shnum, strtab, 0) {
                            None => Err(ElfError::TextSectionNotFound),
                            Some(i) => {
                                let th = section_header(shoff, i);
                                match (size_field(buf, th + OFF_SH_OFFSET), size_field(buf, th + OFF_SH_SIZE)) {
                                    (Some(to), Some(ts)) => if ts % INSN_SIZE as int != 0 {
                                        Err(ElfError::TextSectionUnaligned)
                                    } else if to + ts > usize::MAX || to + ts > buf.len() {
                                        Err(ElfError::InvalidTextOffset)
                                    } else {
                                        Ok(buf.subrange(to, to + ts))
                                    },
                                    _ => Err(ElfError::TextSectionNotFound),
                                }
                            },
                        }
                    },
                    _ => Err(ElfError::InvalidShstrndx),
                }
            }
        },
    }
}

/// Word `i` of `text`, read little-endian.
pub open spec fn text_word(text: Seq<u8>, i: int) -> u64 {
    le_value(text.subrange(i * 8, i * 8 + 8)) as u64
}

/// All words of `text` before index `n` are instructions.
pub open spec fn words_decode(text: Seq<u8>, n: int) -> bool {
    forall|i: int| 0 <= i < n ==> decode_error(#[trigger] text_word(text, i)) is None
}

pub struct ElfLoader;

fn read_u16_le(buf: &[u8], off: usize) -> (r: Option<u16>)
    ensures
        match le_field(buf@, off as int, 2) {
            Some(v) => r == Some(v as u16) && v < 0x1_0000,
            None => r is None,
        },
{
    if off > buf.len() || buf.len() - off < U16_SIZE {
        return None;
    }
    proof {
        lemma_le_value_bound(buf@.subrange(off as int, off + 2));
        lemma_pow256_values();
    }
    Some(load_le(buf, off, U16_SIZE) as u16)
}

fn read_u32_le(buf: &[u8], off: usize) -> (r: Option<u32>)
    ensures
        match le_field(buf@, off as int, 4) {
            Some(v) => r == Some(v as u32) && v < 0x1_0000_0000,
            None => r is None,
        },
{
    if off > buf.len() || buf.len() - off < U32_SIZE {
        return None;
    }
    proof {
        lemma_le_value_bound(buf@.subrange(off as int, off + 4));
        lemma_pow256_values();
    }
    Some(load_le(buf, off, U32_SIZE) as u32)
}

fn read_u64_le(buf: &[u8], off: usize) -> (r: Option<u64>)
    ensures
        match le_field(buf@, off as int, 8) {
            Some(v) => r == Some(v as u64) && v < 0x1_0000_0000_0000_0000,
            None => r is None,
        },
{
    if off > buf.len() || buf.len() - off < U64_SIZE {
        return None;
    }
    proof {
        lemma_le_value_bound(buf@.subrange(off as int, off + 8));
        lemma_pow256_values();
    }
    Some(load_le(buf, off, U64_SIZE))
}

/// The NUL-terminated string at `offset` in `strtab`.
fn str_at(strtab: &[u8], offset: usize) -> (r: Option<&[u8]>)
    ensures
        match name_at(strtab@, offset as int) {
            Some(s) => r matches Some(x) && x@ == s,
            None => r is None,
        },
{
    if offset >= strtab.len() {
        return None;
    }
    let mut end = offset;
    while end < strtab.len() && strtab[end] != 0
        invariant
            offset <= end <= strtab@.len(),
            offset < strtab@.len(),
            name_end(strtab@, offset as int) == name_end(strtab@, end as int),
        decreases strtab@.len() - end,
    {
        end = end + 1;
    }
    Some(&strtab[offset..end])
}

/// Whether `name` is `.text`.
fn is_text_name(name: &[u8]) -> (b: bool)
    ensures
        b == (name@ == text_name()),
{
    let r = name.len() == 5 && name[0] == 0x2e && name[1] == 0x74 && name[2] == 0x65 && name[3] == 0x78
        && name[4] == 0x74;
    proof {
        if r {
            assert(name@ =~= text_name());
        }
    }
    r
}

impl ElfLoader {
    /// Whether reading the section-name table's header of `buf` would run
    /// past the address space, the one image `load` cannot take.
    pub fn header_overflows(buf: &[u8]) -> (b: bool)
        ensures
            b == shstr_header_overflows(buf@),
    {
        if buf.len() < ELF_HEADER_SIZE {
            return false;
        }
        if !(buf[0] == 0x7f && buf[1] == 0x45 && buf[2] == 0x4c && buf[3] == 0x46) {
            return false;
        }
        proof {
            assert(buf@.subrange(0, 4) =~= elf_magic());
        }
        if buf[OFF_EI_CLASS] != ELFCLASS64 || buf[OFF_EI_DATA] != ELFDATA2LSB {
            return false;
        }
        let machine = match read_u16_le(buf, OFF_E_MACHINE) {
            Some(v) => v,
            None => return false,
        };
        if machine != EM_BPF {
            return false;
        }
        let shentsize = match read_u16_le(buf, OFF_E_SHENTSIZE) {
            Some(v) => v as usize,
            None => return false,
        };
        if shentsize != SHDR_SIZE {
            return false;
        }
        let shnum = match read_u16_le(buf, OFF_E_SHNUM) {
            Some(v) => v as usize,
            None => return false,
        };
        let shstrndx = match read_u16_le(buf, OFF_E_SHSTRNDX) {
            Some(v) => v as usize,
            None => return false,
        };
        let shoff = match read_u64_le(buf, OFF_E_SHOFF) {
            Some(v) => v as usize,
            None => return false,
        };
        assert(elf_header(buf@) == Ok::<(int, int, int), ElfError>(
            (shoff as int, shnum as int, shstrndx as int),
        ));
        if shstrndx >= shnum {
            return false;
        }
        match shoff.checked_add(shstrndx * SHDR_SIZE) {
            Some(h) => h > usize::MAX - OFF_SH_OFFSET,
            None => false,
        }
    }

    /// Reads the instructions of the `.text` section of a 64-bit
    /// little-endian eBPF ELF image.
    pub fn load(buf: &[u8]) -> (r: Result<Vec<Insn>, ElfError>)
        requires
            buf@.len() <= isize::MAX,
            !shstr_header_overflows(buf@),
        ensures
            match elf_text(buf@) {
                Err(e) => r == Err::<Vec<Insn>, ElfError>(e),
                Ok(text) => {
                    let n = text.len() / 8;
                    if words_decode(text, n as int) {
                        r matches Ok(v) && v@.len() == n && forall|i: int|
                            0 <= i < n ==> (#[trigger] v@[i])@ == text_word(text, i)
                    } else {
                        r matches Err(ElfError::BadInstruction { index }) && index < n
                            && words_decode(text, index as int) && decode_error(
                            text_word(text, index as int),
                        ) is Some
                    }
                },
            },
    {
        if buf.len() < ELF_HEADER_SIZE {
            return Err(ElfError::TooShort);
        }
        if !(buf[0] == 0x7f && buf[1] == 0x45 && buf[2] == 0x4c && buf[3] == 0x46) {
            return Err(ElfError::BadMagic);
        }
        proof {
            assert(buf@.subrange(0, 4) =~= elf_magic());
        }
        if buf[OFF_EI_CLASS] != ELFCLASS64 {
            return Err(ElfError::NotElf64);
        }
        if buf[OFF_EI_DATA] != ELFDATA2LSB {
            return Err(ElfError::NotLittleEndian);
        }
        let machine = match read_u16_le(buf, OFF_E_MACHINE) {
            Some(v) => v,
            None => return Err(ElfError::TooShort),
        };
        if machine != EM_BPF {
            return Err(ElfError::UnsupportedMachine);
        }
        let shentsize = match read_u16_le(buf, OFF_E_SHENTSIZE) {
            Some(v) => v as usize,
            None => return Err(ElfError::TooShort),
        };
        if shentsize != SHDR_SIZE {
            return Err(ElfError::InvalidShentsize);
        }
        let shnum = match read_u16_le(buf, OFF_E_SHNUM) {
            Some(v) => v as usize,
            None => return Err(ElfError::TooShort),
        };
        let shstrndx = match read_u16_le(buf, OFF_E_SHSTRNDX) {
            Some(v) => v as usize,
            None => return Err(ElfError::TooShort),
        };
        let shoff = match read_u64_le(buf, OFF_E_SHOFF) {
            Some(v) => v as usize,
            None => return Err(ElfError::TooShort),
        };
        assert(elf_header(buf@) == Ok::<(int, int, int), ElfError>(
            (shoff as int, shnum as int, shstrndx as int),
        ));
        if shstrndx >= shnum {
            return Err(ElfError::InvalidShstrndx);
        }
        let shstr_hdr_off = match shoff.checked_add(shstrndx * SHDR_SIZE) {
            Some(v) => v,
            None => return Err(ElfError::InvalidShstrndx),
        };
        let shstr_sh_offset = match read_u64_le(buf, shstr_hdr_off + OFF_SH_OFFSET) {
            Some(v) => v as usize,
            None => return Err(ElfError::InvalidShstrndx),
        };
        let shstr_sh_size = match read_u64_le(buf, shstr_hdr_off + OFF_SH_SIZE) {
            Some(v) => v as usize,
            None => return Err(ElfError::InvalidShstrndx),
        };
        let shstr_end = match shstr_sh_offset.checked_add(shstr_sh_size) {
            Some(v) => v,
            None => return Err(ElfError::InvalidShstrndx),
        };
        if shstr_end > buf.len() {
            return Err(ElfError::InvalidShstrndx);
        }
        let shstrtab = &buf[shstr_sh_offset..shstr_end];
        let ghost strtab = buf@.subrange(shstr_sh_offset as int, shstr_end as int);
        assert(shstrtab@ == strtab);

        let mut text_hdr: Option<usize> = None;
        let mut i: usize = 0;
        while i < shnum
            invariant_except_break
                i <= shnum < 0x1_0000,
                shstrtab@ == strtab,
                text_hdr is None,
                find_text(buf@, shoff as int, shnum as int, strtab, 0) == find_text(
                    buf@,
                    shoff as int,
                    shnum as int,
                    strtab,
                    i as int,
                ),
            ensures
                match text_hdr {
                    Some(h) => h + 4 <= buf@.len() && exists|t: int|
                        find_text(buf@, shoff as int, shnum as int, strtab, 0) == Some(t) && h
                            == section_header(shoff as int, t),
                    None => find_text(buf@, shoff as int, shnum as int, strtab, 0) is None,
                },
            decreases shnum - i,
        {
            let hdr_off = match shoff.checked_add(i * SHDR_SIZE) {
                Some(v) => v,
                None => {
                    i = i + 1;
                    continue;
                },
            };
            let sh_name = match read_u32_le(buf, hdr_off + OFF_SH_NAME) {
                Some(v) => v as usize,
                None => {
                    i = i + 1;
                    continue;
                },
            };
            let name_bytes = match str_at(shstrtab, sh_name) {
                Some(v) => v,
                None => {
                    i = i + 1;
                    continue;
                },
            };
            if is_text_name(name_bytes) {
                text_hdr = Some(hdr_off);
                break;
            }
            i = i + 1;
        }
        let hdr_off = match text_hdr {
            Some(h) => h,
            None => return Err(ElfError::TextSectionNotFound),
        };
        let text_offset = match read_u64_le(buf, hdr_off + OFF_SH_OFFSET) {
            Some(v) => v as usize,
            None => return Err(ElfError::TextSectionNotFound),
        };
        let text_size = match read_u64_le(buf, hdr_off + OFF_SH_SIZE) {
            Some(v) => v as usize,
            None => return Err(ElfError::TextSectionNotFound),
        };
        if text_size % INSN_SIZE != 0 {
            return Err(ElfError::TextSectionUnaligned);
        }
        let text_end = match text_offset.checked_add(text_size) {
            Some(v) => v,
            None => return Err(ElfError::InvalidTextOffset),
        };
        if text_end > buf.len() {
            return Err(ElfError::InvalidTextOffset);
        }
        let text_bytes = &buf[text_offset..text_end];
        let ghost text = buf@.subrange(text_offset as int, text_end as int);
        assert(elf_text(buf@) == Ok::<Seq<u8>, ElfError>(text));
        assert(text_bytes@ == text);
        let count = text_size / INSN_SIZE;
        let mut insns: Vec<Insn> = Vec::with_capacity(count);
        let mut k: usize = 0;
        while k < count
            invariant
                elf_text(buf@) == Ok::<Seq<u8>, ElfError>(text),
                count == text.len() / 8,
                text.len() == text_size,
                text_bytes@ == text,
                k <= count,
                insns@.len() == k,
                words_decode(text, k as int),
                forall|j: int| 0 <= j < k ==> (#[trigger] insns@[j])@ == text_word(text, j),
            decreases count - k,
        {
            let word = match read_u64_le(text_bytes, k * INSN_SIZE) {
                Some(v) => v,
                None => return Err(ElfError::TextSectionUnaligned),
            };
            assert(word == text_word(text, k as int));
            match Insn::from_raw(word) {
                Ok(insn) => {
                    insns.push(insn);
                },
                Err(_) => {
                    return Err(ElfError::BadInstruction { index: k });
                },
            }
            k = k + 1;
        }
        Ok(insns)
    }
}

/// The file header is checked byte by byte, in this order: an image of
/// fewer than 64 bytes is too short; it must start with `7f 45 4c 46`, have
/// byte 4 equal to 2 (64-bit) and byte 5 equal to 1 (little-endian), the
/// machine 247 (eBPF) in bytes 18..20 and section headers of 64 bytes in
/// bytes 58..60; the string-table index in bytes 62..64 must be below the
/// section count in bytes 60..62. Every 16-bit field is read least
/// significant byte first.
pub proof fn lemma_header_checks(buf: Seq<u8>)
    ensures
        buf.len() < 64 ==> elf_text(buf) == Err::<Seq<u8>, ElfError>(ElfError::TooShort),
        buf.len() >= 64 ==> {
            let magic = buf[0] == 0x7f && buf[1] == 0x45 && buf[2] == 0x4c && buf[3] == 0x46;
            let machine = buf[18] + 256 * buf[19] as int;
            let shentsize = buf[58] + 256 * buf[59] as int;
            let shnum = buf[60] + 256 * buf[61] as int;
            let shstrndx = buf[62] + 256 * buf[63] as int;
            &&& !magic ==> elf_text(buf) == Err::<Seq<u8>, ElfError>(ElfError::BadMagic)
            &&& magic && buf[4] != 2 ==> elf_text(buf) == Err::<Seq<u8>, ElfError>(ElfError::NotElf64)
            &&& magic && buf[4] == 2 && buf[5] != 1 ==> elf_text(buf) == Err::<Seq<u8>, ElfError>(
                ElfError::NotLittleEndian,
            )
            &&& magic && buf[4] == 2 && buf[5] == 1 && machine != 247 ==> elf_text(buf) == Err::<
                Seq<u8>,
                ElfError,
            >(ElfError::UnsupportedMachine)
            &&& magic && buf[4] == 2 && buf[5] == 1 && machine == 247 && shentsize != 64 ==> elf_text(buf)
                == Err::<Seq<u8>, ElfError>(ElfError::InvalidShentsize)
            &&& magic && buf[4] == 2 && buf[5] == 1 && machine == 247 && shentsize == 64 && shstrndx
                >= shnum ==> elf_text(buf) == Err::<Seq<u8>, ElfError>(ElfError::InvalidShstrndx)
        },
{
    if buf.len() >= 64 {
        let magic = buf[0] == 0x7f && buf[1] == 0x45 && buf[2] == 0x4c && buf[3] == 0x46;
        if magic {
            assert(buf.subrange(0, 4) =~= elf_magic());
        } else {
            assert(buf.subrange(0, 4)[0] == buf[0] && buf.subrange(0, 4)[1] == buf[1]);
            assert(buf.subrange(0, 4)[2] == buf[2] && buf.subrange(0, 4)[3] == buf[3]);
            assert(buf.subrange(0, 4) != elf_magic());
        }
        let m = buf.subrange(18, 20);
        let e = buf.subrange(58, 60);
        let n = buf.subrange(60, 62);
        let x = buf.subrange(62, 64);
        lemma_le_value_bytes(m);
        lemma_le_value_bytes(e);
        lemma_le_value_bytes(n);
        lemma_le_value_bytes(x);
    }
}

} // verus!
