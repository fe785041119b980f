//! ELF64 images for x86_64: the file header, the program header table and
//! the plan of copies that loads the image's `PT_LOAD` segments.
use vstd::prelude::*;

use crate::bytes::{le_u16, le_u32, le_u64, read_u16, read_u32, read_u64};

verus! {

/// Size in bytes of an ELF64 file header.
pub const ELF_HEADER_SIZE: usize = 64;

/// Size in bytes of an ELF64 program header.
pub const PROGRAM_HEADER_SIZE: usize = 56;

/// The ELF magic number `0x7f 'E' 'L' 'F'`, read as a big-endian word.
pub const C_MAGIC: u32 = 0x7f45_4c46;

/// Index of the first magic byte (`0x7f`) in `e_ident`.
pub const EI_MAG0: usize = 0;

/// Index of the second magic byte (`'E'`) in `e_ident`.
pub const EI_MAG1: usize = 1;

/// Index of the third magic byte (`'L'`) in `e_ident`.
pub const EI_MAG2: usize = 2;

/// Index of the fourth magic byte (`'F'`) in `e_ident`.
pub const EI_MAG3: usize = 3;

/// `e_machine` of an x86_64 image, the only machine this loader runs.
pub const C_E_MACHINE: u16 = 0x3e;

/// Program header type of a loadable segment.
pub const PT_LOAD: u32 = 1;

/// Why an image was refused.
#[derive(Debug, Clone, Copy, PartialEq, Eq, Structural)]
pub enum ElfError {
    /// The file is shorter than an ELF header.
    BadBufferSize,
    /// The file does not start with the ELF magic number.
    InvalidMagic,
    /// The image is not built for x86_64.
    UnsupportedMachine,
}

/// The ELF64 file header, field by field as it lies at the start of the file.
#[derive(Debug, Clone, Copy)]
pub struct ElfHeader {
    pub e_ident: [u8; 16],
    pub e_type: u16,
    pub e_machine: u16,
    pub e_version: u32,
    pub e_entry: u64,
    pub e_phoff: u64,
    pub e_shoff: u64,
    pub e_flags: u32,
    pub e_ehsize: u16,
    pub e_phentsize: u16,
    pub e_phnum: u16,
    pub e_shentsize: u16,
    pub e_shnum: u16,
    pub e_shstrndx: u16,
}

/// One entry of the program header table.
#[derive(Debug, Clone, Copy, PartialEq, Eq, Structural)]
pub struct ProgramHeader {
    pub p_type: u32,
    pub p_flags: u32,
    pub p_offset: u64,
    pub p_vaddr: u64,
    pub p_paddr: u64,
    pub p_filesz: u64,
    pub p_memsz: u64,
    pub p_align: u64,
}

/// The program header table of an image, in file order.
#[derive(Debug)]
pub struct ProgramHeaderTable {
    pub entries: Vec<ProgramHeader>,
}

/// One entry of the section header table, as it lies in the file.
#[allow(dead_code)]
pub struct SectionHeader {
    sh_name: u32,
    sh_type: u32,
    sh_flags: u64,
    sh_addr: u64,
    sh_offset: u64,
    sh_size: u64,
    sh_link: u32,
    sh_info: u32,
    sh_addralign: u64,
    sh_entsize: u64,
}

/// A copy of `len` bytes of the file, starting at `file_offset`, to the
/// physical address `dest_addr`.
#[derive(Debug, Clone, Copy, PartialEq, Eq, Structural)]
pub struct SegmentCopy {
    pub file_offset: u64,
    pub dest_addr: u64,
    pub len: u64,
}

/// The first four bytes are `0x7f 'E' 'L' 'F'`.
pub open spec fn has_elf_magic(s: Seq<u8>) -> bool {
    &&& s.len() >= 4
    &&& s[0] == 0x7f
    &&& s[1] == 0x45
    &&& s[2] == 0x4c
    &&& s[3] == 0x46
}

/// Why `bytes` is refused as the start of an ELF image, if it is.
pub open spec fn elf_header_error(s: Seq<u8>) -> Option<ElfError> {
    if s.len() < ELF_HEADER_SIZE {
        Some(ElfError::BadBufferSize)
    } else if !has_elf_magic(s) {
        Some(ElfError::InvalidMagic)
    } else if le_u16(s, 18) != C_E_MACHINE {
        Some(ElfError::UnsupportedMachine)
    } else {
        None
    }
}

/// The program header whose bytes start at `off`.
pub open spec fn program_header_at(s: Seq<u8>, off: int) -> ProgramHeader {
    ProgramHeader {
        p_type: le_u32(s, off),
        p_flags: le_u32(s, off + 4),
        p_offset: le_u64(s, off + 8),
        p_vaddr: le_u64(s, off + 16),
        p_paddr: le_u64(s, off + 24),
        p_filesz: le_u64(s, off + 32),
        p_memsz: le_u64(s, off + 40),
        p_align: le_u64(s, off + 48),
    }
}

/// A table of `phnum` program headers at `phoff` lies inside a file of `len` bytes.
pub open spec fn ph_table_fits(phoff: u64, phnum: u16, len: nat) -> bool {
    phoff + PROGRAM_HEADER_SIZE * phnum <= len
}

/// Every `PT_LOAD` segment of `entries` lies inside a file of `file_len` bytes.
pub open spec fn loadable_segments_fit(entries: Seq<ProgramHeader>, file_len: nat) -> bool {
    forall|i: int|
        0 <= i < entries.len() && (#[trigger] entries[i]).p_type == PT_LOAD ==> entries[i].p_offset
            + entries[i].p_filesz <= file_len
}

/// The copies that load the `PT_LOAD` segments of `entries`, in order.
pub open spec fn load_plan_spec(entries: Seq<ProgramHeader>) -> Seq<SegmentCopy>
    decreases entries.len(),
{
    if entries.len() == 0 {
        seq![]
    } else {
        let plan = load_plan_spec(entries.drop_last());
        let e = entries.last();
        if e.p_type == PT_LOAD {
            plan.push(SegmentCopy { file_offset: e.p_offset, dest_addr: e.p_paddr, len: e.p_filesz })
        } else {
            plan
        }
    }
}

impl ElfHeader {
    /// Every field holds the bytes at its offset in `s`, little-endian.
    pub open spec fn decoded_from(self, s: Seq<u8>) -> bool {
        &&& s.len() >= ELF_HEADER_SIZE
        &&& self.e_ident@ == s.subrange(0, 16)
        &&& self.e_type == le_u16(s, 16)
        &&& self.e_machine == le_u16(s, 18)
        &&& self.e_version == le_u32(s, 20)
        &&& self.e_entry == le_u64(s, 24)
        &&& self.e_phoff == le_u64(s, 32)
        &&& self.e_shoff == le_u64(s, 40)
        &&& self.e_flags == le_u32(s, 48)
        &&& self.e_ehsize == le_u16(s, 52)
        &&& self.e_phentsize == le_u16(s, 54)
        &&& self.e_phnum == le_u16(s, 56)
        &&& self.e_shentsize == le_u16(s, 58)
        &&& self.e_shnum == le_u16(s, 60)
        &&& self.e_shstrndx == le_u16(s, 62)
    }

    /// Reads the ELF header at the start of `bytes`. It is refused when
    /// `bytes` is shorter than a header, when the magic number is wrong, or
    /// when the image is not for x86_64, checked in that order.
    pub fn new(bytes: &Vec<u8>) -> (res: Result<ElfHeader, ElfError>)
        ensures
            match res {
                Ok(h) => elf_header_error(bytes@) is None && h.decoded_from(bytes@),
                Err(e) => elf_header_error(bytes@) == Some(e),
            },
    {
        if bytes.len() < ELF_HEADER_SIZE {
            return Err(ElfError::BadBufferSize);
        }
        let b = bytes.as_slice();
        let e_ident: [u8; 16] = [
            b[0],
            b[1],
            b[2],
            b[3],
            b[4],
            b[5],
            b[6],
            b[7],
            b[8],
            b[9],
            b[10],
            b[11],
            b[12],
            b[13],
            b[14],
            b[15],
        ];
        assert(e_ident@ =~= b@.subrange(0, 16));
        let header = ElfHeader {
            e_ident,
            e_type: read_u16(b, 16),
            e_machine: read_u16(b, 18),
            e_version: read_u32(b, 20),
            e_entry: read_u64(b, 24),
            e_phoff: read_u64(b, 32),
            e_shoff: read_u64(b, 40),
            e_flags: read_u32(b, 48),
            e_ehsize: read_u16(b, 52),
            e_phentsize: read_u16(b, 54),
            e_phnum: read_u16(b, 56),
            e_shentsize: read_u16(b, 58),
            e_shnum: read_u16(b, 60),
            e_shstrndx: read_u16(b, 62),
        };
        if !header.check_magic() {
            return Err(ElfError::InvalidMagic);
        }
        if header.e_machine != C_E_MACHINE {
            return Err(ElfError::UnsupportedMachine);
        }
        Ok(header)
    }

    /// Whether `e_ident` starts with the ELF magic number.
    pub fn check_magic(&self) -> (r: bool)
        ensures
            r == has_elf_magic(self.e_ident@),
    {
        let m0 = self.e_ident[EI_MAG0];
        let m1 = self.e_ident[EI_MAG1];
        let m2 = self.e_ident[EI_MAG2];
        let m3 = self.e_ident[EI_MAG3];
        let magic: u32 = ((m0 as u32) << 24u32) | ((m1 as u32) << 16u32) | ((m2 as u32) << 8u32)
            | ((m3 as u32) << 0u32);
        assert(((m0 as u32) << 24u32) | ((m1 as u32) << 16u32) | ((m2 as u32) << 8u32) | ((
        m3 as u32) << 0u32) == 0x7f45_4c46u32 <==> (m0 == 0x7f && m1 == 0x45 && m2 == 0x4c
            && m3 == 0x46)) by (bit_vector);
        magic == C_MAGIC
    }

    /// Whether the program header table that this header locates lies
    /// inside `file`, as `new_ph_table` requires.
    pub fn ph_table_fits_in(&self, file: &Vec<u8>) -> (r: bool)
        ensures
            r == ph_table_fits(self.e_phoff, self.e_phnum, file@.len()),
    {
        let file_len: u64 = file.len() as u64;
        let table_size: u64 = (self.e_phnum as u64) * 56;
        assert(table_size == PROGRAM_HEADER_SIZE * self.e_phnum);
        self.e_phoff <= file_len && table_size <= file_len - self.e_phoff
    }

    /// Reads the program header table that this header locates in `file`:
    /// `e_phnum` entries, one every `PROGRAM_HEADER_SIZE` bytes from
    /// `e_phoff`. The table must lie inside the file.
    pub fn new_ph_table(&self, file: &Vec<u8>) -> (res: Result<ProgramHeaderTable, ElfError>)
        requires
            ph_table_fits(self.e_phoff, self.e_phnum, file@.len()),
        ensures
            match res {
                Ok(t) => {
                    &&& t.entries@.len() == self.e_phnum
                    &&& forall|i: int|
                        0 <= i < self.e_phnum ==> #[trigger] t.entries@[i] == program_header_at(
                            file@,
                            self.e_phoff + PROGRAM_HEADER_SIZE * i,
                        )
                },
                Err(_) => false,
            },
    {
        let e_phoff: u64 = self.e_phoff;
        let e_phnum: u16 = self.e_phnum;
        let b = file.as_slice();
        let blen: usize = b.len();
        let base: usize = e_phoff as usize;
        let mut entries: Vec<ProgramHeader> = Vec::new();
        let mut i: u16 = 0;
        while i < e_phnum
            invariant
                0 <= i <= e_phnum,
                e_phnum == self.e_phnum,
                e_phoff == self.e_phoff,
                base == e_phoff,
                b@ == file@,
                blen == b@.len(),
                e_phoff + PROGRAM_HEADER_SIZE * e_phnum <= b@.len(),
                entries@.len() == i,
                forall|j: int|
                    0 <= j < i ==> #[trigger] entries@[j] == program_header_at(
                        b@,
                        e_phoff + PROGRAM_HEADER_SIZE * j,
                    ),
            decreases e_phnum - i,
        {
            let off: usize = base + (i as usize) * PROGRAM_HEADER_SIZE;
            let entry = ProgramHeader {
                p_type: read_u32(b, off),
                p_flags: read_u32(b, off + 4),
                p_offset: read_u64(b, off + 8),
                p_vaddr: read_u64(b, off + 16),
                p_paddr: read_u64(b, off + 24),
                p_filesz: read_u64(b, off + 32),
                p_memsz: read_u64(b, off + 40),
                p_align: read_u64(b, off + 48),
            };
            entries.push(entry);
            i = i + 1;
        }
        Ok(ProgramHeaderTable { entries })
    }
}

impl ProgramHeader {
    /// The segment is executable: bit 0 of `p_flags`.
    pub fn flags_executable(&self) -> (r: bool)
        ensures
            r == (self.p_flags % 2 == 1),
    {
        let f = self.p_flags;
        assert((f & 0b1u32) != 0 <==> f % 2 == 1) by (bit_vector);
        (f & 0b1) != 0
    }

    /// The segment is writable: bit 1 of `p_flags`.
    pub fn flags_writable(&self) -> (r: bool)
        ensures
            r == ((self.p_flags / 2) % 2 == 1),
    {
        let f = self.p_flags;
        assert(((f & 0b10u32) >> 1u32) != 0 <==> (f / 2) % 2 == 1) by (bit_vector);
        ((f & 0b10) >> 1) != 0
    }

    /// The segment is readable: bit 2 of `p_flags`.
    pub fn flags_readable(&self) -> (r: bool)
        ensures
            r == ((self.p_flags / 4) % 2 == 1),
    {
        let f = self.p_flags;
        assert(((f & 0b100u32) >> 2u32) != 0 <==> (f / 4) % 2 == 1) by (bit_vector);
        ((f & 0b100) >> 2) != 0
    }
}

impl ProgramHeaderTable {
    /// Whether every loadable segment lies inside `file`, as `load_plan`
    /// requires.
    pub fn segments_fit_in(&self, file: &Vec<u8>) -> (r: bool)
        ensures
            r == loadable_segments_fit(self.entries@, file@.len()),
    {
        let file_len: u64 = file.len() as u64;
        let mut i: usize = 0;
        while i < self.entries.len()
            invariant
                0 <= i <= self.entries@.len(),
                file_len == file@.len(),
                forall|j: int|
                    0 <= j < i && (#[trigger] self.entries@[j]).p_type == PT_LOAD
                        ==> self.entries@[j].p_offset + self.entries@[j].p_filesz <= file_len,
            decreases self.entries@.len() - i,
        {
            let e = self.entries[i];
            if e.p_type == PT_LOAD && (e.p_offset > file_len || e.p_filesz > file_len - e.p_offset) {
                return false;
            }
            i = i + 1;
        }
        true
    }

    /// The copies that load this image's `PT_LOAD` segments from `file`, in
    /// table order: `p_filesz` bytes from `p_offset` to the physical address
    /// `p_paddr` each. Every loadable segment must lie inside the file.
    pub fn load_plan(&self, file: &Vec<u8>) -> (plan: Vec<SegmentCopy>)
        requires
            loadable_segments_fit(self.entries@, file@.len()),
        ensures
            plan@ == load_plan_spec(self.entries@),
    {
        let mut plan: Vec<SegmentCopy> = Vec::new();
        let mut i: usize = 0;
        while i < self.entries.len()
            invariant
                0 <= i <= self.entries@.len(),
                load_plan_spec(self.entries@.take(i as int)) == plan@,
            decreases self.entries@.len() - i,
        {
            let e = self.entries[i];
            assert(self.entries@.take(i + 1).drop_last() =~= self.entries@.take(i as int));
            assert(self.entries@.take(i + 1).last() == e);
            if e.p_type == PT_LOAD {
                plan.push(SegmentCopy { file_offset: e.p_offset, dest_addr: e.p_paddr, len: e.p_filesz });
            }
            i = i + 1;
        }
        assert(self.entries@.take(i as int) =~= self.entries@);
        plan
    }
}

/// When every loadable segment lies inside the file, so does every copy of
/// the load plan, and there is one copy for each `PT_LOAD` entry.
pub proof fn lemma_load_plan_in_bounds(entries: Seq<ProgramHeader>, file_len: nat)
    requires
        loadable_segments_fit(entries, file_len),
    ensures
        ({
            let plan = load_plan_spec(entries);
            &&& plan.len() == entries.filter(|e: ProgramHeader| e.p_type == PT_LOAD).len()
            &&& forall|k: int|
                0 <= k < plan.len() ==> #[trigger] plan[k].file_offset + plan[k].len <= file_len
        }),
    decreases entries.len(),
{
    reveal_with_fuel(Seq::filter, 1);
    if entries.len() > 0 {
        let rest = entries.drop_last();
        assert forall|i: int| 0 <= i < rest.len() && (#[trigger] rest[i]).p_type == PT_LOAD implies rest[i].p_offset + rest[i].p_filesz <= file_len by {
            assert(rest[i] == entries[i]);
        }
        lemma_load_plan_in_bounds(rest, file_len);
        assert(entries[entries.len() - 1] == entries.last());
    }
}

/// The sizes and codes of the ELF64 x86_64 format that the loader relies on.
pub proof fn lemma_elf_layout()
    ensures
        ELF_HEADER_SIZE == 64,
        PROGRAM_HEADER_SIZE == 56,
        PT_LOAD == 1,
        C_E_MACHINE == 0x3e,
{
}

/// The magic check looks at exactly the first four bytes, `7f 'E' 'L' 'F'`.
pub proof fn lemma_magic_bytes(x: Seq<u8>)
    ensures
        has_elf_magic(x) <==> (x.len() >= 4 && x[0] == 0x7f && x[1] == 0x45 && x[2] == 0x4c && x[3]
            == 0x46),
{
}

/// A header is accepted exactly when the file holds at least 64 bytes, starts
/// with `7f 'E' 'L' 'F'` and names machine 0x3e (x86_64) in bytes 18 and 19;
/// the first of these checks that fails names the error.
pub proof fn lemma_header_acceptance(s: Seq<u8>)
    ensures
        elf_header_error(s) == (if s.len() < 64 {
            Some(ElfError::BadBufferSize)
        } else if !(s[0] == 0x7f && s[1] == 0x45 && s[2] == 0x4c && s[3] == 0x46) {
            Some(ElfError::InvalidMagic)
        } else if s[18] + 0x100 * s[19] != 0x3e {
            Some(ElfError::UnsupportedMachine)
        } else {
            None
        }),
{
}

/// A header read from `s` holds, in each field, the little-endian value of
/// all the bytes of that field at its ELF64 offset.
pub proof fn lemma_header_fields_are_le_bytes(h: ElfHeader, s: Seq<u8>)
    requires
        h.decoded_from(s),
    ensures
        s.len() >= 64,
        forall|k: int| 0 <= k < 16 ==> h.e_ident@[k] == s[k],
        h.e_type as int == s[16] + 0x100 * s[17],
        h.e_machine as int == s[18] + 0x100 * s[19],
        h.e_version as int == s[20] + 0x100 * s[21] + 0x1_0000 * s[22] + 0x100_0000 * s[23],
        h.e_entry as int == s[24] + 0x100 * s[25] + 0x1_0000 * s[26] + 0x100_0000 * s[27] + 0x1_0000_0000 * s[28] + 0x100_0000_0000 * s[29] + 0x1_0000_0000_0000 * s[30] + 0x100_0000_0000_0000 * s[31],
        h.e_phoff as int == s[32] + 0x100 * s[33] + 0x1_0000 * s[34] + 0x100_0000 * s[35] + 0x1_0000_0000 * s[36] + 0x100_0000_0000 * s[37] + 0x1_0000_0000_0000 * s[38] + 0x100_0000_0000_0000 * s[39],
        h.e_shoff as int == s[40] + 0x100 * s[41] + 0x1_0000 * s[42] + 0x100_0000 * s[43] + 0x1_0000_0000 * s[44] + 0x100_0000_0000 * s[45] + 0x1_0000_0000_0000 * s[46] + 0x100_0000_0000_0000 * s[47],
        h.e_flags as int == s[48] + 0x100 * s[49] + 0x1_0000 * s[50] + 0x100_0000 * s[51],
        h.e_ehsize as int == s[52] + 0x100 * s[53],
        h.e_phentsize as int == s[54] + 0x100 * s[55],
        h.e_phnum as int == s[56] + 0x100 * s[57],
        h.e_shentsize as int == s[58] + 0x100 * s[59],
        h.e_shnum as int == s[60] + 0x100 * s[61],
        h.e_shstrndx as int == s[62] + 0x100 * s[63],
{
    assert forall|k: int| 0 <= k < 16 implies h.e_ident@[k] == s[k] by {
        assert(h.e_ident@[k] == s.subrange(0, 16)[k]);
    }
}

/// A program header read at `off` holds, in each field, the little-endian
/// value of all the bytes of that field at its offset in the entry.
pub proof fn lemma_program_header_fields_are_le_bytes(s: Seq<u8>, off: int)
    ensures
        ({
            let p = program_header_at(s, off);
            &&& p.p_type as int == s[(off + 0)] + 0x100 * s[(off + 0 + 1)] + 0x1_0000 * s[(off + 0 + 2)] + 0x100_0000 * s[(off + 0 + 3)]
            &&& p.p_flags as int == s[(off + 4)] + 0x100 * s[(off + 4 + 1)] + 0x1_0000 * s[(off + 4 + 2)] + 0x100_0000 * s[(off + 4 + 3)]
            &&& p.p_offset as int == s[(off + 8)] + 0x100 * s[(off + 8 + 1)] + 0x1_0000 * s[(off + 8 + 2)] + 0x100_0000 * s[(off + 8 + 3)] + 0x1_0000_0000 * s[(off + 8 + 4)] + 0x100_0000_0000 * s[(off + 8 + 5)] + 0x1_0000_0000_0000 * s[(off + 8 + 6)] + 0x100_0000_0000_0000 * s[(off + 8 + 7)]
            &&& p.p_vaddr as int == s[(off + 16)] + 0x100 * s[(off + 16 + 1)] + 0x1_0000 * s[(off + 16 + 2)] + 0x100_0000 * s[(off + 16 + 3)] + 0x1_0000_0000 * s[(off + 16 + 4)] + 0x100_0000_0000 * s[(off + 16 + 5)] + 0x1_0000_0000_0000 * s[(off + 16 + 6)] + 0x100_0000_0000_0000 * s[(off + 16 + 7)]
            &&& p.p_paddr as int == s[(off + 24)] + 0x100 * s[(off + 24 + 1)] + 0x1_0000 * s[(off + 24 + 2)] + 0x100_0000 * s[(off + 24 + 3)] + 0x1_0000_0000 * s[(off + 24 + 4)] + 0x100_0000_0000 * s[(off + 24 + 5)] + 0x1_0000_0000_0000 * s[(off + 24 + 6)] + 0x100_0000_0000_0000 * s[(off + 24 + 7)]
            &&& p.p_filesz as int == s[(off + 32)] + 0x100 * s[(off + 32 + 1)] + 0x1_0000 * s[(off + 32 + 2)] + 0x100_0000 * s[(off + 32 + 3)] + 0x1_0000_0000 * s[(off + 32 + 4)] + 0x100_0000_0000 * s[(off + 32 + 5)] + 0x1_0000_0000_0000 * s[(off + 32 + 6)] + 0x100_0000_0000_0000 * s[(off + 32 + 7)]
            &&& p.p_memsz as int == s[(off + 40)] + 0x100 * s[(off + 40 + 1)] + 0x1_0000 * s[(off + 40 + 2)] + 0x100_0000 * s[(off + 40 + 3)] + 0x1_0000_0000 * s[(off + 40 + 4)] + 0x100_0000_0000 * s[(off + 40 + 5)] + 0x1_0000_0000_0000 * s[(off + 40 + 6)] + 0x100_0000_0000_0000 * s[(off + 40 + 7)]
            &&& p.p_align as int == s[(off + 48)] + 0x100 * s[(off + 48 + 1)] + 0x1_0000 * s[(off + 48 + 2)] + 0x100_0000 * s[(off + 48 + 3)] + 0x1_0000_0000 * s[(off + 48 + 4)] + 0x100_0000_0000 * s[(off + 48 + 5)] + 0x1_0000_0000_0000 * s[(off + 48 + 6)] + 0x100_0000_0000_0000 * s[(off + 48 + 7)]
        }),
{
}

/// The program header table fits exactly when its `e_phnum` entries of 56
/// bytes from `e_phoff` end inside the file.
pub proof fn lemma_ph_table_fits_exactly(phoff: u64, phnum: u16, len: nat)
    ensures
        ph_table_fits(phoff, phnum, len) <==> phoff + 56 * phnum <= len,
{
}

/// The loadable segments fit exactly when each `PT_LOAD` entry's
/// `p_offset + p_filesz` is at most the file's length, with no other
/// condition.
pub proof fn lemma_segments_fit_exactly(entries: Seq<ProgramHeader>, len: nat)
    ensures
        loadable_segments_fit(entries, len) <==> (forall|i: int|
            0 <= i < entries.len() && entries[i].p_type == 1 ==> entries[i].p_offset
                + entries[i].p_filesz <= len),
{
}

/// The load plan is the `PT_LOAD` entries, in table order, each copied as
/// `p_filesz` bytes from file offset `p_offset` to physical address `p_paddr`.
pub proof fn lemma_load_plan_is_loadable_entries(entries: Seq<ProgramHeader>)
    ensures
        load_plan_spec(entries) == entries.filter(|e: ProgramHeader| e.p_type == 1).map_values(
            |e: ProgramHeader|
                SegmentCopy { file_offset: e.p_offset, dest_addr: e.p_paddr, len: e.p_filesz },
        ),
    decreases entries.len(),
{
    reveal_with_fuel(Seq::filter, 1);
    if entries.len() > 0 {
        lemma_load_plan_is_loadable_entries(entries.drop_last());
    }
    assert(load_plan_spec(entries) =~= entries.filter(|e: ProgramHeader| e.p_type == 1).map_values(
        |e: ProgramHeader|
            SegmentCopy { file_offset: e.p_offset, dest_addr: e.p_paddr, len: e.p_filesz },
    ));
}

} // verus!
