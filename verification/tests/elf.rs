use crustlet::elf::{SegmentCopy, PT_LOAD};
use crustlet::{ElfError, ElfHeader, ProgramHeader};

fn put_u16(b: &mut Vec<u8>, off: usize, v: u16) {
    b[off..off + 2].copy_from_slice(&v.to_le_bytes());
}

fn put_u32(b: &mut Vec<u8>, off: usize, v: u32) {
    b[off..off + 4].copy_from_slice(&v.to_le_bytes());
}

fn put_u64(b: &mut Vec<u8>, off: usize, v: u64) {
    b[off..off + 8].copy_from_slice(&v.to_le_bytes());
}

/// An x86_64 image: a header, `phnum` program headers right after it,
/// and `extra` bytes of segment data.
fn image(phnum: u16, extra: usize) -> Vec<u8> {
    let mut b = vec![0u8; 64 + 56 * phnum as usize + extra];
    b[0] = 0x7f;
    b[1] = b'E';
    b[2] = b'L';
    b[3] = b'F';
    b[4] = 2;
    b[5] = 1;
    put_u16(&mut b, 16, 2);
    put_u16(&mut b, 18, 0x3e);
    put_u32(&mut b, 20, 1);
    put_u64(&mut b, 24, 0x10_0000);
    put_u64(&mut b, 32, 64);
    put_u64(&mut b, 40, 0x1234);
    put_u32(&mut b, 48, 0);
    put_u16(&mut b, 52, 64);
    put_u16(&mut b, 54, 56);
    put_u16(&mut b, 56, phnum);
    put_u16(&mut b, 58, 64);
    put_u16(&mut b, 60, 7);
    put_u16(&mut b, 62, 6);
    b
}

fn put_ph(b: &mut Vec<u8>, i: usize, p_type: u32, flags: u32, offset: u64, paddr: u64, filesz: u64) {
    let off = 64 + 56 * i;
    put_u32(b, off, p_type);
    put_u32(b, off + 4, flags);
    put_u64(b, off + 8, offset);
    put_u64(b, off + 16, paddr + 0xffff_8000_0000_0000);
    put_u64(b, off + 24, paddr);
    put_u64(b, off + 32, filesz);
    put_u64(b, off + 40, filesz + 0x10);
    put_u64(b, off + 48, 0x1000);
}

#[test]
fn header_fields_are_read_little_endian() {
    let b = image(0, 0);
    let h = ElfHeader::new(&b).unwrap();
    assert_eq!(h.e_ident[..4], [0x7f, b'E', b'L', b'F']);
    assert_eq!(h.e_type, 2);
    assert_eq!(h.e_machine, 0x3e);
    assert_eq!(h.e_version, 1);
    assert_eq!(h.e_entry, 0x10_0000);
    assert_eq!(h.e_phoff, 64);
    assert_eq!(h.e_shoff, 0x1234);
    assert_eq!(h.e_ehsize, 64);
    assert_eq!(h.e_phentsize, 56);
    assert_eq!(h.e_phnum, 0);
    assert_eq!(h.e_shentsize, 64);
    assert_eq!(h.e_shnum, 7);
    assert_eq!(h.e_shstrndx, 6);
    assert!(h.check_magic());
}

#[test]
fn short_file_is_bad_buffer_size() {
    let b = image(0, 0);
    assert_eq!(ElfHeader::new(&b[..63].to_vec()).err(), Some(ElfError::BadBufferSize));
    assert_eq!(ElfHeader::new(&Vec::new()).err(), Some(ElfError::BadBufferSize));
    assert!(ElfHeader::new(&b[..64].to_vec()).is_ok());
}

#[test]
fn wrong_magic_is_invalid_magic() {
    for i in 0..4 {
        let mut b = image(0, 0);
        b[i] ^= 0x20;
        assert_eq!(ElfHeader::new(&b).err(), Some(ElfError::InvalidMagic));
    }
}

#[test]
fn magic_is_checked_before_machine() {
    let mut b = image(0, 0);
    b[1] = b'e';
    put_u16(&mut b, 18, 0x28);
    assert_eq!(ElfHeader::new(&b).err(), Some(ElfError::InvalidMagic));
}

#[test]
fn other_machine_is_unsupported() {
    let mut b = image(0, 0);
    put_u16(&mut b, 18, 0xb7);
    assert_eq!(ElfHeader::new(&b).err(), Some(ElfError::UnsupportedMachine));
}

#[test]
fn check_magic_looks_at_the_first_four_bytes() {
    let b = image(0, 0);
    let mut h = ElfHeader::new(&b).unwrap();
    assert!(h.check_magic());
    h.e_ident[3] = b'G';
    assert!(!h.check_magic());
    h.e_ident[3] = b'F';
    h.e_ident[4] = 0xff;
    assert!(h.check_magic());
}

#[test]
fn program_headers_are_read_one_every_56_bytes() {
    let mut b = image(2, 16);
    put_ph(&mut b, 0, PT_LOAD, 5, 176, 0x20_0000, 8);
    put_ph(&mut b, 1, 4, 4, 184, 0x30_0000, 8);
    let h = ElfHeader::new(&b).unwrap();
    let t = h.new_ph_table(&b).unwrap();
    assert_eq!(t.entries.len(), 2);
    assert_eq!(
        t.entries[0],
        ProgramHeader {
            p_type: 1,
            p_flags: 5,
            p_offset: 176,
            p_vaddr: 0xffff_8000_0020_0000,
            p_paddr: 0x20_0000,
            p_filesz: 8,
            p_memsz: 0x18,
            p_align: 0x1000,
        }
    );
    assert_eq!(t.entries[1].p_type, 4);
    assert_eq!(t.entries[1].p_offset, 184);
}

#[test]
fn program_header_table_fit_is_checked() {
    let b = image(2, 0);
    let h = ElfHeader::new(&b).unwrap();
    let short = b[..b.len() - 1].to_vec();
    assert!(!h.ph_table_fits_in(&short));
    assert!(h.ph_table_fits_in(&b));
    assert!(h.new_ph_table(&b).is_ok());
    let mut far = h;
    far.e_phoff = u64::MAX - 10;
    assert!(!far.ph_table_fits_in(&b));
}

#[test]
fn empty_program_header_table() {
    let b = image(0, 0);
    let h = ElfHeader::new(&b).unwrap();
    assert!(h.new_ph_table(&b).unwrap().entries.is_empty());
}

#[test]
fn load_plan_copies_the_loadable_segments_in_order() {
    let mut b = image(3, 32);
    put_ph(&mut b, 0, PT_LOAD, 5, 232, 0x20_0000, 16);
    put_ph(&mut b, 1, 6, 4, 64, 0x0, 168);
    put_ph(&mut b, 2, PT_LOAD, 6, 248, 0x30_0000, 16);
    let h = ElfHeader::new(&b).unwrap();
    let t = h.new_ph_table(&b).unwrap();
    assert!(t.segments_fit_in(&b));
    let plan = t.load_plan(&b);
    assert_eq!(
        plan,
        vec![
            SegmentCopy { file_offset: 232, dest_addr: 0x20_0000, len: 16 },
            SegmentCopy { file_offset: 248, dest_addr: 0x30_0000, len: 16 },
        ]
    );
    for c in &plan {
        assert!(c.file_offset + c.len <= b.len() as u64);
    }
}

#[test]
fn loadable_segment_past_the_end_does_not_fit() {
    let mut b = image(2, 16);
    put_ph(&mut b, 0, PT_LOAD, 5, 176, 0x20_0000, 16);
    put_ph(&mut b, 1, PT_LOAD, 5, 180, 0x30_0000, 16);
    let h = ElfHeader::new(&b).unwrap();
    let t = h.new_ph_table(&b).unwrap();
    assert!(!t.segments_fit_in(&b));
    put_ph(&mut b, 1, PT_LOAD, 5, 180, 0x30_0000, 12);
    let t = h.new_ph_table(&b).unwrap();
    assert!(t.segments_fit_in(&b));
}

#[test]
fn segment_that_is_not_loadable_may_lie_outside_the_file() {
    let mut b = image(1, 0);
    put_ph(&mut b, 0, 4, 4, 0xffff_ffff, 0, 0xffff);
    let h = ElfHeader::new(&b).unwrap();
    let t = h.new_ph_table(&b).unwrap();
    assert!(t.segments_fit_in(&b));
    assert_eq!(t.load_plan(&b), vec![]);
}

#[test]
fn flags_are_the_low_three_bits() {
    let mut p = ProgramHeader {
        p_type: 1,
        p_flags: 0b101,
        p_offset: 0,
        p_vaddr: 0,
        p_paddr: 0,
        p_filesz: 0,
        p_memsz: 0,
        p_align: 0,
    };
    assert!(p.flags_executable());
    assert!(!p.flags_writable());
    assert!(p.flags_readable());
    p.p_flags = 0b1010;
    assert!(!p.flags_executable());
    assert!(p.flags_writable());
    assert!(!p.flags_readable());
    p.p_flags = 0xffff_fff8;
    assert!(!p.flags_executable() && !p.flags_writable() && !p.flags_readable());
}

#[test]
fn header_description_lines() {
    let b = image(3, 0);
    let h = ElfHeader::new(&b).unwrap();
    assert_eq!(
        h.dump_info(),
        vec![
            "elf magic: 7fELF",
            "elf entry address: 0x100000",
            "endian: 0x1",
            "program header offset: 64 bytes",
            "section header offset: 4660 bytes",
            "number of program headers: 3",
            "number of section headers: 7",
            "section header string table index: 6",
            "target machine: 0x3e",
            "size of elf header: 64 bytes",
        ]
    );
}

#[test]
fn program_header_description_lines() {
    let p = ProgramHeader {
        p_type: 1,
        p_flags: 0b110,
        p_offset: 0,
        p_vaddr: 0xffff_8000_0020_0000,
        p_paddr: 0x20_0000,
        p_filesz: 0xab,
        p_memsz: 0x1000,
        p_align: 0x1000,
    };
    assert_eq!(
        p.dump_info(),
        vec![
            "p_type: 0x1",
            "p_flags: 0b110",
            "p_offset: 0x0",
            "p_vaddr: 0xffff800000200000",
            "p_paddr: 0x200000",
            "p_filesz: 0xab",
            "p_memsz: 0x1000",
            "p_align: 0x1000",
        ]
    );
}

#[test]
fn description_numbers_match_std_formatting() {
    for v in [0u64, 1, 9, 10, 15, 16, 255, 4096, 123456789, u64::MAX] {
        let p = ProgramHeader {
            p_type: v as u32,
            p_flags: v as u32,
            p_offset: v,
            p_vaddr: v,
            p_paddr: v,
            p_filesz: v,
            p_memsz: v,
            p_align: v,
        };
        let lines = p.dump_info();
        assert_eq!(lines[0], format!("p_type: 0x{:x}", v as u32));
        assert_eq!(lines[1], format!("p_flags: 0b{:b}", v as u32));
        assert_eq!(lines[2], format!("p_offset: 0x{:x}", v));
    }
}
