//! The text that describes parsed headers, one line per field, as the
//! loader logs it.
use vstd::prelude::*;
use vstd::string::StringExecFns;

use crate::elf::{ElfHeader, ProgramHeader, ELF_HEADER_SIZE};

verus! {

/// The lower-case digit of value `d`.
pub open spec fn digit_char(d: nat) -> char {
    if d < 10 {
        (d + 48) as char
    } else {
        (d + 87) as char
    }
}

/// The digits of `n` in `base`, most significant first, without leading
/// zeros (a single `0` for zero), as `{}`, `{:x}` and `{:b}` print them.
pub open spec fn radix_digits(n: nat, base: nat) -> Seq<char>
    decreases n,
{
    if base < 2 || n < base {
        seq![digit_char(n)]
    } else {
        proof {
            assert(n / base < n) by (nonlinear_arith)
                requires
                    base >= 2,
                    n >= base,
            ;
        }
        radix_digits(n / base, base).push(digit_char(n % base))
    }
}

/// The value that a digit character stands for: `0`-`9` and then `a`-`z`.
pub open spec fn digit_value(c: char) -> int {
    if '0' <= c && c <= '9' {
        c as int - 48
    } else {
        c as int - 87
    }
}

/// The number that a string of digits in `base` stands for, most
/// significant digit first.
pub open spec fn digits_value(ds: Seq<char>, base: nat) -> int
    decreases ds.len(),
{
    if ds.len() == 0 {
        0
    } else {
        digits_value(ds.drop_last(), base) * base + digit_value(ds.last())
    }
}

proof fn lemma_digit_char_value(x: nat)
    requires
        x < 16,
    ensures
        digit_value(digit_char(x)) == x,
        x < 10 ==> '0' <= digit_char(x) && digit_char(x) <= '9',
        x >= 10 ==> 'a' <= digit_char(x) && digit_char(x) <= 'f',
        x > 0 ==> digit_char(x) != '0',
{
    if x < 10 {
        assert(((x + 48) as char) as int == x + 48);
    } else {
        assert(((x + 87) as char) as int == x + 87);
    }
}

/// The digits that describe a number are its positional notation in `base`:
/// each is `0`-`9` or `a`-`f` standing for less than `base`, together they
/// stand for `n`, and there is no leading zero.
pub proof fn lemma_radix_digits_positional(n: nat, base: nat)
    requires
        2 <= base <= 16,
    ensures
        radix_digits(n, base).len() >= 1,
        forall|k: int|
            0 <= k < radix_digits(n, base).len() ==> {
                let c = #[trigger] radix_digits(n, base)[k];
                &&& ('0' <= c && c <= '9') || ('a' <= c && c <= 'f')
                &&& 0 <= digit_value(c) < base
            },
        digits_value(radix_digits(n, base), base) == n,
        n > 0 ==> radix_digits(n, base)[0] != '0',
    decreases n,
{
    let d = radix_digits(n, base);
    if n < base {
        lemma_digit_char_value(n);
        assert(d =~= seq![digit_char(n)]);
        assert(d.drop_last() =~= Seq::<char>::empty());
        assert(digits_value(d.drop_last(), base) == 0);
        assert(digits_value(d, base) == 0 * base + digit_value(digit_char(n)));
    } else {
        assert(n / base < n) by (nonlinear_arith)
            requires
                base >= 2,
                n >= base,
        ;
        assert(n / base >= 1) by (nonlinear_arith)
            requires
                base >= 2,
                n >= base,
        ;
        assert(n % base < base) by (nonlinear_arith)
            requires
                base >= 2,
        ;
        assert((n / base) * base + n % base == n) by (nonlinear_arith)
            requires
                base >= 2,
        ;
        lemma_radix_digits_positional(n / base, base);
        let p = radix_digits(n / base, base);
        assert(d == p.push(digit_char(n % base)));
        assert(d.drop_last() =~= p);
        lemma_digit_char_value(n % base);
        assert(digits_value(d, base) == digits_value(p, base) * base + digit_value(
            digit_char(n % base),
        ));
        assert forall|k: int| 0 <= k < d.len() implies {
            let c = #[trigger] d[k];
            &&& ('0' <= c && c <= '9') || ('a' <= c && c <= 'f')
            &&& 0 <= digit_value(c) < base
        } by {
            if k < p.len() {
                assert(d[k] == p[k]);
            }
        }
        assert(d[0] == p[0]);
    }
}

/// std's `String::push`: appends one character.
#[verifier::external_body]
fn push_char(s: &mut String, c: char)
    ensures
        final(s)@ == old(s)@.push(c),
{
    s.push(c)
}

fn digit(d: u64) -> (c: char)
    requires
        d < 16,
    ensures
        c == digit_char(d as nat),
{
    let b: u8 = d as u8;
    if b < 10 {
        (b + 48) as char
    } else {
        (b + 87) as char
    }
}

/// Appends the digits of `n` in `base`.
fn push_radix(s: &mut String, n: u64, base: u64)
    requires
        2 <= base <= 16,
    ensures
        final(s)@ == old(s)@ + radix_digits(n as nat, base as nat),
    decreases n,
{
    if n >= base {
        assert(n / base < n) by (nonlinear_arith)
            requires
                base >= 2,
                n >= base,
        ;
        push_radix(s, n / base, base);
    } else {
        assert(n % base == n) by (nonlinear_arith)
            requires
                n < base,
        ;
    }
    push_char(s, digit(n % base));
    assert(s@ =~= old(s)@ + radix_digits(n as nat, base as nat));
}

/// `n` in lower-case hexadecimal, as `{:x}` prints it.
pub open spec fn hex(n: nat) -> Seq<char> {
    radix_digits(n, 16)
}

/// `n` in decimal, as `{}` prints it.
pub open spec fn dec(n: nat) -> Seq<char> {
    radix_digits(n, 10)
}

/// `n` in binary, as `{:b}` prints it.
pub open spec fn bin(n: nat) -> Seq<char> {
    radix_digits(n, 2)
}

/// The lines that describe an ELF header.
pub open spec fn header_info(h: ElfHeader) -> Seq<Seq<char>> {
    seq![
        "elf magic: "@ + hex(h.e_ident@[0] as nat) + seq![
            h.e_ident@[1] as char,
            h.e_ident@[2] as char,
            h.e_ident@[3] as char,
        ],
        "elf entry address: 0x"@ + hex(h.e_entry as nat),
        "endian: 0x"@ + hex(h.e_ident@[5] as nat),
        "program header offset: "@ + dec(h.e_phoff as nat) + " bytes"@,
        "section header offset: "@ + dec(h.e_shoff as nat) + " bytes"@,
        "number of program headers: "@ + dec(h.e_phnum as nat),
        "number of section headers: "@ + dec(h.e_shnum as nat),
        "section header string table index: "@ + dec(h.e_shstrndx as nat),
        "target machine: 0x"@ + hex(h.e_machine as nat),
        "size of elf header: "@ + dec(ELF_HEADER_SIZE as nat) + " bytes"@,
    ]
}

/// The lines that describe a program header.
pub open spec fn program_header_info(p: ProgramHeader) -> Seq<Seq<char>> {
    seq![
        "p_type: 0x"@ + hex(p.p_type as nat),
        "p_flags: 0b"@ + bin(p.p_flags as nat),
        "p_offset: 0x"@ + hex(p.p_offset as nat),
        "p_vaddr: 0x"@ + hex(p.p_vaddr as nat),
        "p_paddr: 0x"@ + hex(p.p_paddr as nat),
        "p_filesz: 0x"@ + hex(p.p_filesz as nat),
        "p_memsz: 0x"@ + hex(p.p_memsz as nat),
        "p_align: 0x"@ + hex(p.p_align as nat),
    ]
}

/// The text of a line: `prefix` followed by `n` in `base`.
fn number_line(prefix: &str, n: u64, base: u64) -> (l: String)
    requires
        2 <= base <= 16,
    ensures
        l@ == prefix@ + radix_digits(n as nat, base as nat),
{
    let mut l = String::new();
    l.append(prefix);
    push_radix(&mut l, n, base);
    l
}

impl ElfHeader {
    /// The lines that describe this header, in the order in which the
    /// loader logs them.
    pub fn dump_info(&self) -> (lines: Vec<String>)
        ensures
            lines@.map_values(|l: String| l@) == header_info(*self),
    {
        let mut lines: Vec<String> = Vec::new();
        let mut magic = number_line("elf magic: ", self.e_ident[0] as u64, 16);
        push_char(&mut magic, self.e_ident[1] as char);
        push_char(&mut magic, self.e_ident[2] as char);
        push_char(&mut magic, self.e_ident[3] as char);
        assert(magic@ =~= header_info(*self)[0]);
        lines.push(magic);
        lines.push(number_line("elf entry address: 0x", self.e_entry, 16));
        lines.push(number_line("endian: 0x", self.e_ident[5] as u64, 16));
        let mut l = number_line("program header offset: ", self.e_phoff, 10);
        l.append(" bytes");
        lines.push(l);
        let mut l = number_line("section header offset: ", self.e_shoff, 10);
        l.append(" bytes");
        lines.push(l);
        lines.push(number_line("number of program headers: ", self.e_phnum as u64, 10));
        lines.push(number_line("number of section headers: ", self.e_shnum as u64, 10));
        lines.push(
            number_line("section header string table index: ", self.e_shstrndx as u64, 10),
        );
        lines.push(number_line("target machine: 0x", self.e_machine as u64, 16));
        let mut l = number_line("size of elf header: ", ELF_HEADER_SIZE as u64, 10);
        l.append(" bytes");
        lines.push(l);
        assert(lines@.map_values(|l: String| l@) =~= header_info(*self));
        lines
    }
}

impl ProgramHeader {
    /// The lines that describe this program header, in the order in which
    /// the loader logs them.
    pub fn dump_info(&self) -> (lines: Vec<String>)
        ensures
            lines@.map_values(|l: String| l@) == program_header_info(*self),
    {
        let mut lines: Vec<String> = Vec::new();
        lines.push(number_line("p_type: 0x", self.p_type as u64, 16));
        lines.push(number_line("p_flags: 0b", self.p_flags as u64, 2));
        lines.push(number_line("p_offset: 0x", self.p_offset, 16));
        lines.push(number_line("p_vaddr: 0x", self.p_vaddr, 16));
        lines.push(number_line("p_paddr: 0x", self.p_paddr, 16));
        lines.push(number_line("p_filesz: 0x", self.p_filesz, 16));
        lines.push(number_line("p_memsz: 0x", self.p_memsz, 16));
        lines.push(number_line("p_align: 0x", self.p_align, 16));
        assert(lines@.map_values(|l: String| l@) =~= program_header_info(*self));
        lines
    }
}

/// The description of a header names each field, with its number in
/// positional notation: hexadecimal after `0x`, binary after `0b`, decimal
/// otherwise; the magic line shows the first byte in hexadecimal and the
/// next three as characters.
pub proof fn lemma_header_info_lines(h: ElfHeader, p: ProgramHeader)
    ensures
        header_info(h) == seq![
            "elf magic: "@ + radix_digits(h.e_ident@[0] as nat, 16) + seq![
                h.e_ident@[1] as char,
                h.e_ident@[2] as char,
                h.e_ident@[3] as char,
            ],
            "elf entry address: 0x"@ + radix_digits(h.e_entry as nat, 16),
            "endian: 0x"@ + radix_digits(h.e_ident@[5] as nat, 16),
            "program header offset: "@ + radix_digits(h.e_phoff as nat, 10) + " bytes"@,
            "section header offset: "@ + radix_digits(h.e_shoff as nat, 10) + " bytes"@,
            "number of program headers: "@ + radix_digits(h.e_phnum as nat, 10),
            "number of section headers: "@ + radix_digits(h.e_shnum as nat, 10),
            "section header string table index: "@ + radix_digits(h.e_shstrndx as nat, 10),
            "target machine: 0x"@ + radix_digits(h.e_machine as nat, 16),
            "size of elf header: "@ + radix_digits(64, 10) + " bytes"@,
        ],
        program_header_info(p) == seq![
            "p_type: 0x"@ + radix_digits(p.p_type as nat, 16),
            "p_flags: 0b"@ + radix_digits(p.p_flags as nat, 2),
            "p_offset: 0x"@ + radix_digits(p.p_offset as nat, 16),
            "p_vaddr: 0x"@ + radix_digits(p.p_vaddr as nat, 16),
            "p_paddr: 0x"@ + radix_digits(p.p_paddr as nat, 16),
            "p_filesz: 0x"@ + radix_digits(p.p_filesz as nat, 16),
            "p_memsz: 0x"@ + radix_digits(p.p_memsz as nat, 16),
            "p_align: 0x"@ + radix_digits(p.p_align as nat, 16),
        ],
{
}

} // verus!
