# crustlet

The verified core of a small x86_64 UEFI boot loader.

- `src/elf.rs`: the ELF64 file header, the program header table and the
  plan of copies that loads an image's `PT_LOAD` segments.
- `src/info.rs`: the lines of text that describe parsed headers.
- `src/parser.rs`: the boot environment file (`key=value` lines) and the
  laws that reading it obeys.
- `src/acpi.rs`: finding the ACPI 2 table among the firmware's
  configuration tables.
- `src/bytes.rs`, `src/utf8.rs`: little-endian fields, byte order and
  UTF-8 text.
- `app/main.rs`: the UEFI application, which makes the firmware calls,
  performs the planned copies and jumps to the kernel.

Everything under `src/` is verified with Verus; `app/` is ordinary Rust.
