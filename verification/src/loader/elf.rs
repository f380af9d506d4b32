//! A loader for ELF executables: checking the file header of a 64-bit
//! little-endian x86-64 executable and walking its program headers.

use vstd::prelude::*;

verus! {

/// The value of a byte group, accumulated in base eight the way the
/// loader reads multi-byte fields.
pub open spec fn group_val(s: Seq<u8>) -> int
    decreases s.len(),
{
    if s.len() == 0 {
        0
    } else {
        group_val(s.drop_last()) * 8 + s.last()
    }
}

/// The largest value `n` bytes can accumulate to.
pub open spec fn group_bound(n: nat) -> int
    decreases n,
{
    if n == 0 {
        0
    } else {
        group_bound((n - 1) as nat) * 8 + 255
    }
}

proof fn lemma_group_val_bound(s: Seq<u8>)
    ensures
        0 <= group_val(s) <= group_bound(s.len()),
    decreases s.len(),
{
    if s.len() > 0 {
        lemma_group_val_bound(s.drop_last());
    }
}

proof fn lemma_group_bound_mono(a: nat, b: nat)
    requires
        a <= b,
    ensures
        0 <= group_bound(a) <= group_bound(b),
    decreases b,
{
    if b > 0 {
        if a == b {
            lemma_group_bound_mono((b - 1) as nat, (b - 1) as nat);
        } else {
            lemma_group_bound_mono(a, (b - 1) as nat);
        }
    }
}

/// The fixed bytes every supported file header starts with: the ELF
/// magic, a 64-bit little-endian image, header version one, then the
/// executable type, the x86-64 machine, and file version one.
pub open spec fn header_prefix_ok(s: Seq<u8>) -> bool {
    &&& s[0] == 0x7f
    &&& s[1] == 69
    &&& s[2] == 76
    &&& s[3] == 70
    &&& s[4] == 2
    &&& s[5] == 1
    &&& s[6] == 1
    &&& s[7] == 0
    &&& s[16] == 0x02
    &&& s[17] == 0
    &&& s[18] == 0x3e
    &&& s[19] == 0
    &&& s[20] == 1
    &&& s[21] == 0
    &&& s[22] == 0
    &&& s[23] == 0
    &&& s[52] == 64
    &&& s[53] == 0
}

/// Whether a byte sequence is a supported file header.
pub open spec fn file_header_ok(s: Seq<u8>) -> bool {
    s.len() >= 64 && header_prefix_ok(s)
}

/// The decoded file header of a supported executable.
struct FileHeader {
    entry: u64,
    ph_offset: u64,
    sh_offset: u64,
    phentsize: u16,
    phnum: u16,
    shentsize: u16,
    shnum: u16,
    shstrndx: u16,
}

/// Read a group of bytes as the loader's base-eight accumulation.
fn read_group(bytes: &[u8], start: usize, len: usize) -> (r: u64)
    requires
        start + len <= bytes@.len(),
        len <= 8,
    ensures
        r == group_val(bytes@.subrange(start as int, start + len)),
{
    let total = bytes.len();
    let mut result: u64 = 0;
    let mut i: usize = 0;
    while i < len
        invariant
            0 <= i <= len,
            len <= 8,
            total == bytes@.len(),
            start + len <= bytes@.len(),
            result == group_val(bytes@.subrange(start as int, start + i)),
            result <= group_bound(i as nat),
        decreases len - i,
    {
        proof {
            assert(bytes@.subrange(start as int, start + i + 1).drop_last() =~= bytes@.subrange(
                start as int,
                start + i,
            ));
            reveal_with_fuel(group_bound, 9);
            lemma_group_bound_mono(i as nat, 7);
            assert(result as int * 8 + 255 <= group_bound(8));
            assert(group_bound(8) < 0x1_0000_0000);
        }
        result = result * 8 + bytes[start + i] as u64;
        i = i + 1;
    }
    result
}

/// Check the fixed header bytes and decode the header fields.
fn parse_file_header(input_bytes: &[u8]) -> (r: Result<FileHeader, ()>)
    ensures
        r is Ok <==> file_header_ok(input_bytes@),
        r matches Ok(h) ==> (h.entry == group_val(input_bytes@.subrange(24, 32)) && h.ph_offset
            == group_val(input_bytes@.subrange(32, 40)) && h.sh_offset == group_val(
            input_bytes@.subrange(40, 48),
        ) && h.phentsize == group_val(input_bytes@.subrange(54, 56)) && h.phnum == group_val(
            input_bytes@.subrange(56, 58),
        )),
{
    if input_bytes.len() < 64 {
        return Err(());
    }
    // The magic and the fixed mode bytes.
    if input_bytes[0] != 0x7f || input_bytes[1] != 69 || input_bytes[2] != 76
        || input_bytes[3] != 70 {
        return Err(());
    }
    // Only 64-bit little-endian images of header version one.
    if input_bytes[4] != 2 || input_bytes[5] != 1 || input_bytes[6] != 1 || input_bytes[7] != 0 {
        return Err(());
    }
    // Only plain executables for x86-64, file version one.
    if input_bytes[16] != 0x02 || input_bytes[17] != 0 || input_bytes[18] != 0x3e
        || input_bytes[19] != 0 {
        return Err(());
    }
    if input_bytes[20] != 1 || input_bytes[21] != 0 || input_bytes[22] != 0 || input_bytes[23] != 0
    {
        return Err(());
    }
    // The header size must be 64 bytes for x86-64.
    if input_bytes[52] != 64 || input_bytes[53] != 0 {
        return Err(());
    }
    let entry = read_group(input_bytes, 24, 8);
    let ph_offset = read_group(input_bytes, 32, 8);
    let sh_offset = read_group(input_bytes, 40, 8);
    let phentsize = read_group(input_bytes, 54, 2) as u16;
    let phnum = read_group(input_bytes, 56, 2) as u16;
    let shentsize = read_group(input_bytes, 58, 2) as u16;
    let shnum = read_group(input_bytes, 60, 2) as u16;
    let shstrndx = read_group(input_bytes, 62, 2) as u16;
    proof {
        reveal_with_fuel(group_bound, 9);
        lemma_group_val_bound(input_bytes@.subrange(54, 56));
        lemma_group_val_bound(input_bytes@.subrange(56, 58));
        lemma_group_val_bound(input_bytes@.subrange(58, 60));
        lemma_group_val_bound(input_bytes@.subrange(60, 62));
        lemma_group_val_bound(input_bytes@.subrange(62, 64));
    }
    Ok(FileHeader { entry, ph_offset, sh_offset, phentsize, phnum, shentsize, shnum, shstrndx })
}

/// Whether a program header entry describes a loadable segment and is
/// long enough to hold all its fields.
pub open spec fn segment_ok(s: Seq<u8>) -> bool {
    s.len() >= 56 && s[0] == 1 && s[1] == 0 && s[2] == 0 && s[3] == 0
}

/// Check one program header entry. Only loadable segments are
/// supported.
fn load_segment(input_bytes: &[u8]) -> (r: Result<(), ()>)
    ensures
        r is Ok <==> segment_ok(input_bytes@),
{
    if input_bytes.len() < 56 {
        return Err(());
    }
    // Only loadable segments.
    if input_bytes[0] != 1 || input_bytes[1] != 0 || input_bytes[2] != 0 || input_bytes[3] != 0 {
        return Err(());
    }
    Ok(())
}

/// Whether a whole byte image can be walked: a supported file header
/// whose program header table, with the only supported entry size,
/// lies inside the image.
pub open spec fn elf_ok(s: Seq<u8>) -> bool {
    &&& file_header_ok(s)
    &&& group_val(s.subrange(54, 56)) == 0x38
    &&& s.len() >= group_val(s.subrange(32, 40)) + 0x38 * group_val(s.subrange(56, 58))
}

/// Load an ELF image: check the file header and walk every program
/// header entry, loading the segments it describes.
pub fn load_elf(bytes: &[u8]) -> (r: Result<(), ()>)
    ensures
        r is Ok <==> elf_ok(bytes@),
{
    let file_header = match parse_file_header(bytes) {
        Ok(v) => v,
        Err(_) => {
            return Err(());
        },
    };

    // The only supported program header entry size is 0x38 bytes,
    // because only x86-64 is supported.
    if file_header.phentsize != 0x38 {
        return Err(());
    }

    // If the blob is not big enough to hold the program header table,
    // return an error.
    let phsize: u64 = file_header.phentsize as u64 * file_header.phnum as u64;
    if (bytes.len() as u64) < file_header.ph_offset || (bytes.len() as u64)
        - file_header.ph_offset < phsize {
        return Err(());
    }

    let phnum = file_header.phnum as usize;
    let ph_offset_usize = file_header.ph_offset as usize;
    proof {
        assert(ph_offset_usize == file_header.ph_offset);
        assert(0x38 * (phnum as int) == phsize);
    }
    let mut i: usize = 0;
    while i < phnum
        invariant
            0 <= i <= phnum,
            ph_offset_usize + 0x38 * phnum <= bytes@.len(),
            bytes@.len() <= usize::MAX,
        decreases phnum - i,
    {
        proof {
            assert(i * 0x38 + 0x38 <= 0x38 * phnum) by (nonlinear_arith)
                requires
                    (i as int) < (phnum as int),
                    (i as int) >= 0,
            ;
            assert(ph_offset_usize + i * 0x38 + 0x38 <= bytes@.len());
        }
        let phent_start = ph_offset_usize + i * 0x38;
        let phent_end = phent_start + 0x38;
        let phent = &bytes[phent_start..phent_end];
        let _ = load_segment(phent);
        i = i + 1;
    }

    Ok(())
}

} // verus!
