//! The STFS volume: its descriptor, the file table and the block chains that
//! hold each file's bytes.
use vstd::prelude::*;
use crate::stfs::bytes::{be16, be32, copy_bytes, cursor_read_u16_be, from_utf8_lossy, utf8_lossy};
use crate::text::{
    chars_ends_with, chars_eq_ignore_ascii_case, chars_of, dec_digits, ends_with,
    eq_ignore_ascii_case, extend_chars, hex_digits, string_from_chars, u64_to_dec, u64_to_hex,
};

verus! {

pub const VOLUME_DESCRIPTOR_OFFSET: u64 = 0x0379;

pub const BLOCK_SIZE: u64 = 0x1000;

/// Where the block region (hash tables and data blocks) begins.
pub const BLOCK_REGION_BASE: u64 = 0xB000;

/// The block number that ends a chain.
pub const CHAIN_END: u32 = 0xFFFFFF;

#[derive(Debug, Clone, Copy, PartialEq, Eq, Structural)]
pub struct VolumeDescriptor {
    pub block_separation: u8,
    pub file_table_block: u32,
    pub file_table_block_count: u16,
    pub total_allocated_blocks: u32,
}

#[derive(Debug, Clone)]
pub struct FileEntry {
    pub name: String,
    pub is_directory: bool,
    pub num_blocks: u32,
    pub starting_block: u32,
    pub path_indicator: u16,
    pub file_size: u32,
    pub update_time: u32,
    pub access_time: u32,
}

pub struct EntrySpec {
    pub name: Seq<char>,
    pub is_directory: bool,
    pub num_blocks: u32,
    pub starting_block: u32,
    pub path_indicator: u16,
    pub file_size: u32,
    pub update_time: u32,
    pub access_time: u32,
}

impl View for FileEntry {
    type V = EntrySpec;

    open spec fn view(&self) -> EntrySpec {
        EntrySpec {
            name: self.name@,
            is_directory: self.is_directory,
            num_blocks: self.num_blocks,
            starting_block: self.starting_block,
            path_indicator: self.path_indicator,
            file_size: self.file_size,
            update_time: self.update_time,
            access_time: self.access_time,
        }
    }
}

impl FileEntry {
    /// A copy of the entry.
    pub fn duplicate(&self) -> (e: FileEntry)
        ensures
            e@ == self@,
    {
        FileEntry {
            name: self.name.clone(),
            is_directory: self.is_directory,
            num_blocks: self.num_blocks,
            starting_block: self.starting_block,
            path_indicator: self.path_indicator,
            file_size: self.file_size,
            update_time: self.update_time,
            access_time: self.access_time,
        }
    }
}

pub open spec fn entries_view(v: Seq<FileEntry>) -> Seq<EntrySpec> {
    v.map_values(|e: FileEntry| e@)
}

// ---------------------------------------------------------------- layout

pub open spec fn le24(b0: u8, b1: u8, b2: u8) -> int {
    b0 as int + b1 as int * 256 + b2 as int * 65536
}

pub open spec fn be24(b0: u8, b1: u8, b2: u8) -> int {
    (b0 as int * 256 + b1 as int) * 256 + b2 as int
}

/// Position of data block `block` among all blocks of the block region. The
/// region interleaves hash tables with data:
/// `[L0 0][data 0..169][L1 0][L0 1][data 170..339][L0 2][data 340..509]...`
pub open spec fn backing_block(block: int) -> int {
    if block < 170 {
        block + 1
    } else {
        block + (block - 170) / 170 + 3
    }
}

/// Byte offset of data block `block` in the package.
pub open spec fn block_offset(block: u32) -> int {
    BLOCK_REGION_BASE + backing_block(block as int) * BLOCK_SIZE
}

/// Byte offset of the level-0 hash table that covers data block `block`.
pub open spec fn hash_table_offset(block: u32) -> int {
    let group = block as int / 170;
    if group == 0 {
        BLOCK_REGION_BASE as int
    } else {
        BLOCK_REGION_BASE + (172 + (group - 1) * 171) * BLOCK_SIZE
    }
}

// ---------------------------------------------------------------- the block region's layout

/// The layout of the block region: data block 0 follows the level-0 hash
/// table of the first group, which sits at the region's start; each data
/// block follows the one before it directly, except that block 170 comes
/// three blocks after block 169 (past the level-1 table and the level-0
/// table of the second group) and each later group's first block two
/// blocks after the block before it (past that group's level-0 table); the
/// level-0 table of a block's group sits `b % 170 + 1` blocks before the
/// block; and nothing is read at the level-1 table's place, 171 blocks into
/// the region. So block 170 starts at `0xB8000`.
pub proof fn lemma_block_layout(b: u32)
    ensures
        block_offset(0) == BLOCK_REGION_BASE + 0x1000,
        hash_table_offset(0) == BLOCK_REGION_BASE,
        b < 0xFFFF_FFFF ==> block_offset((b + 1) as u32) - block_offset(b) == (if b + 1 == 170 {
            0x3000int
        } else if (b + 1) % 170 == 0 {
            0x2000int
        } else {
            0x1000int
        }),
        block_offset(b) - hash_table_offset(b) == (b % 170 + 1) * 0x1000,
        block_offset(b) != BLOCK_REGION_BASE + 171 * 0x1000,
        hash_table_offset(b) != BLOCK_REGION_BASE + 171 * 0x1000,
        block_offset(170) == 0xB8000,
{
    let x = b as int;
    let q = x / 170;
    let r = x % 170;
    assert(x == 170 * q + r && 0 <= r < 170 && q >= 0) by (nonlinear_arith)
        requires
            x >= 0,
            q == x / 170,
            r == x % 170,
    ;
    if q >= 1 {
        assert((x - 170) / 170 == q - 1) by (nonlinear_arith)
            requires
                x == 170 * q + r,
                0 <= r < 170,
                q >= 1,
        ;
        assert(backing_block(x) == x + q + 2);
    } else {
        assert(backing_block(x) == x + 1);
    }
    if b < 0xFFFF_FFFF {
        let y = x + 1;
        assert(((b + 1) as u32) as int == y);
        if r < 169 {
            assert(y / 170 == q && y % 170 == r + 1) by (nonlinear_arith)
                requires
                    x == 170 * q + r,
                    0 <= r < 169,
                    y == x + 1,
            ;
            if q >= 1 {
                assert((y - 170) / 170 == q - 1) by (nonlinear_arith)
                    requires
                        y == 170 * q + r + 1,
                        0 <= r < 169,
                        q >= 1,
                ;
            }
        } else {
            assert(y / 170 == q + 1 && y % 170 == 0) by (nonlinear_arith)
                requires
                    x == 170 * q + r,
                    r == 169,
                    y == x + 1,
            ;
            assert((y - 170) / 170 == q) by (nonlinear_arith)
                requires
                    y == 170 * q + 170,
            ;
        }
    }
    assert(170int / 170 == 1);
    assert((170int - 170) / 170 == 0);
}

/// Byte offset of the 24-byte hash entry of data block `block`: a 20-byte
/// SHA-1, a status byte and the next block number (3 bytes, big-endian).
pub open spec fn hash_entry_offset(block: u32) -> int {
    hash_table_offset(block) + (block as int % 170) * 0x18
}

pub open spec fn hash_entry_error(offset: int) -> Seq<char> {
    "Hash entry offset 0x"@ + hex_digits(offset as nat) + " out of bounds"@
}

/// The block that follows `block` in its chain, `CHAIN_END` where the chain
/// ends, or the error for a hash entry outside the package.
pub open spec fn next_block(data: Seq<u8>, block: u32) -> Result<u32, Seq<char>> {
    let e = hash_entry_offset(block);
    if e + 0x18 > data.len() {
        Err(hash_entry_error(e))
    } else {
        let next = be24(data[e + 0x15], data[e + 0x16], data[e + 0x17]);
        if next == 0xFFFFFF || data[e + 0x14] == 0 {
            Ok(CHAIN_END)
        } else {
            Ok(next as u32)
        }
    }
}

pub open spec fn block_result_view(r: Result<u32, String>) -> Result<u32, Seq<char>> {
    match r {
        Ok(b) => Ok(b),
        Err(e) => Err(e@),
    }
}

fn block_to_offset(block: u32, _vd: &VolumeDescriptor) -> (r: u64)
    ensures
        r == block_offset(block),
{
    let b = block as u64;
    let backing: u64 = if b < 170 {
        b + 1
    } else {
        b + (b - 170) / 170 + 3
    };
    BLOCK_REGION_BASE + backing * BLOCK_SIZE
}

fn hash_table_offset_for_block(block: u32, _vd: &VolumeDescriptor) -> (r: u64)
    ensures
        r == hash_table_offset(block),
{
    let group = (block / 170) as u64;
    if group == 0 {
        BLOCK_REGION_BASE
    } else {
        let pos = 172 + (group - 1) * 171;
        BLOCK_REGION_BASE + pos * BLOCK_SIZE
    }
}

/// Appends the characters of the literal `lit` to `v`.
fn push_str(v: &mut Vec<char>, lit: &str)
    ensures
        final(v)@ == old(v)@ + lit@,
{
    let c = chars_of(lit);
    extend_chars(v, c.as_slice());
}

fn hash_entry_error_msg(offset: u64) -> (s: String)
    ensures
        s@ == hash_entry_error(offset as int),
{
    let mut v = chars_of("Hash entry offset 0x");
    let h = u64_to_hex(offset);
    extend_chars(&mut v, h.as_slice());
    push_str(&mut v, " out of bounds");
    string_from_chars(v.as_slice())
}

fn get_next_block(data: &[u8], block: u32, vd: &VolumeDescriptor) -> (r: Result<u32, String>)
    ensures
        block_result_view(r) == next_block(data@, block),
{
    let index = (block % 170) as u64;
    let table = hash_table_offset_for_block(block, vd);
    let e = table + index * 0x18;
    if e + 0x18 > data.len() as u64 {
        return Err(hash_entry_error_msg(e));
    }
    let e = e as usize;
    let status = data[e + 0x14];
    let next = (data[e + 0x15] as u32 * 256 + data[e + 0x16] as u32) * 256 + data[e + 0x17] as u32;
    if next == CHAIN_END || status == 0 {
        Ok(CHAIN_END)
    } else {
        Ok(next)
    }
}

// ---------------------------------------------------------------- volume descriptor

/// The descriptor fields, read from the bytes at `0x379..0x39E`: the block
/// separation, the table block count (little-endian), the first table block
/// (3 bytes, big-endian) and the allocated block count (3 bytes, big-endian).
pub open spec fn descriptor_of(data: Seq<u8>) -> VolumeDescriptor {
    VolumeDescriptor {
        block_separation: data[0x37B],
        file_table_block_count: (data[0x37C] as int + data[0x37D] as int * 256) as u16,
        file_table_block: be24(data[0x37E], data[0x37F], data[0x380]) as u32,
        total_allocated_blocks: (data[0x39B] as int * 65536 + be16(data[0x39C], data[0x39D])) as u32,
    }
}

fn parse_volume_descriptor(data: &[u8]) -> (r: Result<VolumeDescriptor, String>)
    ensures
        r is Ok <==> data@.len() >= 0x39E,
        r is Ok ==> r->Ok_0 == descriptor_of(data@),
        data@.len() < 0x39D ==> r is Err && r->Err_0@ == "File too small for volume descriptor"@,
{
    if data.len() < 0x39D {
        return Err(String::from_str("File too small for volume descriptor"));
    }
    let block_separation = data[0x37B];
    let lo = data[0x37C] as u16;
    let hi = data[0x37D] as u16;
    let file_table_block_count = lo + hi * 256;
    let file_table_block = (data[0x37E] as u32 * 256 + data[0x37F] as u32) * 256
        + data[0x380] as u32;
    let total_high = data[0x39B] as u32;
    let total_low = match cursor_read_u16_be(data, VOLUME_DESCRIPTOR_OFFSET + 0x23) {
        Ok(v) => v as u32,
        Err(e) => {
            return Err(e);
        },
    };
    Ok(
        VolumeDescriptor {
            block_separation,
            file_table_block,
            file_table_block_count,
            total_allocated_blocks: total_high * 65536 + total_low,
        },
    )
}

// ---------------------------------------------------------------- file table

/// The 64-byte file-table record at byte `e`, or `None` for an empty slot
/// (name length 0). Byte 0x28 holds the name length (low 6 bits) and the
/// directory flag (high bit).
pub open spec fn table_entry(data: Seq<u8>, e: int) -> Option<EntrySpec> {
    let flags = data[e + 0x28];
    let name_len = flags as int % 64;
    if name_len == 0 {
        None
    } else {
        Some(
            EntrySpec {
                name: utf8_lossy(data.subrange(e, e + name_len)),
                is_directory: flags >= 128,
                num_blocks: le24(data[e + 0x29], data[e + 0x2A], data[e + 0x2B]) as u32,
                starting_block: le24(data[e + 0x2F], data[e + 0x30], data[e + 0x31]) as u32,
                path_indicator: be16(data[e + 0x32], data[e + 0x33]) as u16,
                file_size: be32(data[e + 0x34], data[e + 0x35], data[e + 0x36], data[e + 0x37]) as u32,
                update_time: be32(data[e + 0x38], data[e + 0x39], data[e + 0x3A], data[e + 0x3B]) as u32,
                access_time: be32(data[e + 0x3C], data[e + 0x3D], data[e + 0x3E], data[e + 0x3F]) as u32,
            },
        )
    }
}

/// The records in slots `i..64` of the table block at byte `off`.
pub open spec fn slot_entries(data: Seq<u8>, off: int, i: int) -> Seq<EntrySpec>
    decreases 64 - i,
{
    if i >= 64 || off + i * 0x40 + 0x40 > data.len() {
        Seq::empty()
    } else {
        let rest = slot_entries(data, off, i + 1);
        match table_entry(data, off + i * 0x40) {
            Some(en) => seq![en] + rest,
            None => rest,
        }
    }
}

/// The file table: the records of up to `count` table blocks, following the
/// chain from `block`; the walk stops at a block that lies past the end of
/// the package, at the chain's end, or where the next block cannot be read.
pub open spec fn table_walk(data: Seq<u8>, block: u32, count: nat) -> Seq<EntrySpec>
    decreases count,
{
    if count == 0 {
        Seq::empty()
    } else {
        let off = block_offset(block);
        if off + BLOCK_SIZE > data.len() {
            Seq::empty()
        } else {
            slot_entries(data, off, 0) + match next_block(data, block) {
                Ok(n) => if n != CHAIN_END {
                    table_walk(data, n, (count - 1) as nat)
                } else {
                    Seq::empty()
                },
                Err(_) => Seq::empty(),
            }
        }
    }
}

pub open spec fn file_table(data: Seq<u8>, vd: VolumeDescriptor) -> Seq<EntrySpec> {
    table_walk(data, vd.file_table_block, vd.file_table_block_count as nat)
}

fn read_entry(data: &[u8], e: usize) -> (r: Option<FileEntry>)
    requires
        e + 0x40 <= data.len(),
    ensures
        match r {
            Some(en) => table_entry(data@, e as int) == Some(en@),
            None => table_entry(data@, e as int) is None,
        },
{
    let flags = data[e + 0x28];
    let name_len = flags & 0x3F;
    assert((flags & 0x3F) == flags % 64) by (bit_vector);
    if name_len == 0 {
        return None;
    }
    let is_directory = (flags & 0x80) != 0;
    assert(((flags & 0x80) != 0) == (flags >= 128)) by (bit_vector);
    let name_bytes = copy_bytes(data, e, e + name_len as usize);
    let name = from_utf8_lossy(name_bytes.as_slice());
    let num_blocks = data[e + 0x29] as u32 + data[e + 0x2A] as u32 * 256 + data[e + 0x2B] as u32
        * 65536;
    let starting_block = data[e + 0x2F] as u32 + data[e + 0x30] as u32 * 256 + data[e + 0x31] as u32
        * 65536;
    let path_indicator = data[e + 0x32] as u16 * 256 + data[e + 0x33] as u16;
    let file_size = be32_at(data, e + 0x34);
    let update_time = be32_at(data, e + 0x38);
    let access_time = be32_at(data, e + 0x3C);
    Some(
        FileEntry {
            name,
            is_directory,
            num_blocks,
            starting_block,
            path_indicator,
            file_size,
            update_time,
            access_time,
        },
    )
}

fn be32_at(data: &[u8], p: usize) -> (r: u32)
    requires
        p + 4 <= data.len(),
    ensures
        r == be32(data@[p as int], data@[p + 1], data@[p + 2], data@[p + 3]),
{
    ((data[p] as u32 * 256 + data[p + 1] as u32) * 256 + data[p + 2] as u32) * 256 + data[p + 3] as u32
}

/// Appends the records of the table block at `off` to `entries`.
fn read_table_block(data: &[u8], off: usize, entries: &mut Vec<FileEntry>)
    requires
        off + 0x1000 <= data@.len(),
    ensures
        entries_view(final(entries)@) == entries_view(old(entries)@) + slot_entries(data@, off as int, 0),
{
    let ghost start = entries_view(entries@);
    let mut i: usize = 0;
    while i < 64
        invariant
            i <= 64,
            off + 0x1000 <= data.len(),
            entries_view(entries@) + slot_entries(data@, off as int, i as int) == start
                + slot_entries(data@, off as int, 0),
        decreases 64 - i,
    {
        let e = off + i * 0x40;
        let ghost before = entries_view(entries@);
        let ghost rest = slot_entries(data@, off as int, i + 1);
        match read_entry(data, e) {
            Some(en) => {
                entries.push(en);
                assert(entries_view(entries@) =~= before.push(en@));
                assert(before + (seq![en@] + rest) =~= before.push(en@) + rest);
            },
            None => {
                assert(entries_view(entries@) =~= before);
            },
        }
        i = i + 1;
    }
    assert(slot_entries(data@, off as int, 64) =~= Seq::<EntrySpec>::empty());
    assert(entries_view(entries@) + Seq::<EntrySpec>::empty() =~= entries_view(entries@));
}

fn parse_file_table(data: &[u8], vd: &VolumeDescriptor) -> (r: Result<Vec<FileEntry>, String>)
    ensures
        r is Ok,
        entries_view(r->Ok_0@) == file_table(data@, *vd),
{
    let mut entries: Vec<FileEntry> = Vec::new();
    let mut current = vd.file_table_block;
    let mut left = vd.file_table_block_count;
    let mut done = false;
    while left > 0 && !done
        invariant
            done ==> entries_view(entries@) == file_table(data@, *vd),
            !done ==> entries_view(entries@) + table_walk(data@, current, left as nat) == file_table(
                data@,
                *vd,
            ),
        decreases left,
    {
        let ghost before = entries_view(entries@);
        let offset = block_to_offset(current, vd);
        if offset + BLOCK_SIZE > data.len() as u64 {
            assert(before + Seq::<EntrySpec>::empty() =~= before);
            done = true;
        } else {
            read_table_block(data, offset as usize, &mut entries);
            let ghost slots = slot_entries(data@, offset as int, 0);
            let next = get_next_block(data, current, vd);
            match next {
                Ok(n) => {
                    if n != CHAIN_END {
                        assert(before + (slots + table_walk(data@, n, (left - 1) as nat)) =~= (before
                            + slots) + table_walk(data@, n, (left - 1) as nat));
                        current = n;
                    } else {
                        assert(before + (slots + Seq::<EntrySpec>::empty()) =~= before + slots);
                        done = true;
                    }
                },
                Err(_) => {
                    assert(before + (slots + Seq::<EntrySpec>::empty()) =~= before + slots);
                    done = true;
                },
            }
        }
        left = left - 1;
    }
    if !done {
        assert(entries_view(entries@) + Seq::<EntrySpec>::empty() =~= entries_view(entries@));
    }
    Ok(entries)
}

// ---------------------------------------------------------------- reading files

pub open spec fn block_error(block: int, offset: int) -> Seq<char> {
    "Block "@ + dec_digits(block as nat) + " offset 0x"@ + hex_digits(offset as nat)
        + " exceeds file size"@
}

/// The bytes of a file of `remaining` bytes whose chain starts at `block` and
/// spans at most `count` blocks: each block gives up to 4096 bytes; reading
/// stops early at the chain's end.
pub open spec fn chain_read(data: Seq<u8>, block: u32, remaining: nat, count: nat) -> Result<
    Seq<u8>,
    Seq<char>,
>
    decreases count,
{
    if count == 0 || remaining == 0 {
        Ok(Seq::empty())
    } else {
        let off = block_offset(block);
        let size: int = if remaining < 0x1000 {
            remaining as int
        } else {
            0x1000
        };
        if off + size > data.len() {
            Err(block_error(block as int, off))
        } else {
            let chunk = data.subrange(off, off + size);
            let rest = (remaining - size) as nat;
            if rest == 0 {
                Ok(chunk)
            } else {
                match next_block(data, block) {
                    Err(e) => Err(e),
                    Ok(n) => if n == CHAIN_END {
                        Ok(chunk)
                    } else {
                        prepend(chunk, chain_read(data, n, rest, (count - 1) as nat))
                    },
                }
            }
        }
    }
}

pub open spec fn prepend(p: Seq<u8>, r: Result<Seq<u8>, Seq<char>>) -> Result<Seq<u8>, Seq<char>> {
    match r {
        Ok(s) => Ok(p + s),
        Err(e) => Err(e),
    }
}

/// What extracting `e` from a package gives.
pub open spec fn file_content(data: Seq<u8>, e: EntrySpec) -> Result<Seq<u8>, Seq<char>> {
    if e.is_directory {
        Err("Cannot extract a directory"@)
    } else {
        chain_read(data, e.starting_block, e.file_size as nat, e.num_blocks as nat)
    }
}

pub open spec fn bytes_result_view(r: Result<Vec<u8>, String>) -> Result<Seq<u8>, Seq<char>> {
    match r {
        Ok(v) => Ok(v@),
        Err(e) => Err(e@),
    }
}

/// The block offsets of a chain of at most `count` blocks from `block`.
pub open spec fn chain_offsets(data: Seq<u8>, block: u32, count: nat) -> Seq<u64>
    decreases count,
{
    if count == 0 {
        Seq::empty()
    } else {
        seq![block_offset(block) as u64] + match next_block(data, block) {
            Ok(n) => if n != CHAIN_END {
                chain_offsets(data, n, (count - 1) as nat)
            } else {
                Seq::empty()
            },
            Err(_) => Seq::empty(),
        }
    }
}

/// Whether `i` is the first index of `s` whose entry satisfies `p`.
pub open spec fn first_with(s: Seq<EntrySpec>, p: spec_fn(EntrySpec) -> bool, i: int) -> bool {
    &&& 0 <= i < s.len()
    &&& p(s[i])
    &&& forall|j: int| 0 <= j < i ==> !p(#[trigger] s[j])
}

/// Only one index is the first whose entry satisfies `p`.
pub proof fn lemma_first_with_unique(s: Seq<EntrySpec>, p: spec_fn(EntrySpec) -> bool, i: int, j: int)
    requires
        first_with(s, p, i),
        first_with(s, p, j),
    ensures
        i == j,
{
    if i < j {
        assert(!p(s[i]));
    } else if j < i {
        assert(!p(s[j]));
    }
}

/// A file whose name ends with `suffix`, ignoring ASCII case.
pub open spec fn file_with_suffix(e: EntrySpec, suffix: Seq<char>) -> bool {
    !e.is_directory && e.name.len() >= suffix.len() && eq_ignore_ascii_case(
        e.name.skip(e.name.len() - suffix.len()),
        suffix,
    )
}

pub open spec fn suffix_p(suffix: Seq<char>) -> spec_fn(EntrySpec) -> bool {
    |e: EntrySpec| file_with_suffix(e, suffix)
}

fn name_ends_with_ignoring_case(name: &String, lit: &str) -> (b: bool)
    ensures
        b == (name@.len() >= lit@.len() && eq_ignore_ascii_case(name@.skip(name@.len() - lit@.len()), lit@)),
{
    let a = chars_of(name.as_str());
    let l = chars_of(lit);
    if a.len() < l.len() {
        return false;
    }
    let tail = crate::text::sub_chars(a.as_slice(), a.len() - l.len(), a.len());
    assert(tail@ =~= name@.skip(name@.len() - lit@.len()));
    chars_eq_ignore_ascii_case(tail.as_slice(), l.as_slice())
}

pub open spec fn songs_dir_p() -> spec_fn(EntrySpec) -> bool {
    |e: EntrySpec| is_songs_dir(e)
}

pub open spec fn songs_dta_p(dir: int) -> spec_fn(EntrySpec) -> bool {
    |e: EntrySpec| is_songs_dta(e, dir)
}

pub open spec fn gen_dir_p() -> spec_fn(EntrySpec) -> bool {
    |e: EntrySpec| is_gen_dir(e)
}

pub open spec fn album_art_p(dir: Option<int>) -> spec_fn(EntrySpec) -> bool {
    |e: EntrySpec| is_album_art(e, dir)
}

pub open spec fn is_songs_dir(e: EntrySpec) -> bool {
    e.is_directory && eq_ignore_ascii_case(e.name, "songs"@)
}

/// A `songs.dta` file whose parent is the entry at index `dir`.
pub open spec fn is_songs_dta(e: EntrySpec, dir: int) -> bool {
    !e.is_directory && eq_ignore_ascii_case(e.name, "songs.dta"@) && e.path_indicator as int == dir
        % 65536
}

pub open spec fn is_gen_dir(e: EntrySpec) -> bool {
    e.is_directory && eq_ignore_ascii_case(e.name, "gen"@)
}

/// An album-art texture, inside the `gen` directory at `dir` where there is one.
pub open spec fn is_album_art(e: EntrySpec, dir: Option<int>) -> bool {
    &&& !e.is_directory
    &&& ends_with(e.name, "_keep.png_xbox"@)
    &&& match dir {
        Some(d) => e.path_indicator as int == d % 65536,
        None => true,
    }
}

/// The `songs.dta` of a package: its bytes and its entry, or the error.
pub open spec fn songs_dta(files: Seq<EntrySpec>, data: Seq<u8>) -> Result<
    (Seq<u8>, EntrySpec),
    Seq<char>,
> {
    if !(exists|d: int| #[trigger] first_with(files, songs_dir_p(), d)) {
        Err("No 'songs' directory found in package"@)
    } else {
        let d = choose|d: int| first_with(files, songs_dir_p(), d);
        if !(exists|k: int| #[trigger] first_with(files, songs_dta_p(d), k)) {
            Err("No 'songs.dta' found in songs directory"@)
        } else {
            let k = choose|k: int| first_with(files, songs_dta_p(d), k);
            match file_content(data, files[k]) {
                Ok(c) => Ok((c, files[k])),
                Err(e) => Err(e),
            }
        }
    }
}

/// The index of the `gen` directory, where there is one.
pub open spec fn gen_dir(files: Seq<EntrySpec>) -> Option<int> {
    if exists|d: int| #[trigger] first_with(files, gen_dir_p(), d) {
        Some(choose|d: int| first_with(files, gen_dir_p(), d))
    } else {
        None
    }
}

/// The album-art texture of a package, or the error.
pub open spec fn album_art(files: Seq<EntrySpec>, data: Seq<u8>) -> Result<Seq<u8>, Seq<char>> {
    let g = gen_dir(files);
    if exists|k: int| #[trigger] first_with(files, album_art_p(g), k) {
        let k = choose|k: int| first_with(files, album_art_p(g), k);
        file_content(data, files[k])
    } else {
        Err("No album art (_keep.png_xbox) found in package"@)
    }
}

fn block_error_msg(block: u32, offset: u64) -> (s: String)
    ensures
        s@ == block_error(block as int, offset as int),
{
    let mut v = chars_of("Block ");
    let d = u64_to_dec(block as u64);
    extend_chars(&mut v, d.as_slice());
    push_str(&mut v, " offset 0x");
    let h = u64_to_hex(offset);
    extend_chars(&mut v, h.as_slice());
    push_str(&mut v, " exceeds file size");
    string_from_chars(v.as_slice())
}

/// Appends `data[a..b]` to `v`.
fn extend_bytes(v: &mut Vec<u8>, data: &[u8], a: usize, b: usize)
    requires
        a <= b <= data@.len(),
    ensures
        final(v)@ == old(v)@ + data@.subrange(a as int, b as int),
{
    let ghost start = v@;
    let mut i = a;
    while i < b
        invariant
            a <= i <= b <= data@.len(),
            v@ == start + data@.subrange(a as int, i as int),
        decreases b - i,
    {
        v.push(data[i]);
        i = i + 1;
        assert(v@ =~= start + data@.subrange(a as int, i as int));
    }
}

fn name_is(name: &String, lit: &str) -> (b: bool)
    ensures
        b == eq_ignore_ascii_case(name@, lit@),
{
    let a = chars_of(name.as_str());
    let l = chars_of(lit);
    chars_eq_ignore_ascii_case(a.as_slice(), l.as_slice())
}

fn name_ends_with(name: &String, lit: &str) -> (b: bool)
    ensures
        b == ends_with(name@, lit@),
{
    let a = chars_of(name.as_str());
    let l = chars_of(lit);
    chars_ends_with(a.as_slice(), l.as_slice())
}

fn find_songs_dir(files: &Vec<FileEntry>) -> (r: Option<usize>)
    ensures
        match r {
            Some(i) => first_with(entries_view(files@), songs_dir_p(), i as int),
            None => forall|j: int|
                0 <= j < files@.len() ==> !is_songs_dir(#[trigger] entries_view(files@)[j]),
        },
{
    let ghost s = entries_view(files@);
    let mut i: usize = 0;
    while i < files.len()
        invariant
            i <= files@.len(),
            s == entries_view(files@),
            forall|j: int| 0 <= j < i ==> !is_songs_dir(#[trigger] s[j]),
        decreases files@.len() - i,
    {
        if files[i].is_directory && name_is(&files[i].name, "songs") {
            assert(is_songs_dir(s[i as int]));
            return Some(i);
        }
        i = i + 1;
    }
    None
}

fn find_songs_dta(files: &Vec<FileEntry>, dir: usize) -> (r: Option<usize>)
    ensures
        match r {
            Some(i) => first_with(
                entries_view(files@),
                songs_dta_p(dir as int),
                i as int,
            ),
            None => forall|j: int|
                0 <= j < files@.len() ==> !is_songs_dta(
                    #[trigger] entries_view(files@)[j],
                    dir as int,
                ),
        },
{
    let ghost s = entries_view(files@);
    let want = (dir % 65536) as u16;
    let mut i: usize = 0;
    while i < files.len()
        invariant
            i <= files@.len(),
            s == entries_view(files@),
            want as int == dir as int % 65536,
            forall|j: int| 0 <= j < i ==> !is_songs_dta(#[trigger] s[j], dir as int),
        decreases files@.len() - i,
    {
        if !files[i].is_directory && name_is(&files[i].name, "songs.dta")
            && files[i].path_indicator == want {
            assert(is_songs_dta(s[i as int], dir as int));
            return Some(i);
        }
        i = i + 1;
    }
    None
}

fn find_gen_dir(files: &Vec<FileEntry>) -> (r: Option<usize>)
    ensures
        match r {
            Some(i) => first_with(entries_view(files@), gen_dir_p(), i as int),
            None => forall|j: int|
                0 <= j < files@.len() ==> !is_gen_dir(#[trigger] entries_view(files@)[j]),
        },
{
    let ghost s = entries_view(files@);
    let mut i: usize = 0;
    while i < files.len()
        invariant
            i <= files@.len(),
            s == entries_view(files@),
            forall|j: int| 0 <= j < i ==> !is_gen_dir(#[trigger] s[j]),
        decreases files@.len() - i,
    {
        if files[i].is_directory && name_is(&files[i].name, "gen") {
            assert(is_gen_dir(s[i as int]));
            return Some(i);
        }
        i = i + 1;
    }
    None
}

pub open spec fn index_view(g: Option<usize>) -> Option<int> {
    match g {
        Some(i) => Some(i as int),
        None => None,
    }
}

fn find_album_art(files: &Vec<FileEntry>, dir: Option<usize>) -> (r: Option<usize>)
    ensures
        match r {
            Some(i) => first_with(
                entries_view(files@),
                album_art_p(index_view(dir)),
                i as int,
            ),
            None => forall|j: int|
                0 <= j < files@.len() ==> !is_album_art(
                    #[trigger] entries_view(files@)[j],
                    index_view(dir),
                ),
        },
{
    let ghost s = entries_view(files@);
    let mut i: usize = 0;
    while i < files.len()
        invariant
            i <= files@.len(),
            s == entries_view(files@),
            forall|j: int| 0 <= j < i ==> !is_album_art(#[trigger] s[j], index_view(dir)),
        decreases files@.len() - i,
    {
        let in_dir = match dir {
            Some(d) => files[i].path_indicator == (d % 65536) as u16,
            None => true,
        };
        if !files[i].is_directory && name_ends_with(&files[i].name, "_keep.png_xbox") && in_dir {
            assert(is_album_art(s[i as int], index_view(dir)));
            return Some(i);
        }
        i = i + 1;
    }
    None
}

pub struct StfsFilesystem {
    pub volume_descriptor: VolumeDescriptor,
    pub files: Vec<FileEntry>,
    /// The package bytes, public so that contracts over the volume can be
    /// read by callers.
    pub data: Vec<u8>,
}

impl StfsFilesystem {
    /// The package bytes the volume was read from.
    pub open spec fn bytes(&self) -> Seq<u8> {
        self.data@
    }

    /// The volume descriptor.
    pub open spec fn descriptor(&self) -> VolumeDescriptor {
        self.volume_descriptor
    }

    /// The file-table records, in table order.
    pub open spec fn entries(&self) -> Seq<EntrySpec> {
        entries_view(self.files@)
    }

    /// Reads the volume descriptor and the file table of a package. Fails
    /// only where the descriptor does not fit in `data`.
    pub fn parse(data: Vec<u8>) -> (r: Result<Self, String>)
        ensures
            r is Ok <==> data@.len() >= 0x39E,
            r is Ok ==> r->Ok_0.descriptor() == descriptor_of(data@) && r->Ok_0.entries()
                == file_table(data@, descriptor_of(data@)) && r->Ok_0.bytes() == data@,
            data@.len() < 0x39D ==> r is Err && r->Err_0@ == "File too small for volume descriptor"@,
    {
        let vd = match parse_volume_descriptor(data.as_slice()) {
            Ok(vd) => vd,
            Err(e) => {
                return Err(e);
            },
        };
        let files = match parse_file_table(data.as_slice(), &vd) {
            Ok(f) => f,
            Err(e) => {
                return Err(e);
            },
        };
        Ok(StfsFilesystem { volume_descriptor: vd, files, data })
    }

    /// The bytes of `entry`, following its block chain.
    pub fn extract_file(&self, entry: &FileEntry) -> (r: Result<Vec<u8>, String>)
        ensures
            bytes_result_view(r) == file_content(self.bytes(), entry@),
    {
        if entry.is_directory {
            return Err(String::from_str("Cannot extract a directory"));
        }
        let ghost data = self.data@;
        let ghost total = chain_read(data, entry.starting_block, entry.file_size as nat, entry.num_blocks as nat);
        let mut result: Vec<u8> = Vec::new();
        let mut current = entry.starting_block;
        let mut remaining = entry.file_size;
        let mut left = entry.num_blocks;
        while left > 0 && remaining > 0
            invariant
                data == self.data@,
                total == file_content(self.bytes(), entry@),
                prepend(result@, chain_read(data, current, remaining as nat, left as nat)) == total,
            decreases left,
        {
            let offset = block_to_offset(current, &self.volume_descriptor);
            let size: u32 = if remaining < 0x1000 {
                remaining
            } else {
                0x1000
            };
            let ghost step = chain_read(data, current, remaining as nat, left as nat);
            if offset + size as u64 > self.data.len() as u64 {
                assert(step == Err::<Seq<u8>, Seq<char>>(block_error(current as int, offset as int)));
                return Err(block_error_msg(current, offset));
            }
            let ghost before = result@;
            let ghost chunk = data.subrange(offset as int, offset + size);
            extend_bytes(&mut result, self.data.as_slice(), offset as usize, (offset + size as u64) as usize);
            assert(result@ == before + chunk);
            remaining = remaining - size;
            if remaining > 0 {
                match get_next_block(self.data.as_slice(), current, &self.volume_descriptor) {
                    Err(e) => {
                        assert(step == Err::<Seq<u8>, Seq<char>>(e@));
                        return Err(e);
                    },
                    Ok(n) => {
                        if n == CHAIN_END {
                            assert(step == Ok::<Seq<u8>, Seq<char>>(chunk));
                            return Ok(result);
                        }
                        let ghost rest = chain_read(data, n, remaining as nat, (left - 1) as nat);
                        assert(step == prepend(chunk, rest));
                        assert(prepend(before, prepend(chunk, rest)) == prepend(result@, rest)) by {
                            match rest {
                                Ok(t) => {
                                    assert(before + (chunk + t) =~= result@ + t);
                                },
                                Err(_) => {},
                            }
                        }
                        current = n;
                    },
                }
            } else {
                assert(step == Ok::<Seq<u8>, Seq<char>>(chunk));
                assert(result@ + Seq::<u8>::empty() =~= result@);
            }
            left = left - 1;
        }
        assert(result@ + Seq::<u8>::empty() =~= result@);
        Ok(result)
    }

    /// Finds `songs.dta` in the `songs` directory and extracts it.
    pub fn extract_songs_dta(&self) -> (r: Result<(Vec<u8>, FileEntry), String>)
        ensures
            match r {
                Ok((c, e)) => songs_dta(self.entries(), self.bytes()) == Ok::<
                    (Seq<u8>, EntrySpec),
                    Seq<char>,
                >((c@, e@)),
                Err(e) => songs_dta(self.entries(), self.bytes()) == Err::<
                    (Seq<u8>, EntrySpec),
                    Seq<char>,
                >(e@),
            },
    {
        let ghost files = self.entries();
        let dir = match find_songs_dir(&self.files) {
            Some(d) => d,
            None => {
                return Err(String::from_str("No 'songs' directory found in package"));
            },
        };
        proof {
            let c = choose|d: int| first_with(files, songs_dir_p(), d);
            lemma_first_with_unique(files, songs_dir_p(), c, dir as int);
        }
        let k = match find_songs_dta(&self.files, dir) {
            Some(k) => k,
            None => {
                return Err(String::from_str("No 'songs.dta' found in songs directory"));
            },
        };
        proof {
            let c = choose|j: int| first_with(files, songs_dta_p(dir as int), j);
            lemma_first_with_unique(files, songs_dta_p(dir as int), c, k as int);
        }
        let entry = &self.files[k];
        match self.extract_file(entry) {
            Ok(content) => Ok((content, entry.duplicate())),
            Err(e) => Err(e),
        }
    }

    /// Finds the album-art texture (`*_keep.png_xbox`, inside `gen` where the
    /// package has that directory) and extracts it.
    pub fn extract_album_art(&self) -> (r: Result<Vec<u8>, String>)
        ensures
            bytes_result_view(r) == album_art(self.entries(), self.bytes()),
    {
        let ghost files = self.entries();
        let gen = find_gen_dir(&self.files);
        proof {
            match gen {
                Some(g) => {
                    let c = choose|d: int| first_with(files, gen_dir_p(), d);
                    lemma_first_with_unique(files, gen_dir_p(), c, g as int);
                },
                None => {},
            }
            assert(gen_dir(files) == index_view(gen));
        }
        match find_album_art(&self.files, gen) {
            Some(k) => {
                proof {
                    let g = gen_dir(files);
                    let c = choose|j: int| first_with(files, album_art_p(g), j);
                    lemma_first_with_unique(files, album_art_p(g), c, k as int);
                }
                self.extract_file(&self.files[k])
            },
            None => Err(String::from_str("No album art (_keep.png_xbox) found in package")),
        }
    }

    /// The entry of `songs.dta` and the offsets of the blocks that hold it,
    /// for writing the file back in place.
    pub fn get_songs_dta_location(&self) -> (r: Result<(FileEntry, Vec<u64>), String>)
        ensures
            match r {
                Ok((e, offs)) => songs_dta(self.entries(), self.bytes()) is Ok
                    && songs_dta(self.entries(), self.bytes())->Ok_0.1 == e@ && offs@
                    == chain_offsets(self.bytes(), e.starting_block, e.num_blocks as nat),
                Err(e) => songs_dta(self.entries(), self.bytes()) == Err::<
                    (Seq<u8>, EntrySpec),
                    Seq<char>,
                >(e@),
            },
    {
        let entry = match self.extract_songs_dta() {
            Ok((_, e)) => e,
            Err(e) => {
                return Err(e);
            },
        };
        let offsets = match self.get_file_block_offsets(&entry) {
            Ok(o) => o,
            Err(e) => {
                return Err(e);
            },
        };
        Ok((entry, offsets))
    }

    /// The offsets of the blocks that hold a file, following its chain for
    /// at most its block count; the chain stops early where the hash table
    /// ends it or cannot be read.
    pub fn get_file_block_offsets(&self, entry: &FileEntry) -> (r: Result<Vec<u64>, String>)
        ensures
            r matches Ok(offs) && offs@ == chain_offsets(self.bytes(), entry.starting_block, entry.num_blocks as nat),
    {
        let ghost data = self.data@;
        let ghost total = chain_offsets(data, entry.starting_block, entry.num_blocks as nat);
        let mut offsets: Vec<u64> = Vec::new();
        let mut current = entry.starting_block;
        let mut left = entry.num_blocks;
        let mut done = false;
        while left > 0 && !done
            invariant
                data == self.data@,
                done ==> offsets@ == total,
                !done ==> offsets@ + chain_offsets(data, current, left as nat) == total,
            decreases left,
        {
            let ghost before = offsets@;
            let offset = block_to_offset(current, &self.volume_descriptor);
            offsets.push(offset);
            match get_next_block(self.data.as_slice(), current, &self.volume_descriptor) {
                Ok(n) => {
                    if n != CHAIN_END {
                        assert(before + (seq![offset] + chain_offsets(data, n, (left - 1) as nat))
                            =~= offsets@ + chain_offsets(data, n, (left - 1) as nat));
                        current = n;
                    } else {
                        assert(before + (seq![offset] + Seq::<u64>::empty()) =~= offsets@);
                        done = true;
                    }
                },
                Err(_) => {
                    assert(before + (seq![offset] + Seq::<u64>::empty()) =~= offsets@);
                    done = true;
                },
            }
            left = left - 1;
        }
        if !done {
            assert(offsets@ + Seq::<u64>::empty() =~= offsets@);
        }
        Ok(offsets)
    }

    /// The first file of the package whose name ends with `suffix`,
    /// ignoring ASCII case.
    fn first_file_with_suffix(&self, suffix: &str) -> (r: Option<FileEntry>)
        ensures
            match r {
                Some(e) => exists|i: int|
                    first_with(self.entries(), suffix_p(suffix@), i) && self.entries()[i] == e@,
                None => forall|j: int|
                    0 <= j < self.entries().len() ==> !file_with_suffix(#[trigger] self.entries()[j], suffix@),
            },
    {
        let ghost s = self.entries();
        let mut i: usize = 0;
        while i < self.files.len()
            invariant
                i <= self.files@.len(),
                s == entries_view(self.files@),
                forall|j: int| 0 <= j < i ==> !file_with_suffix(#[trigger] s[j], suffix@),
            decreases self.files@.len() - i,
        {
            assert(s[i as int] == self.files@[i as int]@);
            if !self.files[i].is_directory && name_ends_with_ignoring_case(&self.files[i].name, suffix) {
                assert(file_with_suffix(s[i as int], suffix@));
                let e = self.files[i].duplicate();
                assert(first_with(s, suffix_p(suffix@), i as int));
                assert(self.entries()[i as int] == e@);
                return Some(e);
            }
            i = i + 1;
        }
        None
    }

    /// The first file of the package whose name ends with `.mogg`, ignoring
    /// ASCII case: the song's audio.
    pub fn find_mogg_file(&self) -> (r: Option<FileEntry>)
        ensures
            match r {
                Some(e) => exists|i: int|
                    first_with(self.entries(), suffix_p(".mogg"@), i) && self.entries()[i] == e@,
                None => forall|j: int|
                    0 <= j < self.entries().len() ==> !file_with_suffix(#[trigger] self.entries()[j], ".mogg"@),
            },
    {
        self.first_file_with_suffix(".mogg")
    }

    /// The first file of the package whose name ends with `.mid`, ignoring
    /// ASCII case: the song's chart.
    pub fn find_mid_file(&self) -> (r: Option<FileEntry>)
        ensures
            match r {
                Some(e) => exists|i: int|
                    first_with(self.entries(), suffix_p(".mid"@), i) && self.entries()[i] == e@,
                None => forall|j: int|
                    0 <= j < self.entries().len() ==> !file_with_suffix(#[trigger] self.entries()[j], ".mid"@),
            },
    {
        self.first_file_with_suffix(".mid")
    }
}

} // verus!
