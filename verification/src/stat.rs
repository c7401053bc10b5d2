//! What the system reports of a filesystem entry, and the set of inodes that
//! a walk has noted.

use std::collections::HashSet;
use vstd::prelude::*;

verus! {

broadcast use vstd::std_specs::hash::group_hash_axioms;

/// Unique identity of a file on disk. Two paths with the same one are hard
/// links to the same file, which is to be counted once.
#[derive(Clone, Copy, Debug, PartialEq, Eq, Hash, Structural)]
pub struct InodeKey {
    pub dev: u64,
    pub ino: u64,
}

/// What is known of a single filesystem entry.
#[derive(Debug, Clone, Copy)]
pub struct FileStat {
    /// Logical file size in bytes.
    pub apparent_size: u64,
    /// Bytes used on disk. For sparse files this may be less than the logical size.
    pub disk_usage: u64,
    /// Size of the resource fork in bytes, where the system reports it.
    pub rsrc_size: u64,
    pub inode: InodeKey,
    pub is_dir: bool,
    pub is_symlink: bool,
    /// Whether it is a regular file: no device, pipe or socket.
    pub is_regular: bool,
    /// More than one for a file that has several hard links.
    pub nlink: u64,
}

impl FileStat {
    /// The entry is of one kind at most, and its resource fork can be added to
    /// either size.
    pub open spec fn wf(self) -> bool {
        &&& !(self.is_dir && self.is_symlink)
        &&& !(self.is_dir && self.is_regular)
        &&& !(self.is_symlink && self.is_regular)
        &&& self.apparent_size + self.rsrc_size <= u64::MAX
        &&& self.disk_usage + self.rsrc_size <= u64::MAX
    }
}

/// The fields of a `stat` record.
#[derive(Debug, Clone, Copy)]
pub struct RawStat {
    pub st_dev: i64,
    pub st_ino: u64,
    pub st_mode: u32,
    pub st_nlink: u64,
    pub st_size: i64,
    /// Number of blocks of 512 bytes.
    pub st_blocks: i64,
}

/// The bits of a mode that give the kind of entry.
pub const S_IFMT: u32 = 0xf000;

pub const S_IFDIR: u32 = 0x4000;

pub const S_IFLNK: u32 = 0xa000;

pub const S_IFREG: u32 = 0x8000;

pub const BLOCK_SIZE: u64 = 512;

/// The unsigned number with the same 64 bits.
pub open spec fn unsigned64(n: i64) -> nat {
    if n >= 0 {
        n as nat
    } else {
        (n + 0x1_0000_0000_0000_0000) as nat
    }
}

pub open spec fn saturated64(n: nat) -> nat {
    if n <= u64::MAX {
        n
    } else {
        u64::MAX as nat
    }
}

/// What a `stat` record says of an entry.
pub fn stat_from_raw(st: &RawStat) -> (r: FileStat)
    ensures
        r.wf(),
        r.apparent_size == if st.st_size >= 0 {
            st.st_size as int
        } else {
            0
        },
        r.disk_usage == saturated64(unsigned64(st.st_blocks) * 512),
        r.rsrc_size == 0,
        r.inode.dev == unsigned64(st.st_dev),
        r.inode.ino == st.st_ino,
        r.is_dir == (st.st_mode & S_IFMT == S_IFDIR),
        r.is_symlink == (st.st_mode & S_IFMT == S_IFLNK),
        r.is_regular == (st.st_mode & S_IFMT == S_IFREG),
        r.nlink == st.st_nlink,
{
    let blocks = as_unsigned(st.st_blocks);
    let disk_usage = match blocks.checked_mul(BLOCK_SIZE) {
        Some(bytes) => bytes,
        None => u64::MAX,
    };
    let apparent_size: u64 = if st.st_size >= 0 {
        st.st_size as u64
    } else {
        0
    };
    let file_type = st.st_mode & S_IFMT;
    FileStat {
        apparent_size,
        disk_usage,
        rsrc_size: 0,
        inode: InodeKey { dev: as_unsigned(st.st_dev), ino: st.st_ino },
        is_dir: file_type == S_IFDIR,
        is_symlink: file_type == S_IFLNK,
        is_regular: file_type == S_IFREG,
        nlink: st.st_nlink,
    }
}

fn as_unsigned(n: i64) -> (r: u64)
    ensures
        r == unsigned64(n),
{
    if n >= 0 {
        n as u64
    } else {
        // `-(n + 1)` counts down from the largest number, and always fits.
        u64::MAX - (-(n + 1)) as u64
    }
}

// What is asked of `getattrlist(2)`, from <sys/attr.h>.
pub const ATTR_BIT_MAP_COUNT: u16 = 5;

pub const ATTR_CMN_RETURNED_ATTRS: u32 = 0x8000_0000;

/// Device, an `i32`.
pub const ATTR_CMN_DEVID: u32 = 0x0000_0002;

/// Kind of object, a `u32`.
pub const ATTR_CMN_OBJTYPE: u32 = 0x0000_0008;

/// Inode, a `u64`.
pub const ATTR_CMN_FILEID: u32 = 0x0200_0000;

/// Hard links, a `u32`.
pub const ATTR_FILE_LINKCOUNT: u32 = 0x0000_0001;

/// Logical size of the data fork, an `i64`.
pub const ATTR_FILE_DATALENGTH: u32 = 0x0000_0200;

/// Allocated size of the data fork, an `i64`.
pub const ATTR_FILE_DATAALLOCSIZE: u32 = 0x0000_0400;

/// Logical size of the resource fork, an `i64`.
pub const ATTR_FILE_RSRCLENGTH: u32 = 0x0000_1000;

pub const FSOPT_NOFOLLOW: u32 = 0x0000_0001;

pub const FSOPT_REPORT_FULLSIZE: u32 = 0x0000_0004;

/// Common attributes without which the reply has another layout.
pub const NEEDED_COMMON: u32 = ATTR_CMN_DEVID | ATTR_CMN_OBJTYPE | ATTR_CMN_FILEID;

/// File attributes without which the reply has another layout.
pub const NEEDED_FILE: u32 = ATTR_FILE_LINKCOUNT | ATTR_FILE_DATALENGTH | ATTR_FILE_DATAALLOCSIZE;

/// Common attributes that are asked for.
pub const ASKED_COMMON: u32 = ATTR_CMN_RETURNED_ATTRS | NEEDED_COMMON;

/// File attributes that are asked for. A volume may leave out the resource
/// fork, whose length then stays zero.
pub const ASKED_FILE: u32 = NEEDED_FILE | ATTR_FILE_RSRCLENGTH;

// Kinds of objects, from <sys/vnode.h>.
pub const VREG: u32 = 1;

pub const VDIR: u32 = 2;

pub const VLNK: u32 = 5;

/// The length of a reply with all attributes that are asked for. Its fields are
/// packed without gaps:
///
/// ```text
///  at  0   length           u32
///      4   returned_attrs   5 times u32: common, volume, directory, file, fork
///     24   device           i32
///     28   kind of object   u32
///     32   inode            u64
///     40   hard links       u32
///     44   data length      i64
///     52   data allocated   i64
///     60   resource length  i64
/// ```
pub const ATTR_REPLY_LEN: usize = 68;

/// The 32-bit number whose lowest byte is at `at`.
pub open spec fn le32(b: Seq<u8>, at: int) -> nat {
    b[at] as nat + 0x100 * b[at + 1] as nat + 0x1_0000 * b[at + 2] as nat + 0x100_0000
        * b[at + 3] as nat
}

/// The 64-bit number whose lowest byte is at `at`.
pub open spec fn le64(b: Seq<u8>, at: int) -> nat {
    le32(b, at) + 0x1_0000_0000 * le32(b, at + 4)
}

/// The value of a signed 64-bit length; a negative one counts as nothing.
pub open spec fn length_of(bits: nat) -> nat {
    if bits < 0x8000_0000_0000_0000 {
        bits
    } else {
        0
    }
}

/// A signed 32-bit number widened to 64 bits, with the bits that it then has.
pub open spec fn widened(bits: nat) -> nat {
    if bits < 0x8000_0000 {
        bits
    } else {
        bits + 0xffff_ffff_0000_0000
    }
}

/// The reply holds every attribute that its layout rests on.
pub open spec fn reply_complete(b: Seq<u8>) -> bool {
    &&& (le32(b, 4) as u32) & NEEDED_COMMON == NEEDED_COMMON
    &&& (le32(b, 16) as u32) & NEEDED_FILE == NEEDED_FILE
}

fn read_le32(b: &Vec<u8>, at: usize) -> (r: u32)
    requires
        at + 4 <= b.len(),
    ensures
        r == le32(b@, at as int),
{
    b[at] as u32 + 0x100 * b[at + 1] as u32 + 0x1_0000 * b[at + 2] as u32 + 0x100_0000
        * b[at + 3] as u32
}

fn read_le64(b: &Vec<u8>, at: usize) -> (r: u64)
    requires
        at + 8 <= b.len(),
    ensures
        r == le64(b@, at as int),
{
    read_le32(b, at) as u64 + 0x1_0000_0000 * read_le32(b, at + 4) as u64
}

fn length_from(bits: u64) -> (r: u64)
    ensures
        r == length_of(bits as nat),
{
    if bits < 0x8000_0000_0000_0000 {
        bits
    } else {
        0
    }
}

fn widen(bits: u32) -> (r: u64)
    ensures
        r == widened(bits as nat),
{
    if bits < 0x8000_0000 {
        bits as u64
    } else {
        bits as u64 + 0xffff_ffff_0000_0000
    }
}

/// What a reply of `getattrlist(2)` says of an entry. Nothing where the call
/// failed, as it does on some network volumes, or the reply is incomplete: the
/// entry has to be asked after with `lstat(2)`.
pub fn stat_from_attrs(rc: i32, reply: &Vec<u8>) -> (r: Option<FileStat>)
    requires
        reply.len() == ATTR_REPLY_LEN,
    ensures
        r is Some <==> rc == 0 && reply_complete(reply@),
        r matches Some(st) ==> {
            &&& st.wf()
            &&& st.apparent_size == length_of(le64(reply@, 44))
            &&& st.disk_usage == length_of(le64(reply@, 52))
            &&& st.rsrc_size == length_of(le64(reply@, 60))
            &&& st.inode.dev == widened(le32(reply@, 24))
            &&& st.inode.ino == le64(reply@, 32)
            &&& st.is_dir == (le32(reply@, 28) == VDIR)
            &&& st.is_symlink == (le32(reply@, 28) == VLNK)
            &&& st.is_regular == (le32(reply@, 28) == VREG)
            &&& st.nlink == le32(reply@, 40)
        },
{
    if rc != 0 {
        return None;
    }
    let common = read_le32(reply, 4);
    let file = read_le32(reply, 16);
    if common & NEEDED_COMMON != NEEDED_COMMON || file & NEEDED_FILE != NEEDED_FILE {
        return None;
    }
    let kind = read_le32(reply, 28);
    Some(
        FileStat {
            apparent_size: length_from(read_le64(reply, 44)),
            disk_usage: length_from(read_le64(reply, 52)),
            rsrc_size: length_from(read_le64(reply, 60)),
            inode: InodeKey { dev: widen(read_le32(reply, 24)), ino: read_le64(reply, 32) },
            is_dir: kind == VDIR,
            is_symlink: kind == VLNK,
            is_regular: kind == VREG,
            nlink: read_le32(reply, 40) as u64,
        },
    )
}

/// The inodes that a walk has noted.
#[derive(Debug)]
pub struct InodeSet {
    keys: HashSet<u128>,
}

/// An inode as one number.
spec fn key_code(key: InodeKey) -> u128 {
    (key.dev * 0x1_0000_0000_0000_0000 + key.ino) as u128
}

fn code_of(key: InodeKey) -> (r: u128)
    ensures
        r == key_code(key),
{
    key.dev as u128 * 0x1_0000_0000_0000_0000 + key.ino as u128
}

impl View for InodeSet {
    type V = Set<InodeKey>;

    closed spec fn view(&self) -> Set<InodeKey> {
        Set::new(|key: InodeKey| self.keys@.contains(key_code(key)))
    }
}

impl InodeSet {
    pub fn new() -> (r: InodeSet)
        ensures
            r@ == Set::<InodeKey>::empty(),
    {
        let r = InodeSet { keys: HashSet::new() };
        assert(r@ =~= Set::<InodeKey>::empty());
        r
    }

    /// Puts `key` into the set; whether it was new.
    pub fn insert(&mut self, key: InodeKey) -> (r: bool)
        ensures
            r == !old(self)@.contains(key),
            final(self)@ == old(self)@.insert(key),
    {
        let code = code_of(key);
        let r = self.keys.insert(code);
        assert(self@ =~= old(self)@.insert(key));
        r
    }

    pub fn contains(&self, key: InodeKey) -> (r: bool)
        ensures
            r == self@.contains(key),
    {
        self.keys.contains(&code_of(key))
    }
}

/// The kind of an entry is the number in the four bits of its mode above the
/// lowest twelve: 4 for a directory, 10 for a symbolic link, 8 for a regular file.
pub proof fn law_mode_tells_the_kind(mode: u32)
    ensures
        mode & S_IFMT == S_IFDIR <==> (mode / 0x1000) % 16 == 4,
        mode & S_IFMT == S_IFLNK <==> (mode / 0x1000) % 16 == 10,
        mode & S_IFMT == S_IFREG <==> (mode / 0x1000) % 16 == 8,
{
    assert(mode & 0xf000 == 0x4000 <==> (mode / 0x1000) % 16 == 4) by (bit_vector);
    assert(mode & 0xf000 == 0xa000 <==> (mode / 0x1000) % 16 == 10) by (bit_vector);
    assert(mode & 0xf000 == 0x8000 <==> (mode / 0x1000) % 16 == 8) by (bit_vector);
}

/// Blocks are counted in full as long as their bytes fit in 64 bits, and as the
/// largest number otherwise.
pub proof fn law_blocks_are_counted_in_full(blocks: i64)
    ensures
        0 <= blocks && blocks * 512 <= u64::MAX ==> saturated64(unsigned64(blocks) * 512) == blocks
            * 512,
        0 <= blocks && blocks * 512 > u64::MAX ==> saturated64(unsigned64(blocks) * 512)
            == u64::MAX,
        blocks < 0 ==> saturated64(unsigned64(blocks) * 512) == u64::MAX,
{
}

/// A signed number keeps its bits: a negative one is as far below two to the 64th
/// power as it is below zero.
pub proof fn law_signed_number_keeps_its_bits(n: i64, bits: u32)
    ensures
        n >= 0 ==> unsigned64(n) == n,
        n < 0 ==> 0x1_0000_0000_0000_0000 - unsigned64(n) == -n,
        bits < 0x8000_0000 ==> widened(bits as nat) == bits,
        bits >= 0x8000_0000 ==> 0x1_0000_0000_0000_0000 - widened(bits as nat) == 0x1_0000_0000
            - bits,
{
}

/// A length is read as a signed number, and a negative one counts as nothing.
pub proof fn law_negative_length_counts_as_nothing(bits: u64)
    ensures
        bits < 0x8000_0000_0000_0000 ==> length_of(bits as nat) == bits,
        bits >= 0x8000_0000_0000_0000 ==> length_of(bits as nat) == 0,
{
}

/// A number in a reply grows with each of its bytes, and each byte weighs 256
/// times as much as the one before it; no other byte matters.
pub proof fn law_bytes_weigh_by_their_place(b: Seq<u8>, at: int, i: int, x: u8)
    requires
        0 <= at,
        at + 8 <= b.len(),
        0 <= i < b.len(),
    ensures
        le32(b.update(i, x), at) - le32(b, at) == (x - b[i]) * if i == at {
            1
        } else if i == at + 1 {
            0x100
        } else if i == at + 2 {
            0x1_0000
        } else if i == at + 3 {
            0x100_0000
        } else {
            0int
        },
        le64(b.update(i, x), at) - le64(b, at) == (x - b[i]) * if i == at {
            1
        } else if i == at + 1 {
            0x100
        } else if i == at + 2 {
            0x1_0000
        } else if i == at + 3 {
            0x100_0000
        } else if i == at + 4 {
            0x1_0000_0000
        } else if i == at + 5 {
            0x100_0000_0000
        } else if i == at + 6 {
            0x1_0000_0000_0000
        } else if i == at + 7 {
            0x100_0000_0000_0000
        } else {
            0int
        },
        (forall|k: int| at <= k < at + 8 ==> #[trigger] b[k] == 0) ==> le64(b, at) == 0 && le32(
            b,
            at,
        ) == 0,
{
    let c = b.update(i, x);
    if forall|k: int| at <= k < at + 8 ==> #[trigger] b[k] == 0 {
        assert(b[at] == 0 && b[at + 1] == 0 && b[at + 2] == 0 && b[at + 3] == 0);
        assert(b[at + 4] == 0 && b[at + 5] == 0 && b[at + 6] == 0 && b[at + 7] == 0);
    }
}

/// A reply is complete where it says that it holds the device, the kind, the
/// inode, the number of links, and both sizes of the data; whether it holds the
/// resource fork does not matter.
pub proof fn law_complete_reply_holds_what_is_needed(b: Seq<u8>)
    requires
        b.len() == ATTR_REPLY_LEN,
    ensures
        reply_complete(b) <==> {
            &&& (le32(b, 4) / 0x2) % 2 == 1
            &&& (le32(b, 4) / 0x8) % 2 == 1
            &&& (le32(b, 4) / 0x200_0000) % 2 == 1
            &&& le32(b, 16) % 2 == 1
            &&& (le32(b, 16) / 0x200) % 2 == 1
            &&& (le32(b, 16) / 0x400) % 2 == 1
        },
{
    let common = le32(b, 4) as u32;
    let file = le32(b, 16) as u32;
    assert(NEEDED_COMMON == 0x200_000a) by (bit_vector);
    assert(NEEDED_FILE == 0x601) by (bit_vector);
    assert(common & 0x200_000a == 0x200_000a <==> (common / 0x2) % 2 == 1 && (common / 0x8) % 2
        == 1 && (common / 0x200_0000) % 2 == 1) by (bit_vector);
    assert(file & 0x601 == 0x601 <==> file % 2 == 1 && (file / 0x200) % 2 == 1 && (file / 0x400)
        % 2 == 1) by (bit_vector);
}

/// All that a reply needs is asked for, and the resource fork as well.
pub proof fn law_what_is_needed_is_asked_for()
    ensures
        ASKED_COMMON & NEEDED_COMMON == NEEDED_COMMON,
        ASKED_FILE & NEEDED_FILE == NEEDED_FILE,
        (ASKED_COMMON / 0x8000_0000) % 2 == 1,
        (ASKED_FILE / 0x1000) % 2 == 1,
{
    assert(ASKED_COMMON & NEEDED_COMMON == NEEDED_COMMON) by (bit_vector);
    assert(ASKED_FILE & NEEDED_FILE == NEEDED_FILE) by (bit_vector);
    assert((ASKED_COMMON / 0x8000_0000) % 2 == 1) by (bit_vector);
    assert((ASKED_FILE / 0x1000) % 2 == 1) by (bit_vector);
}

} // verus!
