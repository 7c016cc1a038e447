//! Flattened device trees: the header, the strings block and the memory
//! reservation block, read from the bytes of the tree.
use vstd::prelude::*;
use vstd::utf8::valid_utf8;
use vstd::string::StringSliceAdditionalSpecFns;
use crate::byteorder::{be16, be32, be64, slice_from, BigEndianU32, BigEndianU64};

verus! {

broadcast use {BigEndianU32::lemma_value_range, BigEndianU64::lemma_value_range};

/// The magic number that starts a device tree.
pub const FDT_MAGIC: u32 = 0xd00d_feed;

/// The size of the header.
pub const HEADER_SIZE: usize = 40;

/// The size of an entry of the memory reservation block.
pub const RESERVATION_SIZE: usize = 16;

/// The big-endian number of the four bytes at `at`.
pub open spec fn be32_at(s: Seq<u8>, at: int) -> int {
    be32(s[at], s[at + 1], s[at + 2], s[at + 3])
}

/// The big-endian number of the eight bytes at `at`.
pub open spec fn be64_at(s: Seq<u8>, at: int) -> int {
    be32_at(s, at) * 0x1_0000_0000 + be32_at(s, at + 4)
}

/// The index of the first zero byte of `s`, or its length when it has none.
pub open spec fn first_zero(s: Seq<u8>) -> nat
    decreases s.len(),
{
    if s.len() == 0 {
        0
    } else if s[0] == 0 {
        0
    } else {
        1 + first_zero(s.drop_first())
    }
}

/// Reading the big-endian number at `at` of `s` is reading it at the start
/// of what follows `at`.
proof fn lemma_be_suffix(s: Seq<u8>, at: int)
    requires
        0 <= at,
        at + 8 <= s.len(),
    ensures
        be32_at(s.subrange(at, s.len() as int), 0) == be32_at(s, at),
        be64(s.subrange(at, s.len() as int)) == be64_at(s, at),
{
    let t = s.subrange(at, s.len() as int);
    assert(t[0] == s[at] && t[1] == s[at + 1] && t[2] == s[at + 2] && t[3] == s[at + 3]);
    assert(t[4] == s[at + 4] && t[5] == s[at + 5] && t[6] == s[at + 6] && t[7] == s[at + 7]);
}

/// The first zero byte of `s` lies before its length exactly when `s` holds
/// one, and no byte before it is zero.
proof fn lemma_first_zero(s: Seq<u8>)
    ensures
        first_zero(s) <= s.len(),
        first_zero(s) < s.len() <==> exists|i: int| 0 <= i < s.len() && s[i] == 0,
        first_zero(s) < s.len() ==> s[first_zero(s) as int] == 0,
        forall|i: int| 0 <= i < first_zero(s) ==> s[i] != 0,
    decreases s.len(),
{
    if s.len() > 0 && s[0] != 0 {
        let t = s.drop_first();
        lemma_first_zero(t);
        if exists|i: int| 0 <= i < s.len() && s[i] == 0 {
            let i = choose|i: int| 0 <= i < s.len() && s[i] == 0;
            assert(t[i - 1] == 0);
        }
        if first_zero(t) < t.len() {
            assert(s[first_zero(s) as int] == t[first_zero(t) as int]);
        }
        assert forall|i: int| 0 <= i < first_zero(s) implies s[i] != 0 by {
            if i > 0 {
                assert(s[i] == t[i - 1]);
            }
        }
    }
}

/// Why a device tree could not be read.
#[derive(Debug, Clone, Copy, PartialEq, Eq, Structural)]
pub enum FdtError {
    BadMagic,
    BadPtr,
    BufferTooSmall,
}

impl FdtError {
    /// The message `Display` shows for the error.
    pub fn to_string(&self) -> (r: String)
        ensures
            r@ == match self {
                FdtError::BadMagic => "bad FDT magic value"@,
                FdtError::BadPtr => "an invalid pointer was passed"@,
                FdtError::BufferTooSmall => "the given buffer was too small to contain a FDT header"@,
            },
    {
        match self {
            FdtError::BadMagic => "bad FDT magic value".to_owned(),
            FdtError::BadPtr => "an invalid pointer was passed".to_owned(),
            FdtError::BufferTooSmall => "the given buffer was too small to contain a FDT header".to_owned(),
        }
    }
}

/// The header of a device tree: ten big-endian words.
#[derive(Debug, Clone, Copy)]
pub struct FdtHeader {
    /// The magic number.
    pub magic: BigEndianU32,
    /// Total size in bytes of the tree.
    pub totalsize: BigEndianU32,
    /// Offset in bytes of the structure block.
    pub off_dt_struct: BigEndianU32,
    /// Offset in bytes of the strings block.
    pub off_dt_strings: BigEndianU32,
    /// Offset in bytes of the memory reservation block.
    pub off_mem_rsvmap: BigEndianU32,
    /// The tree's version.
    pub version: BigEndianU32,
    /// The oldest version the tree is compatible with.
    pub last_comp_version: BigEndianU32,
    /// The id of the boot CPU.
    pub boot_cpuid_phys: BigEndianU32,
    /// Length in bytes of the strings block.
    pub size_dt_strings: BigEndianU32,
    /// Length in bytes of the structure block.
    pub size_dt_struct: BigEndianU32,
}

impl FdtHeader {
    /// Whether the header's words are those at the start of `s`.
    pub open spec fn read_from(self, s: Seq<u8>) -> bool {
        &&& self.magic.value() == be32_at(s, 0)
        &&& self.totalsize.value() == be32_at(s, 4)
        &&& self.off_dt_struct.value() == be32_at(s, 8)
        &&& self.off_dt_strings.value() == be32_at(s, 12)
        &&& self.off_mem_rsvmap.value() == be32_at(s, 16)
        &&& self.version.value() == be32_at(s, 20)
        &&& self.last_comp_version.value() == be32_at(s, 24)
        &&& self.boot_cpuid_phys.value() == be32_at(s, 28)
        &&& self.size_dt_strings.value() == be32_at(s, 32)
        &&& self.size_dt_struct.value() == be32_at(s, 36)
    }

    /// Reads the word at `at`, which lies within `data`.
    fn word_at(data: &[u8], at: usize) -> (r: BigEndianU32)
        requires
            at + 4 <= data@.len(),
        ensures
            r.value() == be32_at(data@, at as int),
    {
        let rest = slice_from(data, at);
        let w = BigEndianU32::from_bytes(rest);
        proof {
            let t = data@.subrange(at as int, data@.len() as int);
            assert(t[0] == data@[at as int] && t[1] == data@[at + 1] && t[2] == data@[at + 2] && t[3]
                == data@[at + 3]);
        }
        match w {
            Some(w) => w,
            None => {
                proof {
                    assert(false);
                }
                BigEndianU32::from_bytes(data).unwrap()
            },
        }
    }

    /// The header at the start of `data`, or `None` when `data` is shorter
    /// than a header.
    pub fn from_bytes(data: &[u8]) -> (r: Option<Self>)
        ensures
            r.is_some() == (data@.len() >= 40),
            r.is_some() ==> r.unwrap().read_from(data@),
    {
        if data.len() < HEADER_SIZE {
            return None;
        }
        Some(FdtHeader {
            magic: Self::word_at(data, 0),
            totalsize: Self::word_at(data, 4),
            off_dt_struct: Self::word_at(data, 8),
            off_dt_strings: Self::word_at(data, 12),
            off_mem_rsvmap: Self::word_at(data, 16),
            version: Self::word_at(data, 20),
            last_comp_version: Self::word_at(data, 24),
            boot_cpuid_phys: Self::word_at(data, 28),
            size_dt_strings: Self::word_at(data, 32),
            size_dt_struct: Self::word_at(data, 36),
        })
    }

    /// Whether the magic number is right.
    pub fn valid_magic(&self) -> (r: bool)
        ensures
            r == (self.magic.value() == FDT_MAGIC),
    {
        self.magic.get() == FDT_MAGIC
    }

    /// Whether the magic number is right.
    pub fn validate_magic(&self) -> (r: bool)
        ensures
            r == (self.magic.value() == FDT_MAGIC),
    {
        self.valid_magic()
    }

    /// The byte range of the structure block.
    pub fn struct_range(&self) -> (r: core::ops::Range<usize>)
        requires
            self.off_dt_struct.value() + self.size_dt_struct.value() <= usize::MAX,
        ensures
            r.start == self.off_dt_struct.value(),
            r.end == self.off_dt_struct.value() + self.size_dt_struct.value(),
    {
        let start = self.off_dt_struct.get() as usize;
        let end = start + self.size_dt_struct.get() as usize;
        start..end
    }

    /// The byte range of the strings block.
    pub fn strings_range(&self) -> (r: core::ops::Range<usize>)
        requires
            self.off_dt_strings.value() + self.size_dt_strings.value() <= usize::MAX,
        ensures
            r.start == self.off_dt_strings.value(),
            r.end == self.off_dt_strings.value() + self.size_dt_strings.value(),
    {
        let start = self.off_dt_strings.get() as usize;
        let end = start + self.size_dt_strings.get() as usize;
        start..end
    }
}

/// The string slice of `bytes`, when they are valid UTF-8.
///
/// Calls `core::str::from_utf8`, which the standard library documents as
/// failing exactly when the bytes are not valid UTF-8 and as otherwise
/// giving a string slice of those bytes; the contract claims that, with
/// validity as `vstd::utf8::valid_utf8` defines it.
#[verifier::external_body]
fn str_from_utf8(bytes: &[u8]) -> (r: Option<&str>)
    ensures
        r.is_some() == valid_utf8(bytes@),
        r.is_some() ==> r.unwrap().spec_bytes() == bytes@,
{
    core::str::from_utf8(bytes).ok()
}

/// The string slice of `bytes`, when they are valid UTF-8.
pub fn utf8_str(bytes: &[u8]) -> (r: Option<&str>)
    ensures
        r.is_some() == valid_utf8(bytes@),
        r.is_some() ==> r.unwrap().spec_bytes() == bytes@,
{
    str_from_utf8(bytes)
}

/// A string that ends before the first zero byte.
pub struct CStr<'a>(&'a [u8]);

impl<'a> CStr<'a> {
    /// The bytes of the string, without the zero byte.
    pub closed spec fn bytes(&self) -> Seq<u8> {
        self.0@
    }

    /// The string at the start of `data`, which holds a zero byte.
    pub fn new(data: &'a [u8]) -> (r: Self)
        requires
            exists|i: int| 0 <= i < data@.len() && data@[i] == 0,
        ensures
            r.bytes() == data@.subrange(0, first_zero(data@) as int),
    {
        proof {
            lemma_first_zero(data@);
        }
        let mut end: usize = 0;
        while data[end] != 0
            invariant
                end <= first_zero(data@),
                first_zero(data@) < data@.len(),
                data@[first_zero(data@) as int] == 0,
                forall|i: int| 0 <= i < first_zero(data@) ==> data@[i] != 0,
            decreases first_zero(data@) - end,
        {
            end = end + 1;
        }
        CStr(vstd::slice::slice_subrange(data, 0, end))
    }

    /// The length of the string, without the zero byte.
    pub fn len(&self) -> (r: usize)
        ensures
            r == self.bytes().len(),
    {
        self.0.len()
    }

    /// The string, when its bytes are valid UTF-8.
    pub fn as_str(&self) -> (r: Option<&'a str>)
        ensures
            r.is_some() == valid_utf8(self.bytes()),
            r.is_some() ==> r.unwrap().spec_bytes() == self.bytes(),
    {
        str_from_utf8(self.0)
    }
}

/// An entry of the memory reservation block: a span of memory that the
/// kernel must not use.
#[derive(Debug, Clone, Copy)]
pub struct MemoryReservation {
    pub address: BigEndianU64,
    pub size: BigEndianU64,
}

impl MemoryReservation {
    /// The start of the span.
    pub fn address(&self) -> (r: u64)
        ensures
            r == self.address.value(),
    {
        self.address.get()
    }

    /// The length of the span.
    pub fn size(&self) -> (r: u64)
        ensures
            r == self.size.value(),
    {
        self.size.get()
    }
}

/// The byte strings of a strings block: each up to the next zero byte, the
/// last up to the end when no zero byte follows it.
pub open spec fn cstrs(s: Seq<u8>) -> Seq<Seq<u8>>
    decreases s.len(),
{
    if s.len() == 0 {
        Seq::empty()
    } else {
        let n = first_zero(s);
        if n >= s.len() {
            seq![s]
        } else {
            seq![s.subrange(0, n as int)] + cstrs(s.subrange((n + 1) as int, s.len() as int))
        }
    }
}

/// The strings of `strs` up to the first that is not valid UTF-8.
pub open spec fn valid_prefix(strs: Seq<Seq<u8>>) -> Seq<Seq<u8>>
    decreases strs.len(),
{
    if strs.len() == 0 || !valid_utf8(strs[0]) {
        Seq::empty()
    } else {
        seq![strs[0]] + valid_prefix(strs.drop_first())
    }
}

/// Whether every non-empty rest of a strings block holds a zero byte: the
/// block is empty or ends with one.
pub open spec fn terminated(s: Seq<u8>) -> bool {
    s.len() == 0 || s[s.len() - 1] == 0
}

/// The entries of the memory reservation block from `at` on: each 16 bytes
/// read as an address and a size, until an entry of two zeros or fewer than
/// 16 bytes remain.
pub open spec fn reservations_from(s: Seq<u8>, at: int) -> Seq<(int, int)>
    decreases s.len() - at,
{
    if at < 0 || at + 16 > s.len() {
        Seq::empty()
    } else if be64_at(s, at) == 0 && be64_at(s, at + 8) == 0 {
        Seq::empty()
    } else {
        seq![(be64_at(s, at), be64_at(s, at + 8))] + reservations_from(s, at + 16)
    }
}

/// The strings of `data`, each up to the next zero byte, in order, up to
/// the first that is not valid UTF-8; `data` is empty or ends with a zero
/// byte.
pub fn split_strings<'b>(data: &'b [u8]) -> (r: Vec<&'b str>)
    requires
        terminated(data@),
    ensures
        ({
            let want = valid_prefix(cstrs(data@));
            &&& r@.len() == want.len()
            &&& forall|i: int| 0 <= i < r@.len() ==> (#[trigger] r@[i]).spec_bytes() == want[i]
        }),
{
    let mut block = data;
        let ghost all = block@;
        let mut r: Vec<&'b str> = Vec::new();
        loop
            invariant_except_break
                terminated(block@),
                valid_prefix(cstrs(all)) == r@.map_values(|x: &str| x.spec_bytes()) + valid_prefix(
                    cstrs(block@),
                ),
            ensures
                valid_prefix(cstrs(all)) == r@.map_values(|x: &str| x.spec_bytes()),
            decreases block@.len(),
        {
            if block.len() == 0 {
                proof {
                    assert(valid_prefix(cstrs(block@)) =~= Seq::<Seq<u8>>::empty());
                    assert(r@.map_values(|x: &str| x.spec_bytes()) + Seq::<Seq<u8>>::empty() =~= r@.map_values(
                        |x: &str| x.spec_bytes(),
                    ));
                }
                break;
            }
            proof {
                lemma_first_zero(block@);
                assert(block@[block@.len() - 1] == 0);
            }
            let cstr = CStr::new(block);
            let n = cstr.len();
            let ghost old_block = block@;
            block = slice_from(block, n + 1);
            proof {
                let head = old_block.subrange(0, n as int);
                assert(cstrs(old_block) == seq![head] + cstrs(block@));
                assert((seq![head] + cstrs(block@)).drop_first() =~= cstrs(block@));
                if block@.len() > 0 {
                    assert(block@[block@.len() - 1] == old_block[old_block.len() - 1]);
                }
            }
            match cstr.as_str() {
                Some(s) => {
                    let ghost before = r@;
                    r.push(s);
                    proof {
                        assert(r@.map_values(|x: &str| x.spec_bytes()) =~= before.map_values(
                            |x: &str| x.spec_bytes(),
                        ).push(s.spec_bytes()));
                    }
                },
                None => {
                    proof {
                        assert(valid_prefix(cstrs(old_block)) =~= Seq::<Seq<u8>>::empty());
                        assert(r@.map_values(|x: &str| x.spec_bytes()) + Seq::<Seq<u8>>::empty() =~= r@.map_values(
                            |x: &str| x.spec_bytes(),
                        ));
                    }
                    break;
                },
            }
        }
    r
}

/// A device tree: its bytes and its header.
#[derive(Debug, Clone, Copy)]
pub struct Fdt<'a> {
    data: &'a [u8],
    header: FdtHeader,
}

impl<'a> Fdt<'a> {
    /// The bytes of the tree.
    pub closed spec fn bytes(&self) -> Seq<u8> {
        self.data@
    }

    /// The tree's header.
    pub closed spec fn fdt_header(&self) -> FdtHeader {
        self.header
    }

    /// The tree in `data`: too small when `data` cannot hold a header, bad
    /// when the magic number is wrong.
    pub fn new(data: &'a [u8]) -> (r: Result<Self, FdtError>)
        ensures
            data@.len() < 40 ==> r == Err::<Self, FdtError>(FdtError::BufferTooSmall),
            data@.len() >= 40 && be32_at(data@, 0) != FDT_MAGIC ==> r == Err::<Self, FdtError>(
                FdtError::BadMagic,
            ),
            data@.len() >= 40 && be32_at(data@, 0) == FDT_MAGIC ==> r.is_ok() && r.unwrap().bytes()
                == data@ && r.unwrap().fdt_header().read_from(data@),
    {
        let header = match FdtHeader::from_bytes(data) {
            Some(h) => h,
            None => return Err(FdtError::BufferTooSmall),
        };
        if !header.valid_magic() {
            return Err(FdtError::BadMagic);
        }
        Ok(Fdt { data, header })
    }

    /// The total size of the tree, as its header gives it.
    pub fn total_size(&self) -> (r: usize)
        ensures
            r == self.fdt_header().totalsize.value(),
    {
        self.header.totalsize.get() as usize
    }

    /// The strings block.
    pub fn strings_block(&self) -> (r: &'a [u8])
        requires
            self.fdt_header().off_dt_strings.value() + self.fdt_header().size_dt_strings.value()
                <= self.bytes().len(),
        ensures
            r@ == self.bytes().subrange(
                self.fdt_header().off_dt_strings.value() as int,
                self.fdt_header().off_dt_strings.value() + self.fdt_header().size_dt_strings.value(),
            ),
    {
        let _n = self.data.len();
        let range = self.header.strings_range();
        vstd::slice::slice_subrange(self.data, range.start, range.end)
    }

    /// The structure block.
    pub fn structs_block(&self) -> (r: &'a [u8])
        requires
            self.fdt_header().off_dt_struct.value() + self.fdt_header().size_dt_struct.value()
                <= self.bytes().len(),
        ensures
            r@ == self.bytes().subrange(
                self.fdt_header().off_dt_struct.value() as int,
                self.fdt_header().off_dt_struct.value() + self.fdt_header().size_dt_struct.value(),
            ),
    {
        let _n = self.data.len();
        let range = self.header.struct_range();
        vstd::slice::slice_subrange(self.data, range.start, range.end)
    }

    /// The strings of the strings block, in order, up to the first that is
    /// not valid UTF-8.
    pub fn strings(&self) -> (r: Vec<&'a str>)
        requires
            self.fdt_header().off_dt_strings.value() + self.fdt_header().size_dt_strings.value()
                <= self.bytes().len(),
            terminated(
                self.bytes().subrange(
                    self.fdt_header().off_dt_strings.value() as int,
                    self.fdt_header().off_dt_strings.value()
                        + self.fdt_header().size_dt_strings.value(),
                ),
            ),
        ensures
            ({
                let want = valid_prefix(
                    cstrs(
                        self.bytes().subrange(
                            self.fdt_header().off_dt_strings.value() as int,
                            self.fdt_header().off_dt_strings.value()
                                + self.fdt_header().size_dt_strings.value(),
                        ),
                    ),
                );
                &&& r@.len() == want.len()
                &&& forall|i: int| 0 <= i < r@.len() ==> (#[trigger] r@[i]).spec_bytes() == want[i]
            }),
    {
        split_strings(self.strings_block())
    }

    /// The entries of the memory reservation block, up to the entry of two
    /// zeros or the end of the tree.
    pub fn memory_reservations(&self) -> (r: Vec<MemoryReservation>)
        requires
            self.fdt_header().off_mem_rsvmap.value() <= self.bytes().len(),
        ensures
            ({
                let want = reservations_from(self.bytes(), self.fdt_header().off_mem_rsvmap.value() as int);
                &&& r@.len() == want.len()
                &&& forall|i: int|
                    0 <= i < r@.len() ==> (#[trigger] r@[i]).address.value() == want[i].0
                        && r@[i].size.value() == want[i].1
            }),
    {
        let n = self.data.len();
        let mut at = self.header.off_mem_rsvmap.get() as usize;
        let ghost start = at as int;
        let mut r: Vec<MemoryReservation> = Vec::new();
        while n - at >= RESERVATION_SIZE
            invariant_except_break
                n == self.bytes().len(),
                start <= at <= n,
                reservations_from(self.bytes(), start) =~= r@.map_values(
                    |m: MemoryReservation| (m.address.value(), m.size.value()),
                ) + reservations_from(self.bytes(), at as int),
            ensures
                reservations_from(self.bytes(), start) =~= r@.map_values(
                    |m: MemoryReservation| (m.address.value(), m.size.value()),
                ),
            decreases n - at,
        {
            let rest = slice_from(self.data, at);
            let address = BigEndianU64::from_bytes(rest);
            let rest8 = slice_from(self.data, at + 8);
            let size = BigEndianU64::from_bytes(rest8);
            proof {
                lemma_be_suffix(self.bytes(), at as int);
                lemma_be_suffix(self.bytes(), at + 8);
            }
            if address.is_none() || size.is_none() {
                proof {
                    assert(false);
                }
                break;
            }
            let address = address.unwrap();
            let size = size.unwrap();
            if address.get() == 0 && size.get() == 0 {
                proof {
                    assert(reservations_from(self.bytes(), at as int) =~= Seq::<(int, int)>::empty());
                }
                break;
            }
            let ghost before = r@;
            r.push(MemoryReservation { address, size });
            proof {
                assert(r@.map_values(|m: MemoryReservation| (m.address.value(), m.size.value()))
                    =~= before.map_values(|m: MemoryReservation| (m.address.value(), m.size.value())).push(
                    (address.value(), size.value()),
                ));
            }
            at = at + RESERVATION_SIZE;
        }
        r
    }
}

/// The token that begins a node.
pub const FDT_BEGIN_NODE: u32 = 1;
/// The token that ends a node.
pub const FDT_END_NODE: u32 = 2;
/// The token that begins a property.
pub const FDT_PROP: u32 = 3;
/// The token that does nothing.
pub const FDT_NOP: u32 = 4;
/// The token that ends the structure block.
pub const FDT_END: u32 = 5;

/// `x` rounded up to a multiple of 4.
pub open spec fn align4(x: int) -> int {
    (x + 3) / 4 * 4
}

/// How much of `s` lies at or after `p`.
pub open spec fn left(s: Seq<u8>, p: int) -> nat {
    if p <= s.len() {
        (s.len() - p) as nat
    } else {
        0
    }
}

/// The index of the first byte `c` in `s`, or its length when it has none.
pub open spec fn first_of(s: Seq<u8>, c: u8) -> nat
    decreases s.len(),
{
    if s.len() == 0 {
        0
    } else if s[0] == c {
        0
    } else {
        1 + first_of(s.drop_first(), c)
    }
}

/// The part of `s` before the first byte `c`.
pub open spec fn before(s: Seq<u8>, c: u8) -> Seq<u8> {
    s.subrange(0, first_of(s, c) as int)
}

/// The part of `s` after the first byte `c`, if it holds one.
pub open spec fn after(s: Seq<u8>, c: u8) -> Option<Seq<u8>> {
    if first_of(s, c) < s.len() {
        Some(s.subrange((first_of(s, c) + 1) as int, s.len() as int))
    } else {
        None
    }
}

/// Where a search of the structure block ends: at a node's contents, at
/// nothing, or at a read outside the block.
pub ghost enum Search {
    At(int),
    Missing,
    Fault,
}

/// The search for `path` from the node that begins at `p` of the structure
/// block `s`: the node's name up to any `@` must be the path up to its first
/// `/`; with no `/` left, or nothing after it, the search ends at the
/// node's contents, after its name padded to 4 bytes; else it goes on among
/// the node's contents with what follows the `/`.
pub open spec fn find_at(s: Seq<u8>, p: int, path: Seq<u8>) -> Search
    decreases left(s, p), 1int,
{
    if p < 0 || p + 4 > s.len() {
        Search::Fault
    } else if be32_at(s, p) != 1 {
        Search::Missing
    } else {
        let tail = s.subrange(p + 4, s.len() as int);
        let n = first_zero(tail);
        if n >= tail.len() {
            Search::Fault
        } else {
            let name = tail.subrange(0, n as int);
            let q = align4(p + 4 + n + 1);
            if !valid_utf8(name) {
                Search::Missing
            } else if before(name, 0x40) != before(path, 0x2F) {
                Search::Missing
            } else {
                match after(path, 0x2F) {
                    None => Search::At(q),
                    Some(rest) => if rest.len() == 0 {
                        Search::At(q)
                    } else {
                        scan(s, q, rest)
                    },
                }
            }
        }
    }
}

/// The offset of the first 4-byte step from `q` on whose word is an end of
/// node, if one lies within `s`.
pub open spec fn end_of_node(s: Seq<u8>, q: int) -> Option<int>
    decreases left(s, q),
{
    if q < 0 || q + 4 > s.len() {
        None
    } else if be32_at(s, q) == 2 {
        Some(q)
    } else {
        end_of_node(s, q + 4)
    }
}

/// The end of a node that `end_of_node` finds lies at or after where it
/// looked, within `s`, and holds the end token.
pub proof fn lemma_end_of_node(s: Seq<u8>, q: int)
    ensures
        end_of_node(s, q) matches Some(x) ==> q <= x && x + 4 <= s.len() && be32_at(s, x) == 2 && (x
            - q) % 4 == 0,
    decreases left(s, q),
{
    if 0 <= q && q + 4 <= s.len() && be32_at(s, q) != 2 {
        lemma_end_of_node(s, q + 4);
    }
}

/// The search for `rest` among the contents of a node from `pos` on:
/// properties are stepped over, each child node is searched and on a miss
/// skipped to the next word that ends a node, ends of nodes are stepped
/// over, and the end token or an unknown word ends the search with
/// nothing.
pub open spec fn scan(s: Seq<u8>, pos: int, rest: Seq<u8>) -> Search
    decreases left(s, pos), 2int,
{
    if pos < 0 {
        Search::Fault
    } else if pos >= s.len() {
        Search::Missing
    } else if pos + 4 > s.len() {
        Search::Fault
    } else {
        let w = be32_at(s, pos);
        if w == 3 {
            if pos + 12 > s.len() {
                Search::Fault
            } else {
                scan(s, align4(pos + 12 + be32_at(s, pos + 4)), rest)
            }
        } else if w == 1 {
            match find_at(s, pos, rest) {
                Search::At(x) => Search::At(x),
                Search::Fault => Search::Fault,
                Search::Missing => match end_of_node(s, pos) {
                    None => Search::Fault,
                    Some(q) => {
                        proof {
                            lemma_end_of_node(s, pos);
                        }
                        scan(s, q + 4, rest)
                    },
                },
            }
        } else if w == 2 {
            scan(s, pos + 4, rest)
        } else {
            Search::Missing
        }
    }
}

/// The word at `pos` of `s`.
fn word(s: &[u8], pos: usize) -> (r: u32)
    requires
        pos + 4 <= s@.len(),
    ensures
        r == be32_at(s@, pos as int),
{
    FdtHeader::word_at(s, pos).get()
}

/// The index of the first byte `c` from `from` on in `s`, or its length.
fn position_of(s: &[u8], from: usize, c: u8) -> (r: usize)
    requires
        from <= s@.len(),
    ensures
        r == from + first_of(s@.subrange(from as int, s@.len() as int), c),
        r <= s@.len(),
{
    let mut i = from;
    proof {
        lemma_first_of(s@.subrange(from as int, s@.len() as int), c);
    }
    while i < s.len() && s[i] != c
        invariant
            from <= i <= s@.len(),
            forall|j: int| from <= j < i ==> s@[j] != c,
            first_of(s@.subrange(from as int, s@.len() as int), c) <= s@.len() - from,
            forall|j: int|
                0 <= j < first_of(s@.subrange(from as int, s@.len() as int), c) ==> s@.subrange(
                    from as int,
                    s@.len() as int,
                )[j] != c,
            first_of(s@.subrange(from as int, s@.len() as int), c) < s@.len() - from ==> s@[from
                + first_of(s@.subrange(from as int, s@.len() as int), c)] == c,
            i <= from + first_of(s@.subrange(from as int, s@.len() as int), c),
        decreases s@.len() - i,
    {
        proof {
            assert(s@.subrange(from as int, s@.len() as int)[i - from] == s@[i as int]);
        }
        i = i + 1;
    }
    proof {
        if i < s@.len() {
            assert(s@.subrange(from as int, s@.len() as int)[i - from] == s@[i as int]);
        }
    }
    i
}

/// The first byte `c` of `s` lies at `first_of`, and none before it.
proof fn lemma_first_of(s: Seq<u8>, c: u8)
    ensures
        first_of(s, c) <= s.len(),
        first_of(s, c) < s.len() ==> s[first_of(s, c) as int] == c,
        forall|i: int| 0 <= i < first_of(s, c) ==> s[i] != c,
    decreases s.len(),
{
    if s.len() > 0 && s[0] != c {
        let t = s.drop_first();
        lemma_first_of(t, c);
        if first_of(t, c) < t.len() {
            assert(s[first_of(s, c) as int] == t[first_of(t, c) as int]);
        }
        assert forall|i: int| 0 <= i < first_of(s, c) implies s[i] != c by {
            if i > 0 {
                assert(s[i] == t[i - 1]);
            }
        }
    }
}

/// The first zero byte is the first byte that equals zero.
proof fn lemma_first_zero_is_first_of(s: Seq<u8>)
    ensures
        first_zero(s) == first_of(s, 0),
    decreases s.len(),
{
    if s.len() > 0 && s[0] != 0 {
        lemma_first_zero_is_first_of(s.drop_first());
    }
}

/// Whether two byte strings are equal.
pub(crate) fn bytes_equal(a: &[u8], b: &[u8]) -> (r: bool)
    ensures
        r == (a@ == b@),
{
    if a.len() != b.len() {
        return false;
    }
    let mut i: usize = 0;
    while i < a.len()
        invariant
            a@.len() == b@.len(),
            i <= a@.len(),
            forall|j: int| 0 <= j < i ==> a@[j] == b@[j],
        decreases a@.len() - i,
    {
        if a[i] != b[i] {
            return false;
        }
        i = i + 1;
    }
    proof {
        assert(a@ =~= b@);
    }
    true
}

/// Searches for `path` from the node beginning at `p` of the structure
/// block `s`.
fn find_node_at(s: &[u8], p: usize, path: &[u8]) -> (r: Option<usize>)
    requires
        s@.len() + 16 <= usize::MAX,
        !(find_at(s@, p as int, path@) is Fault),
    ensures
        match find_at(s@, p as int, path@) {
            Search::At(x) => r == Some(x as usize) && x == r.unwrap(),
            _ => r.is_none(),
        },
    decreases left(s@, p as int), 1int,
{
    let _n = s.len();
    if word(s, p) != FDT_BEGIN_NODE {
        return None;
    }
    let name_start = p + 4;
    let end = position_of(s, name_start, 0);
    proof {
        let tail = s@.subrange(p + 4, s@.len() as int);
        assert(tail =~= s@.subrange(name_start as int, s@.len() as int));
        lemma_first_zero(tail);
        lemma_first_of(tail, 0);
        lemma_first_zero_is_first_of(tail);
    }
    let name = vstd::slice::slice_subrange(s, name_start, end);
    proof {
        let tail = s@.subrange(p + 4, s@.len() as int);
        assert(name@ =~= tail.subrange(0, first_zero(tail) as int));
    }
    let q = (end + 1 + 3) / 4 * 4;
    if str_from_utf8(name).is_none() {
        return None;
    }
    let name_base_end = position_of(name, 0, 0x40);
    let name_base = vstd::slice::slice_subrange(name, 0, name_base_end);
    let path_slash = position_of(path, 0, 0x2F);
    let looking_for = vstd::slice::slice_subrange(path, 0, path_slash);
    proof {
        assert(name@.subrange(0, name@.len() as int) =~= name@);
        assert(path@.subrange(0, path@.len() as int) =~= path@);
    }
    if !bytes_equal(name_base, looking_for) {
        return None;
    }
    if path_slash >= path.len() {
        return Some(q);
    }
    let rest = slice_from(path, path_slash + 1);
    if rest.len() == 0 {
        return Some(q);
    }
    scan_node(s, q, rest)
}

/// Searches for `rest` among the contents of a node from `pos` on.
fn scan_node(s: &[u8], pos: usize, rest: &[u8]) -> (r: Option<usize>)
    requires
        s@.len() + 16 <= usize::MAX,
        !(scan(s@, pos as int, rest@) is Fault),
    ensures
        match scan(s@, pos as int, rest@) {
            Search::At(x) => r == Some(x as usize) && x == r.unwrap(),
            _ => r.is_none(),
        },
    decreases left(s@, pos as int), 2int,
{
    let n = s.len();
    if pos >= n {
        return None;
    }
    let w = word(s, pos);
    if w == FDT_PROP {
        let len = word(s, pos + 4) as usize;
        if len > n - (pos + 12) {
            proof {
                let v = pos + 12 + be32_at(s@, pos + 4);
                assert((v + 3) / 4 * 4 >= v) by (nonlinear_arith);
                assert(align4(v) >= s@.len());
                assert(scan(s@, align4(v), rest@) == Search::Missing);
            }
            return None;
        }
        let next = (pos + 12 + len + 3) / 4 * 4;
        scan_node(s, next, rest)
    } else if w == FDT_BEGIN_NODE {
        match find_node_at(s, pos, rest) {
            Some(x) => Some(x),
            None => {
                let mut q = pos;
                while word(s, q) != FDT_END_NODE
                    invariant
                        pos <= q,
                        q % 4 == pos % 4,
                        end_of_node(s@, pos as int) == end_of_node(s@, q as int),
                        end_of_node(s@, q as int) is Some,
                        n == s@.len(),
                    decreases n - q,
                {
                    q = q + 4;
                }
                scan_node(s, q + 4, rest)
            },
        }
    } else if w == FDT_END_NODE {
        scan_node(s, pos + 4, rest)
    } else {
        None
    }
}


/// The properties of a node from `pos` of the structure block `s` on: each
/// property token gives its name offset, the offset of its value and the
/// value's length, no-op tokens are stepped over, and any other token ends
/// the list; `None` when a read would leave the block.
pub open spec fn props_from(s: Seq<u8>, pos: int) -> Option<Seq<(int, int, int)>>
    decreases left(s, pos),
{
    if pos < 0 || pos + 4 > s.len() {
        None
    } else {
        let w = be32_at(s, pos);
        if w == 3 {
            if pos + 12 > s.len() || pos + 12 + be32_at(s, pos + 4) > s.len() {
                None
            } else {
                let len = be32_at(s, pos + 4);
                match props_from(s, align4(pos + 12 + len)) {
                    None => None,
                    Some(more) => Some(seq![(be32_at(s, pos + 8), pos + 12, len)] + more),
                }
            }
        } else if w == 4 {
            props_from(s, pos + 4)
        } else {
            Some(Seq::empty())
        }
    }
}

/// The name that starts at `off` of the strings block `sb`: the bytes up to
/// the next zero byte.
pub open spec fn name_at(sb: Seq<u8>, off: int) -> Seq<u8> {
    let tail = sb.subrange(off, sb.len() as int);
    tail.subrange(0, first_zero(tail) as int)
}

/// Whether the name at `off` of `sb` can be read: it lies within the block,
/// ends with a zero byte there, and is valid UTF-8.
pub open spec fn name_ok(sb: Seq<u8>, off: int) -> bool {
    &&& 0 <= off <= sb.len()
    &&& first_zero(sb.subrange(off, sb.len() as int)) < sb.len() - off
    &&& valid_utf8(name_at(sb, off))
}

/// A node found in the structure block: the offset of its contents, after
/// its name.
#[derive(Debug, Clone, Copy, PartialEq, Eq)]
pub struct FdtNode {
    pub offset: usize,
}

/// A property of a node: its name and its value's bytes.
#[derive(Debug, Clone, Copy)]
pub struct NodeProperty<'a> {
    pub name: &'a str,
    pub value: &'a [u8],
}

/// A region of memory as a `reg` property lists it: two big-endian words.
#[derive(Debug, Clone, Copy)]
pub struct MemoryRegion {
    pub starting_address: BigEndianU64,
    pub size: BigEndianU64,
}

impl MemoryRegion {
    /// The start of the region.
    pub fn starting_address(&self) -> (r: u64)
        ensures
            r == self.starting_address.value(),
    {
        self.starting_address.get()
    }

    /// The length of the region.
    pub fn size(&self) -> (r: u64)
        ensures
            r == self.size.value(),
    {
        self.size.get()
    }
}

impl<'a> NodeProperty<'a> {
    /// The region the first 16 bytes of a `reg` property give; `None` for any
    /// other property.
    pub fn reg(&self) -> (r: Option<MemoryRegion>)
        requires
            self.name.spec_bytes() == seq![0x72u8, 0x65u8, 0x67u8] ==> self.value@.len() >= 16,
        ensures
            r.is_some() == (self.name.spec_bytes() == seq![0x72u8, 0x65u8, 0x67u8]),
            r.is_some() ==> r.unwrap().starting_address.value() == be64_at(self.value@, 0)
                && r.unwrap().size.value() == be64_at(self.value@, 8),
    {
        let name = self.name.as_bytes();
        let reg: [u8; 3] = [0x72, 0x65, 0x67];
        if !bytes_equal(name, reg.as_slice()) {
            proof {
                assert(reg@ =~= seq![0x72u8, 0x65u8, 0x67u8]);
            }
            return None;
        }
        proof {
            assert(reg@ =~= seq![0x72u8, 0x65u8, 0x67u8]);
            lemma_be_suffix(self.value@, 0);
            lemma_be_suffix(self.value@, 8);
            assert(self.value@.subrange(0, self.value@.len() as int) =~= self.value@);
        }
        let a = BigEndianU64::from_bytes(self.value);
        let b = BigEndianU64::from_bytes(slice_from(self.value, 8));
        match (a, b) {
            (Some(a), Some(b)) => Some(MemoryRegion { starting_address: a, size: b }),
            _ => {
                proof {
                    assert(false);
                }
                None
            },
        }
    }
}

/// Reads the properties of a node from `pos` of the structure block `s`,
/// naming each from the strings block `sb`.
fn node_properties<'a>(s: &'a [u8], pos: usize, sb: &'a [u8]) -> (r: Vec<NodeProperty<'a>>)
    requires
        s@.len() + 16 <= usize::MAX,
        props_from(s@, pos as int) is Some,
        forall|k: int|
            0 <= k < props_from(s@, pos as int).unwrap().len() ==> name_ok(
                sb@,
                #[trigger] props_from(s@, pos as int).unwrap()[k].0,
            ),
    ensures
        ({
            let want = props_from(s@, pos as int).unwrap();
            &&& r@.len() == want.len()
            &&& forall|k: int|
                0 <= k < r@.len() ==> (#[trigger] r@[k]).name.spec_bytes() == name_at(sb@, want[k].0)
                    && r@[k].value@ == s@.subrange(want[k].1, want[k].1 + want[k].2)
        }),
{
    let n = s.len();
    let mut out: Vec<NodeProperty<'a>> = Vec::new();
    let mut at = pos;
    let ghost all = props_from(s@, pos as int).unwrap();
    loop
        invariant_except_break
            n == s@.len(),
            s@.len() + 16 <= usize::MAX,
            props_from(s@, at as int) is Some,
            all.len() == out@.len() + props_from(s@, at as int).unwrap().len(),
            forall|k: int|
                0 <= k < props_from(s@, at as int).unwrap().len() ==> all[out@.len() + k]
                    == #[trigger] props_from(s@, at as int).unwrap()[k],
            forall|k: int|
                0 <= k < out@.len() ==> (#[trigger] out@[k]).name.spec_bytes() == name_at(sb@, all[k].0)
                    && out@[k].value@ == s@.subrange(all[k].1, all[k].1 + all[k].2),
            forall|k: int| 0 <= k < all.len() ==> name_ok(sb@, #[trigger] all[k].0),
        ensures
            all.len() == out@.len(),
            forall|k: int|
                0 <= k < out@.len() ==> (#[trigger] out@[k]).name.spec_bytes() == name_at(sb@, all[k].0)
                    && out@[k].value@ == s@.subrange(all[k].1, all[k].1 + all[k].2),
        decreases left(s@, at as int),
    {
        let ghost rest = props_from(s@, at as int).unwrap();
        let w = word(s, at);
        if w == FDT_PROP {
            let len = word(s, at + 4) as usize;
            let name_off = word(s, at + 8) as usize;
            let value = vstd::slice::slice_subrange(s, at + 12, at + 12 + len);
            let ghost more = props_from(s@, align4(at + 12 + len)).unwrap();
            proof {
                assert(rest == seq![(be32_at(s@, at + 8), at + 12, len as int)] + more);
                assert(all[out@.len() as int] == rest[0]);
                assert(name_ok(sb@, all[out@.len() as int].0));
            }
            let name = match cstr_name(sb, name_off) {
                Some(name) => name,
                None => {
                    proof {
                        assert(false);
                    }
                    break;
                },
            };
            out.push(NodeProperty { name, value });
            proof {
                assert forall|k: int| 0 <= k < more.len() implies all[out@.len() + k] == #[trigger] more[k] by {
                    assert(rest[k + 1] == more[k]);
                }
            }
            at = (at + 12 + len + 3) / 4 * 4;
        } else if w == FDT_NOP {
            at = at + 4;
        } else {
            break;
        }
    }
    out
}

/// The name at `off` of the strings block `sb`, when it can be read.
fn cstr_name<'a>(sb: &'a [u8], off: usize) -> (r: Option<&'a str>)
    requires
        name_ok(sb@, off as int),
    ensures
        r.is_some(),
        r.unwrap().spec_bytes() == name_at(sb@, off as int),
{
    let tail = slice_from(sb, off);
    proof {
        lemma_first_zero(tail@);
    }
    let c = CStr::new(tail);
    c.as_str()
}

/// Whether the properties of the node whose contents begin at `x` of the
/// structure block `s` can all be read, each with a name in the strings
/// block `sb`.
pub open spec fn readable(s: Seq<u8>, sb: Seq<u8>, x: int) -> bool {
    &&& props_from(s, x) is Some
    &&& forall|k: int|
        0 <= k < props_from(s, x).unwrap().len() ==> name_ok(sb, #[trigger] props_from(s, x).unwrap()[k].0)
}

/// The index of the first of the property entries `want`, from `i` on, whose
/// name in `sb` is `name`.
pub open spec fn first_named_from(sb: Seq<u8>, want: Seq<(int, int, int)>, name: Seq<u8>, i: int) -> Option<
    int,
>
    decreases want.len() - i,
{
    if i < 0 || i >= want.len() {
        None
    } else if name_at(sb, want[i].0) == name {
        Some(i)
    } else {
        first_named_from(sb, want, name, i + 1)
    }
}

/// What `first_named_from` finds lies at or after `i`, within `want`, and
/// bears the name looked for.
pub proof fn lemma_first_named_from(sb: Seq<u8>, want: Seq<(int, int, int)>, name: Seq<u8>, i: int)
    ensures
        first_named_from(sb, want, name, i) matches Some(k) ==> i <= k < want.len() && name_at(
            sb,
            want[k].0,
        ) == name,
    decreases want.len() - i,
{
    if 0 <= i < want.len() && name_at(sb, want[i].0) != name {
        lemma_first_named_from(sb, want, name, i + 1);
    }
}

/// The value of the first property named `name` of the node whose contents
/// begin at `x`, if it has one.
pub open spec fn named_value(s: Seq<u8>, sb: Seq<u8>, x: int, name: Seq<u8>) -> Option<Seq<u8>> {
    let want = props_from(s, x).unwrap();
    match first_named_from(sb, want, name, 0) {
        Some(k) => Some(value_of(s, want[k])),
        None => None,
    }
}

/// The property entries of `/aliases`, when that node is found without
/// aliases and its properties can be read.
pub open spec fn alias_entries(s: Seq<u8>, sb: Seq<u8>) -> Option<Seq<(int, int, int)>> {
    match find_at(s, 0, "/aliases".spec_bytes()) {
        Search::At(x) => if readable(s, sb, x) {
            Some(props_from(s, x).unwrap())
        } else {
            None
        },
        _ => None,
    }
}

/// How many aliases a lookup may follow: one more than `/aliases` has
/// properties, since a longer chain names some property twice and so never
/// ends.
pub open spec fn alias_fuel(s: Seq<u8>, sb: Seq<u8>) -> nat {
    match alias_entries(s, sb) {
        Some(want) => want.len() + 1,
        None => 0,
    }
}

/// The lookup of `path`: the node it names from the root, or else, through
/// the property of `/aliases` named `path` whose value is valid UTF-8, the
/// lookup of that value. It faults where the tree cannot be read, where
/// `/aliases` is needed but missing (the lookup of `/aliases` would then
/// look for itself without end), and where more than `fuel` aliases are
/// followed.
pub open spec fn lookup(s: Seq<u8>, sb: Seq<u8>, path: Seq<u8>, fuel: nat) -> Search
    decreases fuel,
{
    match find_at(s, 0, path) {
        Search::At(x) => Search::At(x),
        Search::Fault => Search::Fault,
        Search::Missing => match alias_entries(s, sb) {
            None => Search::Fault,
            Some(want) => match first_named_from(sb, want, path, 0) {
                None => Search::Missing,
                Some(k) => if !valid_utf8(value_of(s, want[k])) {
                    Search::Missing
                } else if fuel == 0 {
                    Search::Fault
                } else {
                    lookup(s, sb, value_of(s, want[k]), (fuel - 1) as nat)
                },
            },
        },
    }
}

/// The index of the first of `props` whose name is `name`; the names are
/// those that `sb` gives the entries `want`.
fn first_named(props: &Vec<NodeProperty>, name: &[u8], Ghost(sb): Ghost<Seq<u8>>, Ghost(want): Ghost<Seq<(int, int, int)>>) -> (r: Option<usize>)
    requires
        props@.len() == want.len(),
        forall|k: int| 0 <= k < props@.len() ==> (#[trigger] props@[k]).name.spec_bytes() == name_at(sb, want[k].0),
    ensures
        r is None <==> first_named_from(sb, want, name@, 0) is None,
        r matches Some(k) ==> first_named_from(sb, want, name@, 0) == Some(k as int) && k < props@.len(),
{
    proof {
        lemma_first_named_from(sb, want, name@, 0);
    }
    let mut i: usize = 0;
    while i < props.len()
        invariant
            i <= props@.len(),
            props@.len() == want.len(),
            forall|k: int| 0 <= k < props@.len() ==> (#[trigger] props@[k]).name.spec_bytes() == name_at(sb, want[k].0),
            first_named_from(sb, want, name@, 0) == first_named_from(sb, want, name@, i as int),
        decreases props@.len() - i,
    {
        if bytes_equal(props[i].name.as_bytes(), name) {
            return Some(i);
        }
        i = i + 1;
    }
    None
}

impl<'a> Fdt<'a> {
    /// Whether the structure and strings blocks lie within the tree.
    pub open spec fn blocks_ok(&self) -> bool {
        &&& self.fdt_header().off_dt_struct.value() + self.fdt_header().size_dt_struct.value() <= self.bytes().len()
        &&& self.fdt_header().off_dt_strings.value() + self.fdt_header().size_dt_strings.value() <= self.bytes().len()
        &&& self.bytes().len() + 16 <= usize::MAX
    }

    /// The bytes of the structure block.
    pub open spec fn struct_bytes(&self) -> Seq<u8> {
        self.bytes().subrange(
            self.fdt_header().off_dt_struct.value() as int,
            self.fdt_header().off_dt_struct.value() + self.fdt_header().size_dt_struct.value(),
        )
    }

    /// The bytes of the strings block.
    pub open spec fn string_bytes(&self) -> Seq<u8> {
        self.bytes().subrange(
            self.fdt_header().off_dt_strings.value() as int,
            self.fdt_header().off_dt_strings.value() + self.fdt_header().size_dt_strings.value(),
        )
    }

    /// The lookup of `path` in this tree, aliases followed.
    pub open spec fn node_at(&self, path: Seq<u8>) -> Search {
        lookup(self.struct_bytes(), self.string_bytes(), path, alias_fuel(self.struct_bytes(), self.string_bytes()))
    }

    /// Whether the properties of `node` can be read.
    pub open spec fn readable_node(&self, node: FdtNode) -> bool {
        readable(self.struct_bytes(), self.string_bytes(), node.offset as int)
    }

    /// The value of the first property of `node` named `name`.
    pub open spec fn value_named(&self, node: FdtNode, name: Seq<u8>) -> Option<Seq<u8>> {
        named_value(self.struct_bytes(), self.string_bytes(), node.offset as int, name)
    }

    /// The node at `path`: each part of the path, up to the next `/`, must
    /// be a node's name up to any `@`; the root's name is empty, so paths
    /// start with `/`, and a path that ends with `/` names the node before
    /// it. Where no node has that path, the property of `/aliases` named
    /// `path` gives the path to look up instead.
    pub fn find_node(&self, path: &str) -> (r: Option<FdtNode>)
        requires
            self.blocks_ok(),
            !(self.node_at(path.spec_bytes()) is Fault),
        ensures
            match self.node_at(path.spec_bytes()) {
                Search::At(x) => r == Some(FdtNode { offset: x as usize }),
                _ => r.is_none(),
            },
    {
        self.lookup_path(path.as_bytes())
    }

    /// The node that the path in `path` names, aliases followed.
    fn lookup_path(&self, path: &[u8]) -> (r: Option<FdtNode>)
        requires
            self.blocks_ok(),
            !(self.node_at(path@) is Fault),
        ensures
            match self.node_at(path@) {
                Search::At(x) => r == Some(FdtNode { offset: x as usize }),
                _ => r.is_none(),
            },
    {
        let block = self.structs_block();
        let ghost s = self.struct_bytes();
        let ghost sb = self.string_bytes();
        let ghost start = self.node_at(path@);
        let mut p: &[u8] = path;
        let ghost mut fuel: nat = alias_fuel(s, sb);
        loop
            invariant
                block@ == s,
                s == self.struct_bytes(),
                sb == self.string_bytes(),
                self.blocks_ok(),
                lookup(s, sb, p@, fuel) == start,
                start == self.node_at(path@),
                !(start is Fault),
            decreases fuel,
        {
            proof {
                assert(!(find_at(s, 0, p@) is Fault));
            }
            match find_node_at(block, 0, p) {
                Some(x) => {
                    return Some(FdtNode { offset: x });
                },
                None => {},
            }
            proof {
                assert(find_at(s, 0, p@) is Missing);
                assert(alias_entries(s, sb) is Some);
            }
            match self.alias_value(p) {
                Some(v) => {
                    p = v;
                },
                None => return None,
            }
            proof {
                fuel = (fuel - 1) as nat;
            }
        }
    }

    /// The value of the property of `/aliases` named `name`, when there is
    /// one and it is valid UTF-8.
    fn alias_value(&self, name: &[u8]) -> (r: Option<&'a [u8]>)
        requires
            self.blocks_ok(),
            alias_entries(self.struct_bytes(), self.string_bytes()) is Some,
        ensures
            ({
                let want = alias_entries(self.struct_bytes(), self.string_bytes()).unwrap();
                match first_named_from(self.string_bytes(), want, name@, 0) {
                    Some(k) => if valid_utf8(value_of(self.struct_bytes(), want[k])) {
                        r is Some && r.unwrap()@ == value_of(self.struct_bytes(), want[k])
                    } else {
                        r is None
                    },
                    None => r is None,
                }
            }),
    {
        let block = self.structs_block();
        let a = match find_node_at(block, 0, "/aliases".as_bytes()) {
            Some(a) => a,
            None => {
                proof {
                    assert(false);
                }
                return None;
            },
        };
        let v = match self.property_value(FdtNode { offset: a }, name) {
            Some(v) => v,
            None => return None,
        };
        match str_from_utf8(v) {
            Some(_) => Some(v),
            None => None,
        }
    }

    /// The properties of `node`, in order, up to its first child or its
    /// end.
    pub fn properties(&self, node: FdtNode) -> (r: Vec<NodeProperty<'a>>)
        requires
            self.blocks_ok(),
            props_from(self.struct_bytes(), node.offset as int) is Some,
            forall|k: int|
                0 <= k < props_from(self.struct_bytes(), node.offset as int).unwrap().len() ==> name_ok(
                    self.string_bytes(),
                    #[trigger] props_from(self.struct_bytes(), node.offset as int).unwrap()[k].0,
                ),
        ensures
            ({
                let want = props_from(self.struct_bytes(), node.offset as int).unwrap();
                &&& r@.len() == want.len()
                &&& forall|k: int|
                    0 <= k < r@.len() ==> (#[trigger] r@[k]).name.spec_bytes() == name_at(
                        self.string_bytes(),
                        want[k].0,
                    ) && r@[k].value@ == self.struct_bytes().subrange(want[k].1, want[k].1 + want[k].2)
            }),
    {
        let block = self.structs_block();
        let strings = self.strings_block();
        node_properties(block, node.offset, strings)
    }

    /// The value of the first property of `node` named `name`, if it has
    /// one.
    fn property_value(&self, node: FdtNode, name: &[u8]) -> (r: Option<&'a [u8]>)
        requires
            self.blocks_ok(),
            self.readable_node(node),
        ensures
            match self.value_named(node, name@) {
                Some(v) => r is Some && r.unwrap()@ == v,
                None => r is None,
            },
    {
        let props = self.properties(node);
        let ghost want = props_from(self.struct_bytes(), node.offset as int).unwrap();
        match first_named(&props, name, Ghost(self.string_bytes()), Ghost(want)) {
            Some(k) => {
                Some(props[k].value)
            },
            None => None,
        }
    }
}


/// The first mapped area of a memory node: the address it is seen at, its
/// physical address and its size.
#[derive(Debug, Clone, Copy)]
pub struct MappedArea {
    pub effective_address: u64,
    pub physical_address: u64,
    pub size: u32,
}

/// What a memory node says: its regions and its mapped area.
#[derive(Debug)]
pub struct MemoryNode {
    pub regions: Vec<MemoryRegion>,
    pub initial_mapped_area: Option<MappedArea>,
}

/// The bytes of `reg`.
pub open spec fn reg_name() -> Seq<u8> {
    seq![0x72u8, 0x65u8, 0x67u8]
}

/// The bytes of `initial-mapped-area`.
pub open spec fn mapped_area_name() -> Seq<u8> {
    seq![
        0x69u8, 0x6Eu8, 0x69u8, 0x74u8, 0x69u8, 0x61u8, 0x6Cu8, 0x2Du8, 0x6Du8, 0x61u8, 0x70u8, 0x70u8, 0x65u8,
        0x64u8, 0x2Du8, 0x61u8, 0x72u8, 0x65u8, 0x61u8,
    ]
}

/// The bytes of `device_type`.
pub open spec fn device_type_name() -> Seq<u8> {
    seq![0x64u8, 0x65u8, 0x76u8, 0x69u8, 0x63u8, 0x65u8, 0x5Fu8, 0x74u8, 0x79u8, 0x70u8, 0x65u8]
}

/// The index of the last of the first `n` property entries `want` whose
/// name in the strings block `sb` is `name`, if any.
pub open spec fn last_named(sb: Seq<u8>, want: Seq<(int, int, int)>, name: Seq<u8>, n: int) -> Option<int>
    decreases n,
{
    if n <= 0 {
        None
    } else if name_at(sb, want[n - 1].0) == name {
        Some(n - 1)
    } else {
        last_named(sb, want, name, n - 1)
    }
}

/// The value bytes of the property entry `e` of the structure block `s`.
pub open spec fn value_of(s: Seq<u8>, e: (int, int, int)) -> Seq<u8> {
    s.subrange(e.1, e.1 + e.2)
}

/// Whether the property entries of a memory node can be read: each is
/// `reg`, `initial-mapped-area` with at least 20 bytes, or `device_type`.
pub open spec fn memory_props_ok(sb: Seq<u8>, s: Seq<u8>, want: Seq<(int, int, int)>) -> bool {
    forall|k: int|
        0 <= k < want.len() ==> {
            let n = name_at(sb, (#[trigger] want[k]).0);
            ||| n == reg_name()
            ||| n == mapped_area_name() && value_of(s, want[k]).len() >= 20
            ||| n == device_type_name()
        }
}

/// Whether `r` lists the regions of a `reg` value `v`: one per whole 16
/// bytes, each a big-endian start and size.
pub open spec fn regions_of(r: Seq<MemoryRegion>, v: Seq<u8>) -> bool {
    &&& r.len() == v.len() / 16
    &&& forall|i: int|
        0 <= i < r.len() ==> (#[trigger] r[i]).starting_address.value() == be64_at(v, 16 * i) && r[i].size.value()
            == be64_at(v, 16 * i + 8)
}

/// Whether `a` is the mapped area an `initial-mapped-area` value `v` gives:
/// two big-endian words and a big-endian 32-bit size.
pub open spec fn mapped_area_of(a: MappedArea, v: Seq<u8>) -> bool {
    &&& a.effective_address == be64_at(v, 0)
    &&& a.physical_address == be64_at(v, 8)
    &&& a.size == be32_at(v, 16)
}

/// The regions one per whole 16 bytes of `v`.
fn regions_from(v: &[u8]) -> (r: Vec<MemoryRegion>)
    ensures
        regions_of(r@, v@),
{
    let mut out: Vec<MemoryRegion> = Vec::new();
    let len = v.len();
    let n = len / 16;
    let mut i: usize = 0;
    while i < n
        invariant
            len == v@.len(),
            n == v@.len() / 16,
            i <= n,
            out@.len() == i,
            forall|j: int|
                0 <= j < i ==> (#[trigger] out@[j]).starting_address.value() == be64_at(v@, 16 * j)
                    && out@[j].size.value() == be64_at(v@, 16 * j + 8),
        decreases n - i,
    {
        proof {
            assert(16 * i + 16 <= v@.len()) by (nonlinear_arith)
                requires
                    i < n,
                    n == v@.len() / 16,
            ;
            lemma_be_suffix(v@, 16 * i);
            lemma_be_suffix(v@, 16 * i + 8);
        }
        let a = BigEndianU64::from_bytes(slice_from(v, 16 * i));
        let b = BigEndianU64::from_bytes(slice_from(v, 16 * i + 8));
        match (a, b) {
            (Some(a), Some(b)) => out.push(MemoryRegion { starting_address: a, size: b }),
            _ => {
                proof {
                    assert(false);
                }
            },
        }
        i = i + 1;
    }
    out
}

/// The mapped area of an `initial-mapped-area` value of 20 bytes or more.
fn mapped_area_from(v: &[u8]) -> (r: MappedArea)
    requires
        v@.len() >= 20,
    ensures
        mapped_area_of(r, v@),
{
    proof {
        lemma_be_suffix(v@, 0);
        lemma_be_suffix(v@, 8);
        lemma_be_suffix(v@, 12);
        assert(v@.subrange(0, v@.len() as int) =~= v@);
    }
    let rest = slice_from(v, 16);
    let (a, b, c) = (BigEndianU64::from_bytes(v), BigEndianU64::from_bytes(slice_from(v, 8)), BigEndianU32::from_bytes(rest));
    match (a, b, c) {
        (Some(a), Some(b), Some(c)) => {
            proof {
                assert(rest@[0] == v@[16] && rest@[1] == v@[17] && rest@[2] == v@[18] && rest@[3] == v@[19]);
            }
            MappedArea { effective_address: a.get(), physical_address: b.get(), size: c.get() }
        },
        _ => {
            proof {
                assert(false);
            }
            MappedArea { effective_address: 0, physical_address: 0, size: 0 }
        },
    }
}

impl<'a> Fdt<'a> {
    /// The memory node `/memory`, which must exist: the regions of its last
    /// `reg` property and the area of its last `initial-mapped-area`
    /// property; `device_type` is passed over, and any other property is
    /// not allowed.
    pub fn memory(&self) -> (r: MemoryNode)
        requires
            self.blocks_ok(),
            self.node_at("/memory".spec_bytes()) is At,
            ({
                let x = self.node_at("/memory".spec_bytes())->At_0;
                &&& props_from(self.struct_bytes(), x) is Some
                &&& forall|k: int|
                    0 <= k < props_from(self.struct_bytes(), x).unwrap().len() ==> name_ok(
                        self.string_bytes(),
                        #[trigger] props_from(self.struct_bytes(), x).unwrap()[k].0,
                    )
                &&& memory_props_ok(self.string_bytes(), self.struct_bytes(), props_from(self.struct_bytes(), x).unwrap())
            }),
        ensures
            ({
                let x = self.node_at("/memory".spec_bytes())->At_0;
                let want = props_from(self.struct_bytes(), x).unwrap();
                let sb = self.string_bytes();
                &&& match last_named(sb, want, reg_name(), want.len() as int) {
                    Some(k) => regions_of(r.regions@, value_of(self.struct_bytes(), want[k])),
                    None => r.regions@.len() == 0,
                }
                &&& match last_named(sb, want, mapped_area_name(), want.len() as int) {
                    Some(k) => r.initial_mapped_area is Some && mapped_area_of(
                        r.initial_mapped_area->0,
                        value_of(self.struct_bytes(), want[k]),
                    ),
                    None => r.initial_mapped_area is None,
                }
            }),
    {
        let node = match self.find_node("/memory") {
            Some(n) => n,
            None => {
                proof {
                    assert(false);
                }
                return MemoryNode { regions: Vec::new(), initial_mapped_area: None };
            },
        };
        let props = self.properties(node);
        let ghost want = props_from(self.struct_bytes(), node.offset as int).unwrap();
        let ghost sb = self.string_bytes();
        let ghost st = self.struct_bytes();
        let reg: [u8; 3] = [0x72, 0x65, 0x67];
        let area: [u8; 19] = [
            0x69, 0x6E, 0x69, 0x74, 0x69, 0x61, 0x6C, 0x2D, 0x6D, 0x61, 0x70, 0x70, 0x65, 0x64, 0x2D, 0x61, 0x72,
            0x65, 0x61,
        ];
        proof {
            assert(reg@ =~= reg_name());
            assert(area@ =~= mapped_area_name());
        }
        let mut regions: Vec<MemoryRegion> = Vec::new();
        let mut mapped: Option<MappedArea> = None;
        let mut i: usize = 0;
        while i < props.len()
            invariant
                i <= props@.len(),
                props@.len() == want.len(),
                forall|k: int|
                    0 <= k < props@.len() ==> (#[trigger] props@[k]).name.spec_bytes() == name_at(sb, want[k].0)
                        && props@[k].value@ == value_of(st, want[k]),
                reg@ == reg_name(),
                area@ == mapped_area_name(),
                memory_props_ok(sb, st, want),
                match last_named(sb, want, reg_name(), i as int) {
                    Some(k) => regions_of(regions@, value_of(st, want[k])),
                    None => regions@.len() == 0,
                },
                match last_named(sb, want, mapped_area_name(), i as int) {
                    Some(k) => mapped is Some && mapped_area_of(mapped->0, value_of(st, want[k])),
                    None => mapped is None,
                },
            decreases props@.len() - i,
        {
            let p = props[i];
            proof {
                assert(p.name.spec_bytes() == name_at(sb, want[i as int].0));
                assert(p.value@ == value_of(st, want[i as int]));
            }
            if bytes_equal(p.name.as_bytes(), reg.as_slice()) {
                regions = regions_from(p.value);
            } else if bytes_equal(p.name.as_bytes(), area.as_slice()) {
                mapped = Some(mapped_area_from(p.value));
            }
            i = i + 1;
        }
        MemoryNode { regions, initial_mapped_area: mapped }
    }
}

/// The node a lookup ends at, if any.
pub open spec fn found(s: Search) -> Option<FdtNode> {
    match s {
        Search::At(x) => Some(FdtNode { offset: x as usize }),
        _ => None,
    }
}

/// A property value, when it is valid UTF-8.
pub open spec fn utf8_text(v: Option<Seq<u8>>) -> Option<Seq<u8>> {
    match v {
        Some(v) => if valid_utf8(v) {
            Some(v)
        } else {
            None
        },
        None => None,
    }
}

/// A property value without its last byte, the zero that ends it, when the
/// rest is valid UTF-8.
pub open spec fn trimmed_text(v: Option<Seq<u8>>) -> Option<Seq<u8>> {
    match v {
        Some(v) => if valid_utf8(v.subrange(0, v.len() - 1)) {
            Some(v.subrange(0, v.len() - 1))
        } else {
            None
        },
        None => None,
    }
}

impl<'a> Fdt<'a> {
    /// The root node, which must exist.
    pub fn root(&self) -> (r: Root<'a>)
        requires
            self.blocks_ok(),
            self.node_at("/".spec_bytes()) is At,
        ensures
            r.fdt == *self,
            Some(r.node) == found(self.node_at("/".spec_bytes())),
    {
        match self.find_node("/") {
            Some(node) => Root { fdt: *self, node },
            None => {
                proof {
                    assert(false);
                }
                Root { fdt: *self, node: FdtNode { offset: 0 } }
            },
        }
    }

    /// The node `/aliases`, which must exist.
    pub fn aliases(&self) -> (r: Aliases<'a>)
        requires
            self.blocks_ok(),
            self.node_at("/aliases".spec_bytes()) is At,
        ensures
            r.fdt == *self,
            Some(r.node) == found(self.node_at("/aliases".spec_bytes())),
    {
        match self.find_node("/aliases") {
            Some(node) => Aliases { fdt: *self, node },
            None => {
                proof {
                    assert(false);
                }
                Aliases { fdt: *self, node: FdtNode { offset: 0 } }
            },
        }
    }

    /// The node `/chosen`, looked up without aliases, if the tree has it.
    pub fn chosen(&self) -> (r: Option<Chosen<'a>>)
        requires
            self.blocks_ok(),
            !(find_at(self.struct_bytes(), 0, "/chosen".spec_bytes()) is Fault),
        ensures
            match find_at(self.struct_bytes(), 0, "/chosen".spec_bytes()) {
                Search::At(x) => r == Some(Chosen { fdt: *self, node: FdtNode { offset: x as usize } }),
                _ => r is None,
            },
    {
        let block = self.structs_block();
        match find_node_at(block, 0, "/chosen".as_bytes()) {
            Some(offset) => Some(Chosen { fdt: *self, node: FdtNode { offset } }),
            None => None,
        }
    }

    /// The value of the first property of `node` named `name` without its
    /// last byte, when there is one and the rest is valid UTF-8.
    fn trimmed_value(&self, node: FdtNode, name: &[u8]) -> (r: Option<&'a str>)
        requires
            self.blocks_ok(),
            self.readable_node(node),
            self.value_named(node, name@) matches Some(v) ==> v.len() >= 1,
        ensures
            match trimmed_text(self.value_named(node, name@)) {
                Some(t) => r is Some && r.unwrap().spec_bytes() == t,
                None => r is None,
            },
    {
        match self.property_value(node, name) {
            Some(v) => str_from_utf8(vstd::slice::slice_subrange(v, 0, v.len() - 1)),
            None => None,
        }
    }

    /// The value of the first property of `node` named `name`, when there is
    /// one and it is valid UTF-8.
    fn text_value(&self, node: FdtNode, name: &[u8]) -> (r: Option<&'a str>)
        requires
            self.blocks_ok(),
            self.readable_node(node),
        ensures
            match utf8_text(self.value_named(node, name@)) {
                Some(t) => r is Some && r.unwrap().spec_bytes() == t,
                None => r is None,
            },
    {
        match self.property_value(node, name) {
            Some(v) => str_from_utf8(v),
            None => None,
        }
    }

    /// Whether the path that the property `name` of `node` holds can be
    /// looked up: the value ends with its zero byte and, when the rest is
    /// valid UTF-8, its lookup can be done.
    pub open spec fn path_ok(&self, node: FdtNode, name: Seq<u8>) -> bool {
        &&& self.value_named(node, name) matches Some(v) ==> v.len() >= 1
        &&& trimmed_text(self.value_named(node, name)) matches Some(p) ==> !(self.node_at(p) is Fault)
    }

    /// The node at the path that the property `name` of `node` holds.
    pub open spec fn node_named_by(&self, node: FdtNode, name: Seq<u8>) -> Option<FdtNode> {
        match trimmed_text(self.value_named(node, name)) {
            Some(p) => found(self.node_at(p)),
            None => None,
        }
    }

    /// The node at the path that the property `name` of `node` holds, if
    /// there is one.
    fn follow_path(&self, node: FdtNode, name: &[u8]) -> (r: Option<FdtNode>)
        requires
            self.blocks_ok(),
            self.readable_node(node),
            self.path_ok(node, name@),
        ensures
            r == self.node_named_by(node, name@),
    {
        match self.trimmed_value(node, name) {
            Some(p) => self.find_node(p),
            None => None,
        }
    }
}

/// The root node of a tree.
#[derive(Debug, Clone, Copy)]
pub struct Root<'a> {
    pub fdt: Fdt<'a>,
    pub node: FdtNode,
}

impl<'a> Root<'a> {
    /// The root's `model` property, which must exist and be valid UTF-8,
    /// with its ending zero byte.
    pub fn model(self) -> (r: &'a str)
        requires
            self.fdt.blocks_ok(),
            self.fdt.readable_node(self.node),
            utf8_text(self.fdt.value_named(self.node, "model".spec_bytes())) is Some,
        ensures
            r.spec_bytes() == self.fdt.value_named(self.node, "model".spec_bytes()).unwrap(),
    {
        match self.fdt.text_value(self.node, "model".as_bytes()) {
            Some(m) => m,
            None => {
                proof {
                    assert(false);
                }
                ""
            },
        }
    }
}

/// The node `/chosen` of a tree.
#[derive(Debug, Clone, Copy)]
pub struct Chosen<'a> {
    pub fdt: Fdt<'a>,
    pub node: FdtNode,
}

impl<'a> Chosen<'a> {
    /// The `bootargs` property without its ending zero byte, when there is
    /// one and it is valid UTF-8.
    pub fn bootargs(self) -> (r: Option<&'a str>)
        requires
            self.fdt.blocks_ok(),
            self.fdt.readable_node(self.node),
            self.fdt.value_named(self.node, "bootargs".spec_bytes()) matches Some(v) ==> v.len() >= 1,
        ensures
            match trimmed_text(self.fdt.value_named(self.node, "bootargs".spec_bytes())) {
                Some(t) => r is Some && r.unwrap().spec_bytes() == t,
                None => r is None,
            },
    {
        self.fdt.trimmed_value(self.node, "bootargs".as_bytes())
    }

    /// The node at the path in `stdout-path`, if there is one.
    pub fn stdout(self) -> (r: Option<FdtNode>)
        requires
            self.fdt.blocks_ok(),
            self.fdt.readable_node(self.node),
            self.fdt.path_ok(self.node, "stdout-path".spec_bytes()),
        ensures
            r == self.fdt.node_named_by(self.node, "stdout-path".spec_bytes()),
    {
        self.fdt.follow_path(self.node, "stdout-path".as_bytes())
    }

    /// The node at the path in `stdin-path`, or else the one at the path in
    /// `stdout-path`.
    pub fn stdin(self) -> (r: Option<FdtNode>)
        requires
            self.fdt.blocks_ok(),
            self.fdt.readable_node(self.node),
            self.fdt.path_ok(self.node, "stdin-path".spec_bytes()),
            self.fdt.path_ok(self.node, "stdout-path".spec_bytes()),
        ensures
            r == match self.fdt.node_named_by(self.node, "stdin-path".spec_bytes()) {
                Some(n) => Some(n),
                None => self.fdt.node_named_by(self.node, "stdout-path".spec_bytes()),
            },
    {
        match self.fdt.follow_path(self.node, "stdin-path".as_bytes()) {
            Some(n) => Some(n),
            None => self.stdout(),
        }
    }
}

/// The pairs of name and value of the first `n` property entries `want`
/// whose values are valid UTF-8, in order.
pub open spec fn text_pairs(s: Seq<u8>, sb: Seq<u8>, want: Seq<(int, int, int)>, n: int) -> Seq<(Seq<u8>, Seq<u8>)>
    decreases n,
{
    if n <= 0 {
        Seq::empty()
    } else if valid_utf8(value_of(s, want[n - 1])) {
        text_pairs(s, sb, want, n - 1).push((name_at(sb, want[n - 1].0), value_of(s, want[n - 1])))
    } else {
        text_pairs(s, sb, want, n - 1)
    }
}

/// The node `/aliases` of a tree.
#[derive(Debug, Clone, Copy)]
pub struct Aliases<'a> {
    pub fdt: Fdt<'a>,
    pub node: FdtNode,
}

impl<'a> Aliases<'a> {
    /// The value of the property named `alias`, when there is one and it is
    /// valid UTF-8.
    pub fn resolve(self, alias: &str) -> (r: Option<&'a str>)
        requires
            self.fdt.blocks_ok(),
            self.fdt.readable_node(self.node),
        ensures
            match utf8_text(self.fdt.value_named(self.node, alias.spec_bytes())) {
                Some(t) => r is Some && r.unwrap().spec_bytes() == t,
                None => r is None,
            },
    {
        self.fdt.text_value(self.node, alias.as_bytes())
    }

    /// The node at the path that `alias` resolves to.
    pub fn resolve_node(self, alias: &str) -> (r: Option<FdtNode>)
        requires
            self.fdt.blocks_ok(),
            self.fdt.readable_node(self.node),
            utf8_text(self.fdt.value_named(self.node, alias.spec_bytes())) matches Some(p) ==> !(
            self.fdt.node_at(p) is Fault),
        ensures
            r == match utf8_text(self.fdt.value_named(self.node, alias.spec_bytes())) {
                Some(p) => found(self.fdt.node_at(p)),
                None => None,
            },
    {
        match self.resolve(alias) {
            Some(p) => self.fdt.find_node(p),
            None => None,
        }
    }

    /// Every alias whose value is valid UTF-8, with that value, in order.
    pub fn all(self) -> (r: Vec<(&'a str, &'a str)>)
        requires
            self.fdt.blocks_ok(),
            self.fdt.readable_node(self.node),
        ensures
            ({
                let want = props_from(self.fdt.struct_bytes(), self.node.offset as int).unwrap();
                let pairs = text_pairs(self.fdt.struct_bytes(), self.fdt.string_bytes(), want, want.len() as int);
                &&& r@.len() == pairs.len()
                &&& forall|i: int|
                    0 <= i < r@.len() ==> (#[trigger] r@[i]).0.spec_bytes() == pairs[i].0 && r@[i].1.spec_bytes()
                        == pairs[i].1
            }),
    {
        let props = self.fdt.properties(self.node);
        let ghost s = self.fdt.struct_bytes();
        let ghost sb = self.fdt.string_bytes();
        let ghost want = props_from(s, self.node.offset as int).unwrap();
        let mut out: Vec<(&'a str, &'a str)> = Vec::new();
        let mut i: usize = 0;
        while i < props.len()
            invariant
                i <= props@.len(),
                props@.len() == want.len(),
                forall|k: int|
                    0 <= k < props@.len() ==> (#[trigger] props@[k]).name.spec_bytes() == name_at(sb, want[k].0)
                        && props@[k].value@ == value_of(s, want[k]),
                out@.len() == text_pairs(s, sb, want, i as int).len(),
                forall|j: int|
                    0 <= j < out@.len() ==> (#[trigger] out@[j]).0.spec_bytes() == text_pairs(s, sb, want, i as int)[j].0
                        && out@[j].1.spec_bytes() == text_pairs(s, sb, want, i as int)[j].1,
            decreases props@.len() - i,
        {
            let p = props[i];
            proof {
                assert(p.name.spec_bytes() == name_at(sb, want[i as int].0));
                assert(p.value@ == value_of(s, want[i as int]));
            }
            match str_from_utf8(p.value) {
                Some(v) => {
                    out.push((p.name, v));
                },
                None => {},
            }
            i = i + 1;
        }
        out
    }
}

/// The number a frequency property holds: one big-endian word of four
/// bytes, or of eight.
pub open spec fn frequency_of(v: Seq<u8>) -> int {
    if v.len() == 4 {
        be32_at(v, 0)
    } else {
        be64_at(v, 0)
    }
}

/// The number a run of bytes encodes, most significant byte first.
pub open spec fn be_value(b: Seq<u8>) -> nat
    decreases b.len(),
{
    if b.len() == 0 {
        0
    } else {
        be_value(b.drop_last()) * 256 + b.last() as nat
    }
}

/// The first `k` bytes of `v` encode 256 times what the first `k - 1`
/// encode, plus byte `k - 1`.
proof fn lemma_be_value_step(v: Seq<u8>, k: int)
    requires
        0 < k <= v.len(),
    ensures
        be_value(v.subrange(0, k)) == be_value(v.subrange(0, k - 1)) * 256 + v[k - 1],
{
    assert(v.subrange(0, k).drop_last() =~= v.subrange(0, k - 1));
}

/// The four bytes at `at` read as `be32_at`, and the eight read as
/// `be64_at`, are the big-endian numbers of those bytes.
pub proof fn lemma_be_at_value(s: Seq<u8>, at: int)
    requires
        0 <= at,
    ensures
        at + 4 <= s.len() ==> be32_at(s, at) == be_value(s.subrange(at, at + 4)),
        at + 8 <= s.len() ==> be64_at(s, at) == be_value(s.subrange(at, at + 8)),
{
    if at + 4 <= s.len() {
        let v = s.subrange(at, at + 4);
        assert(v.subrange(0, 0).len() == 0);
        lemma_be_value_step(v, 1);
        lemma_be_value_step(v, 2);
        lemma_be_value_step(v, 3);
        lemma_be_value_step(v, 4);
        assert(v.subrange(0, 4) =~= v);
    }
    if at + 8 <= s.len() {
        let v = s.subrange(at, at + 8);
        assert(v.subrange(0, 0).len() == 0);
        lemma_be_value_step(v, 1);
        lemma_be_value_step(v, 2);
        lemma_be_value_step(v, 3);
        lemma_be_value_step(v, 4);
        lemma_be_value_step(v, 5);
        lemma_be_value_step(v, 6);
        lemma_be_value_step(v, 7);
        lemma_be_value_step(v, 8);
        assert(v.subrange(0, 8) =~= v);
    }
}

/// The big-endian words of two, four and eight bytes are the big-endian
/// numbers of the first two, four and eight bytes.
pub proof fn lemma_be_words_value(s: Seq<u8>)
    requires
        s.len() >= 8,
    ensures
        be16(s[0], s[1]) == be_value(s.subrange(0, 2)),
        be32(s[0], s[1], s[2], s[3]) == be_value(s.subrange(0, 4)),
        be64(s) == be_value(s.subrange(0, 8)),
{
    lemma_be_at_value(s, 0);
    let v = s.subrange(0, 2);
    assert(v.subrange(0, 0).len() == 0);
    lemma_be_value_step(v, 1);
    lemma_be_value_step(v, 2);
    assert(v.subrange(0, 2) =~= v);
}

/// The header's ten words are the big-endian numbers of the first 40 bytes,
/// four by four: magic, total size, structure offset, strings offset,
/// reservation map offset, version, last compatible version, boot CPU,
/// strings size and structure size.
pub proof fn lemma_header_words(h: FdtHeader, s: Seq<u8>)
    requires
        h.read_from(s),
        s.len() >= 40,
    ensures
        h.magic.value() == be_value(s.subrange(0, 4)),
        h.totalsize.value() == be_value(s.subrange(4, 8)),
        h.off_dt_struct.value() == be_value(s.subrange(8, 12)),
        h.off_dt_strings.value() == be_value(s.subrange(12, 16)),
        h.off_mem_rsvmap.value() == be_value(s.subrange(16, 20)),
        h.version.value() == be_value(s.subrange(20, 24)),
        h.last_comp_version.value() == be_value(s.subrange(24, 28)),
        h.boot_cpuid_phys.value() == be_value(s.subrange(28, 32)),
        h.size_dt_strings.value() == be_value(s.subrange(32, 36)),
        h.size_dt_struct.value() == be_value(s.subrange(36, 40)),
{
    lemma_be_at_value(s, 0);
    lemma_be_at_value(s, 4);
    lemma_be_at_value(s, 8);
    lemma_be_at_value(s, 12);
    lemma_be_at_value(s, 16);
    lemma_be_at_value(s, 20);
    lemma_be_at_value(s, 24);
    lemma_be_at_value(s, 28);
    lemma_be_at_value(s, 32);
    lemma_be_at_value(s, 36);
}

/// The regions a `reg` value lists are its whole 16-byte records in
/// order, each a big-endian 64-bit start followed by a big-endian 64-bit
/// size.
pub proof fn lemma_regions_are_records(r: Seq<MemoryRegion>, v: Seq<u8>, i: int)
    requires
        regions_of(r, v),
        0 <= i < r.len(),
    ensures
        16 * i + 16 <= v.len(),
        r[i].starting_address.value() == be_value(v.subrange(16 * i, 16 * i + 8)),
        r[i].size.value() == be_value(v.subrange(16 * i + 8, 16 * i + 16)),
{
    assert(16 * i + 16 <= v.len()) by (nonlinear_arith)
        requires
            0 <= i < r.len(),
            r.len() == v.len() / 16,
    ;
    lemma_be_at_value(v, 16 * i);
    lemma_be_at_value(v, 16 * i + 8);
}

/// The mapped area of an `initial-mapped-area` value: a big-endian 64-bit
/// effective address in bytes 0..8, a big-endian 64-bit physical address
/// in 8..16 and a big-endian 32-bit size in 16..20.
pub proof fn lemma_mapped_area_words(a: MappedArea, v: Seq<u8>)
    requires
        mapped_area_of(a, v),
        v.len() >= 20,
    ensures
        a.effective_address == be_value(v.subrange(0, 8)),
        a.physical_address == be_value(v.subrange(8, 16)),
        a.size == be_value(v.subrange(16, 20)),
{
    lemma_be_at_value(v, 0);
    lemma_be_at_value(v, 8);
    lemma_be_at_value(v, 16);
}

/// The `i`-th CPU id of a `reg` value is the big-endian number of its
/// `i`-th group of `cells` words: four bytes from `4 * i` for one cell,
/// else eight bytes from `8 * i`. A cell count property is the big-endian
/// number of its first four bytes.
pub proof fn lemma_ids_and_cells(v: Seq<u8>, cells: int, i: int, default: int)
    requires
        0 <= i,
        cells == 1 ==> 4 * i + 4 <= v.len(),
        cells != 1 ==> 8 * i + 8 <= v.len(),
    ensures
        cells == 1 ==> id_at(v, cells, i) == be_value(v.subrange(4 * i, 4 * i + 4)),
        cells != 1 ==> id_at(v, cells, i) == be_value(v.subrange(8 * i, 8 * i + 8)),
        v.len() >= 4 ==> cells_of(Some(v), default) == be_value(v.subrange(0, 4)),
        cells_of(None, default) == default,
{
    lemma_be_at_value(v, 4 * i);
    lemma_be_at_value(v, 8 * i);
    lemma_be_at_value(v, 0);
}

/// A frequency property holds the big-endian number of all its bytes:
/// four bytes read as one 32-bit word, eight as one 64-bit word.
pub proof fn lemma_frequency_is_big_endian(v: Seq<u8>)
    requires
        v.len() == 4 || v.len() == 8,
    ensures
        frequency_of(v) == be_value(v),
{
    assert(v.subrange(0, 0).len() == 0);
    lemma_be_value_step(v, 1);
    lemma_be_value_step(v, 2);
    lemma_be_value_step(v, 3);
    lemma_be_value_step(v, 4);
    if v.len() == 8 {
        lemma_be_value_step(v, 5);
        lemma_be_value_step(v, 6);
        lemma_be_value_step(v, 7);
        lemma_be_value_step(v, 8);
    }
    assert(v.subrange(0, v.len() as int) =~= v);
}

/// A CPU node of a tree, with the `/cpus` node above it.
#[derive(Debug, Clone, Copy)]
pub struct Cpu<'a> {
    pub fdt: Fdt<'a>,
    pub parent: FdtNode,
    pub node: FdtNode,
}

impl<'a> Cpu<'a> {
    /// The value of the property `name` of the CPU node, or else of its
    /// parent.
    pub open spec fn inherited(self, name: Seq<u8>) -> Option<Seq<u8>> {
        match self.fdt.value_named(self.node, name) {
            Some(v) => Some(v),
            None => self.fdt.value_named(self.parent, name),
        }
    }

    /// Whether the property `name` can be read from the CPU node or its
    /// parent as a frequency: it is found, and holds four or eight bytes.
    pub open spec fn frequency_ok(self, name: Seq<u8>) -> bool {
        &&& self.fdt.blocks_ok()
        &&& self.fdt.readable_node(self.node)
        &&& self.fdt.value_named(self.node, name) is None ==> self.fdt.readable_node(self.parent)
        &&& self.inherited(name) matches Some(v) && (v.len() == 4 || v.len() == 8)
    }

    /// The frequency in the property `name` of the CPU node or its parent.
    fn frequency(self, name: &[u8]) -> (r: usize)
        requires
            self.frequency_ok(name@),
        ensures
            r == frequency_of(self.inherited(name@).unwrap()) as usize,
    {
        let v = match self.fdt.property_value(self.node, name) {
            Some(v) => v,
            None => match self.fdt.property_value(self.parent, name) {
                Some(v) => v,
                None => {
                    proof {
                        assert(false);
                    }
                    return 0;
                },
            },
        };
        proof {
            lemma_be_word(v@, 0);
        }
        if v.len() == 4 {
            match BigEndianU32::from_bytes(v) {
                Some(w) => w.get() as usize,
                None => 0,
            }
        } else {
            match BigEndianU64::from_bytes(v) {
                Some(w) => w.get() as usize,
                None => 0,
            }
        }
    }

    /// The `clock-frequency` of the CPU node, or else of its parent.
    pub fn clock_frequency(self) -> (r: usize)
        requires
            self.frequency_ok("clock-frequency".spec_bytes()),
        ensures
            r == frequency_of(self.inherited("clock-frequency".spec_bytes()).unwrap()) as usize,
    {
        self.frequency("clock-frequency".as_bytes())
    }

    /// The `timebase-frequency` of the CPU node, or else of its parent.
    pub fn timebase_frequency(self) -> (r: usize)
        requires
            self.frequency_ok("timebase-frequency".spec_bytes()),
        ensures
            r == frequency_of(self.inherited("timebase-frequency".spec_bytes()).unwrap()) as usize,
    {
        self.frequency("timebase-frequency".as_bytes())
    }

    /// The properties of the CPU node.
    pub fn properties(self) -> (r: Vec<NodeProperty<'a>>)
        requires
            self.fdt.blocks_ok(),
            self.fdt.readable_node(self.node),
        ensures
            ({
                let want = props_from(self.fdt.struct_bytes(), self.node.offset as int).unwrap();
                &&& r@.len() == want.len()
                &&& forall|k: int|
                    0 <= k < r@.len() ==> (#[trigger] r@[k]).name.spec_bytes() == name_at(
                        self.fdt.string_bytes(),
                        want[k].0,
                    ) && r@[k].value@ == value_of(self.fdt.struct_bytes(), want[k])
            }),
    {
        self.fdt.properties(self.node)
    }
}

/// The bytes at `at` of `s` read as the words `BigEndianU32` and
/// `BigEndianU64` read them.
proof fn lemma_be_word(s: Seq<u8>, at: int)
    requires
        0 <= at,
    ensures
        at + 4 <= s.len() ==> be32_at(s, at) == be32(
            s.subrange(at, s.len() as int)[0],
            s.subrange(at, s.len() as int)[1],
            s.subrange(at, s.len() as int)[2],
            s.subrange(at, s.len() as int)[3],
        ),
        at + 8 <= s.len() ==> be64_at(s, at) == be64(s.subrange(at, s.len() as int)),
{
    if at + 8 <= s.len() {
        lemma_be_suffix(s, at);
    }
    if at + 4 <= s.len() {
        let t = s.subrange(at, s.len() as int);
        assert(t[0] == s[at] && t[1] == s[at + 1] && t[2] == s[at + 2] && t[3] == s[at + 3]);
    }
}

/// The ids in a CPU node's `reg` property, each of `address_cells` words.
#[derive(Debug, Clone, Copy)]
pub struct CpuIds<'a> {
    pub reg: NodeProperty<'a>,
    pub address_cells: usize,
}

/// The `i`-th id of `v` when each takes `cells` words.
pub open spec fn id_at(v: Seq<u8>, cells: int, i: int) -> int {
    if cells == 1 {
        be32_at(v, 4 * i)
    } else {
        be64_at(v, 8 * i)
    }
}

impl<'a> CpuIds<'a> {
    /// The first id; the ids must be of one or two words, and the first
    /// must be there.
    pub fn first(self) -> (r: usize)
        requires
            self.address_cells == 1 && self.reg.value@.len() >= 4 || self.address_cells == 2
                && self.reg.value@.len() >= 8,
        ensures
            r == id_at(self.reg.value@, self.address_cells as int, 0) as usize,
    {
        let v = self.reg.value;
        proof {
            lemma_be_word(v@, 0);
            assert(v@.subrange(0, v@.len() as int) =~= v@);
        }
        if self.address_cells == 1 {
            match BigEndianU32::from_bytes(v) {
                Some(w) => w.get() as usize,
                None => 0,
            }
        } else {
            match BigEndianU64::from_bytes(v) {
                Some(w) => w.get() as usize,
                None => 0,
            }
        }
    }

    /// Every whole id, in order; the ids must be of one or two words when
    /// there are any bytes.
    pub fn all(self) -> (r: Vec<usize>)
        requires
            self.reg.value@.len() > 0 ==> self.address_cells == 1 || self.address_cells == 2,
        ensures
            self.reg.value@.len() == 0 ==> r@.len() == 0,
            self.reg.value@.len() > 0 ==> r@.len() == self.reg.value@.len() as int / (4 * self.address_cells as int),
            forall|i: int| 0 <= i < r@.len() ==> r@[i] == id_at(self.reg.value@, self.address_cells as int, i) as usize,
    {
        let v = self.reg.value;
        let n = v.len();
        let mut out: Vec<usize> = Vec::new();
        if n == 0 {
            return out;
        }
        let width: usize = if self.address_cells == 1 { 4 } else { 8 };
        let count = n / width;
        let mut i: usize = 0;
        while i < count
            invariant
                n == v@.len(),
                self.address_cells == 1 || self.address_cells == 2,
                width == 4 * self.address_cells,
                count == n / width,
                i <= count,
                out@.len() == i,
                forall|j: int| 0 <= j < i ==> out@[j] == id_at(v@, self.address_cells as int, j) as usize,
            decreases count - i,
        {
            proof {
                assert(width * i + width <= n) by (nonlinear_arith)
                    requires
                        i < count,
                        count == n / width,
                        width > 0,
                ;
                lemma_be_word(v@, width * i);
            }
            let rest = slice_from(v, width * i);
            let id: usize = if width == 4 {
                match BigEndianU32::from_bytes(rest) {
                    Some(w) => w.get() as usize,
                    None => 0,
                }
            } else {
                match BigEndianU64::from_bytes(rest) {
                    Some(w) => w.get() as usize,
                    None => 0,
                }
            };
            out.push(id);
            i = i + 1;
        }
        out
    }
}

/// The strings block of a tree.
#[derive(Debug, Clone, Copy)]
pub struct FdtStrings<'a>(pub &'a [u8]);

impl<'a> FdtStrings<'a> {
    /// The string at `offset`, up to the next zero byte, which the block
    /// must hold.
    pub fn cstr_at_offset(&self, offset: usize) -> (r: CStr<'a>)
        requires
            offset <= self.0@.len(),
            first_zero(self.0@.subrange(offset as int, self.0@.len() as int)) < self.0@.len() - offset,
        ensures
            r.bytes() == name_at(self.0@, offset as int),
    {
        let tail = slice_from(self.0, offset);
        proof {
            lemma_first_zero(tail@);
        }
        CStr::new(tail)
    }
}

/// The children, in structure order, of the node whose contents go on from
/// `pos` of the structure block `s`, `depth` levels below it, whose names
/// before any `@` are `want`, or with `every` every node met at any depth:
/// each given by the offset of its contents.
/// Properties and no-ops are stepped over, each node entered goes one level
/// deeper and its end one level back, the end of the node itself or an
/// unknown token ends the list; `None` when a read would leave the block.
pub open spec fn kids(s: Seq<u8>, pos: int, depth: nat, want: Seq<u8>, every: bool) -> Option<Seq<FdtNode>>
    decreases left(s, pos),
{
    if pos < 0 || pos + 4 > s.len() {
        None
    } else {
        let w = be32_at(s, pos);
        if w == 1 {
            let tail = s.subrange(pos + 4, s.len() as int);
            let n = first_of(tail, 0);
            if n >= tail.len() {
                None
            } else {
                let q = align4(pos + 4 + n + 1);
                let more = kids(s, q, depth + 1, want, every);
                if every || (depth == 0 && before(tail.subrange(0, n as int), 0x40) == want) {
                    match more {
                        Some(m) => Some(seq![FdtNode { offset: q as usize }] + m),
                        None => None,
                    }
                } else {
                    more
                }
            }
        } else if w == 2 {
            if depth == 0 {
                Some(Seq::empty())
            } else {
                kids(s, pos + 4, (depth - 1) as nat, want, every)
            }
        } else if w == 3 {
            if pos + 12 > s.len() {
                None
            } else {
                kids(s, align4(pos + 12 + be32_at(s, pos + 4)), depth, want, every)
            }
        } else if w == 4 {
            kids(s, pos + 4, depth, want, every)
        } else {
            Some(Seq::empty())
        }
    }
}

/// Gathers the children that `kids` lists from `start` of `s`.
#[verifier::rlimit(60)]
fn collect_kids(s: &[u8], start: usize, want: &[u8], every: bool) -> (r: Vec<FdtNode>)
    requires
        s@.len() + 16 <= usize::MAX,
        kids(s@, start as int, 0, want@, every) is Some,
    ensures
        r@ == kids(s@, start as int, 0, want@, every).unwrap(),
{
    let n = s.len();
    let mut out: Vec<FdtNode> = Vec::new();
    let mut pos = start;
    let mut depth: usize = 0;
    loop
        invariant_except_break
            n == s@.len(),
            s@.len() + 16 <= usize::MAX,
            kids(s@, pos as int, depth as nat, want@, every) is Some,
            kids(s@, start as int, 0, want@, every).unwrap() == out@ + kids(s@, pos as int, depth as nat, want@, every).unwrap(),
            depth <= pos,
        ensures
            kids(s@, start as int, 0, want@, every).unwrap() == out@,
        decreases left(s@, pos as int),
    {
        let ghost k = kids(s@, pos as int, depth as nat, want@, every).unwrap();
        let w = word(s, pos);
        if w == FDT_BEGIN_NODE {
            let end = position_of(s, pos + 4, 0);
            let name = vstd::slice::slice_subrange(s, pos + 4, end);
            let q = (end + 1 + 3) / 4 * 4;
            let base_end = position_of(name, 0, 0x40);
            let base = vstd::slice::slice_subrange(name, 0, base_end);
            proof {
                let tail = s@.subrange(pos + 4, s@.len() as int);
                assert(name@ =~= tail.subrange(0, first_of(tail, 0) as int));
                assert(name@.subrange(0, name@.len() as int) =~= name@);
                assert(q >= pos + 5) by (nonlinear_arith)
                    requires
                        q == (end + 4) / 4 * 4,
                        end >= pos + 4,
                ;
            }
            if every || (depth == 0 && bytes_equal(base, want)) {
                let ghost before_push = out@;
                out.push(FdtNode { offset: q });
                proof {
                    assert(out@ + kids(s@, q as int, (depth + 1) as nat, want@, every).unwrap() =~= before_push + k);
                }
            }
            depth = depth + 1;
            pos = q;
        } else if w == FDT_END_NODE {
            if depth == 0 {
                proof {
                    assert(out@ + k =~= out@);
                }
                break;
            }
            depth = depth - 1;
            pos = pos + 4;
        } else if w == FDT_PROP {
            let len = word(s, pos + 4) as usize;
            if len > n - (pos + 12) {
                proof {
                    let v = pos + 12 + be32_at(s@, pos + 4);
                    assert((v + 3) / 4 * 4 >= v) by (nonlinear_arith);
                    assert(kids(s@, align4(v), depth as nat, want@, every) is None);
                    assert(false);
                }
                break;
            }
            let next = (pos + 12 + len + 3) / 4 * 4;
            proof {
                assert(next >= pos + 12) by (nonlinear_arith)
                    requires
                        next == (pos + 12 + len + 3) / 4 * 4,
                ;
            }
            pos = next;
        } else if w == FDT_NOP {
            pos = pos + 4;
        } else {
            proof {
                assert(out@ + k =~= out@);
            }
            break;
        }
    }
    out
}

/// The index of the last byte `c` of `s`, or -1 when it has none.
pub open spec fn last_of(s: Seq<u8>, c: u8) -> int
    decreases s.len(),
{
    if s.len() == 0 {
        -1
    } else if s.last() == c {
        s.len() - 1
    } else {
        last_of(s.drop_last(), c)
    }
}

/// The index of the last byte `c` of `s`, if it has one.
fn last_position(s: &[u8], c: u8) -> (r: Option<usize>)
    ensures
        match r {
            Some(i) => i == last_of(s@, c) && i < s@.len(),
            None => last_of(s@, c) == -1,
        },
{
    let mut i = s.len();
    proof {
        assert(s@.subrange(0, i as int) =~= s@);
    }
    while i > 0
        invariant
            i <= s@.len(),
            last_of(s@, c) == last_of(s@.subrange(0, i as int), c),
        decreases i,
    {
        proof {
            assert(s@.subrange(0, i as int).drop_last() =~= s@.subrange(0, i - 1));
        }
        if s[i - 1] == c {
            return Some(i - 1);
        }
        i = i - 1;
    }
    None
}

/// The last part of `path`, after its last `/`.
pub open spec fn child_part(path: Seq<u8>) -> Seq<u8> {
    path.subrange(last_of(path, 0x2F) + 1, path.len() as int)
}

/// The path before the last `/` of `path`, or `/` when nothing is before it.
pub open spec fn parent_part(path: Seq<u8>) -> Seq<u8> {
    if last_of(path, 0x2F) == 0 {
        "/".spec_bytes()
    } else {
        path.subrange(0, last_of(path, 0x2F))
    }
}

impl<'a> Fdt<'a> {
    /// Whether `find_all_nodes` of `path` can be answered: the path holds a
    /// `/`, its parent part can be looked up, the root is there when that
    /// part names no node, and the children of the node it names can be
    /// read.
    pub open spec fn all_nodes_ok(&self, path: Seq<u8>) -> bool {
        let s = self.struct_bytes();
        let parent = find_at(s, 0, parent_part(path));
        &&& last_of(path, 0x2F) >= 0
        &&& !(parent is Fault)
        &&& parent is Missing ==> self.node_at("/".spec_bytes()) is At
        &&& path == "/".spec_bytes() ==> !(self.node_at("/".spec_bytes()) is Fault)
        &&& path != "/".spec_bytes() && parent is At ==> kids(s, parent->At_0, 0, child_part(path), false) is Some
    }

    /// What `find_all_nodes` of `path` gives: for `/`, the root; else the
    /// children of the node that the part before the last `/` names, looked
    /// up without aliases, whose names before any `@` are the last part, in
    /// order; nothing when that node is missing.
    pub open spec fn all_nodes_at(&self, path: Seq<u8>) -> Seq<FdtNode> {
        let s = self.struct_bytes();
        match find_at(s, 0, parent_part(path)) {
            Search::At(x) => if path == "/".spec_bytes() {
                match found(self.node_at("/".spec_bytes())) {
                    Some(n) => seq![n],
                    None => Seq::empty(),
                }
            } else {
                kids(s, x, 0, child_part(path), false).unwrap()
            },
            _ => Seq::empty(),
        }
    }

    /// Every node at `path` that a lookup by name could find: the children
    /// of the node before the last part of the path whose names, up to any
    /// `@`, are that last part.
    pub fn find_all_nodes(&self, path: &str) -> (r: Vec<FdtNode>)
        requires
            self.blocks_ok(),
            self.all_nodes_ok(path.spec_bytes()),
        ensures
            r@ == self.all_nodes_at(path.spec_bytes()),
    {
        let p = path.as_bytes();
        let _n = p.len();
        let slash = match last_position(p, 0x2F) {
            Some(i) => i,
            None => {
                proof {
                    assert(false);
                }
                return Vec::new();
            },
        };
        let child = slice_from(p, slash + 1);
        let parent: &[u8] = if slash == 0 {
            "/".as_bytes()
        } else {
            vstd::slice::slice_subrange(p, 0, slash)
        };
        let block = self.structs_block();
        let only_root = bytes_equal(p, "/".as_bytes());
        match find_node_at(block, 0, parent) {
            Some(x) => {
                if only_root {
                    let mut out: Vec<FdtNode> = Vec::new();
                    match self.find_node("/") {
                        Some(root) => out.push(root),
                        None => {},
                    }
                    proof {
                        assert(out@ =~= self.all_nodes_at(path.spec_bytes()));
                    }
                    out
                } else {
                    collect_kids(block, x, child, false)
                }
            },
            None => Vec::new(),
        }
    }
}

impl<'a> Fdt<'a> {
    /// The CPU nodes: the children of `/cpus`, which must exist, whose names
    /// before any `@` are `cpu`, in order, each with `/cpus` as its parent.
    pub fn cpus(&self) -> (r: Vec<Cpu<'a>>)
        requires
            self.blocks_ok(),
            self.node_at("/cpus".spec_bytes()) is At,
            kids(self.struct_bytes(), self.node_at("/cpus".spec_bytes())->At_0, 0, "cpu".spec_bytes(), false) is Some,
        ensures
            ({
                let x = self.node_at("/cpus".spec_bytes())->At_0;
                let want = kids(self.struct_bytes(), x, 0, "cpu".spec_bytes(), false).unwrap();
                &&& r@.len() == want.len()
                &&& forall|i: int|
                    0 <= i < r@.len() ==> (#[trigger] r@[i]).node == want[i] && r@[i].parent == FdtNode {
                        offset: x as usize,
                    } && r@[i].fdt == *self
            }),
    {
        let parent = match self.find_node("/cpus") {
            Some(p) => p,
            None => {
                proof {
                    assert(false);
                }
                return Vec::new();
            },
        };
        let block = self.structs_block();
        let nodes = collect_kids(block, parent.offset, "cpu".as_bytes(), false);
        let mut out: Vec<Cpu<'a>> = Vec::new();
        let mut i: usize = 0;
        while i < nodes.len()
            invariant
                i <= nodes@.len(),
                out@.len() == i,
                forall|j: int|
                    0 <= j < i ==> (#[trigger] out@[j]).node == nodes@[j] && out@[j].parent == parent && out@[j].fdt
                        == *self,
            decreases nodes@.len() - i,
        {
            out.push(Cpu { fdt: *self, parent, node: nodes[i] });
            i = i + 1;
        }
        out
    }
}

/// The number of cells a `#address-cells` or `#size-cells` property gives:
/// its first big-endian word, or `default` when the property is missing or
/// too short.
pub open spec fn cells_of(v: Option<Seq<u8>>, default: int) -> int {
    match v {
        Some(v) => if v.len() >= 4 {
            be32_at(v, 0)
        } else {
            default
        },
        None => default,
    }
}

/// How many cells an address and a size take in the `reg` properties of a
/// node's children.
#[derive(Debug, Clone, Copy, PartialEq, Eq)]
pub struct CellSizes {
    pub address_cells: usize,
    pub size_cells: usize,
}

/// The strings of a `compatible` property.
#[derive(Debug, Clone, Copy)]
pub struct Compatible<'a> {
    pub data: &'a [u8],
}

impl<'a> Compatible<'a> {
    /// Every string of the property, in order, up to the first that is not
    /// valid UTF-8; the property is empty or ends with a zero byte.
    pub fn all(self) -> (r: Vec<&'a str>)
        requires
            terminated(self.data@),
        ensures
            ({
                let want = valid_prefix(cstrs(self.data@));
                &&& r@.len() == want.len()
                &&& forall|i: int| 0 <= i < r@.len() ==> (#[trigger] r@[i]).spec_bytes() == want[i]
            }),
    {
        split_strings(self.data)
    }
}

impl<'a> Fdt<'a> {
    /// The cell sizes `node` gives its children: its `#address-cells`,
    /// two when missing, and its `#size-cells`, one when missing.
    pub fn cell_sizes(&self, node: FdtNode) -> (r: CellSizes)
        requires
            self.blocks_ok(),
            self.readable_node(node),
        ensures
            r.address_cells == cells_of(self.value_named(node, "#address-cells".spec_bytes()), 2),
            r.size_cells == cells_of(self.value_named(node, "#size-cells".spec_bytes()), 1),
    {
        let a = self.cells(node, "#address-cells".as_bytes(), 2);
        let z = self.cells(node, "#size-cells".as_bytes(), 1);
        CellSizes { address_cells: a, size_cells: z }
    }

    /// The first word of the property `name` of `node`, or `default`.
    fn cells(&self, node: FdtNode, name: &[u8], default: usize) -> (r: usize)
        requires
            self.blocks_ok(),
            self.readable_node(node),
        ensures
            r == cells_of(self.value_named(node, name@), default as int),
    {
        match self.property_value(node, name) {
            Some(v) => {
                proof {
                    lemma_be_word(v@, 0);
                    assert(v@.subrange(0, v@.len() as int) =~= v@);
                }
                match BigEndianU32::from_bytes(v) {
                    Some(w) => w.get() as usize,
                    None => default,
                }
            },
            None => default,
        }
    }
}

impl<'a> Root<'a> {
    /// The cell sizes the root gives its children.
    pub fn cell_sizes(self) -> (r: CellSizes)
        requires
            self.fdt.blocks_ok(),
            self.fdt.readable_node(self.node),
        ensures
            r.address_cells == cells_of(self.fdt.value_named(self.node, "#address-cells".spec_bytes()), 2),
            r.size_cells == cells_of(self.fdt.value_named(self.node, "#size-cells".spec_bytes()), 1),
    {
        self.fdt.cell_sizes(self.node)
    }

    /// The root's `compatible` property, which must exist.
    pub fn compatible(self) -> (r: Compatible<'a>)
        requires
            self.fdt.blocks_ok(),
            self.fdt.readable_node(self.node),
            self.fdt.value_named(self.node, "compatible".spec_bytes()) is Some,
        ensures
            r.data@ == self.fdt.value_named(self.node, "compatible".spec_bytes()).unwrap(),
    {
        match self.fdt.property_value(self.node, "compatible".as_bytes()) {
            Some(data) => Compatible { data },
            None => {
                proof {
                    assert(false);
                }
                Compatible { data: self.fdt.data }
            },
        }
    }
}

impl<'a> Cpu<'a> {
    /// The ids in the CPU node's `reg` property, which must exist, each of
    /// as many cells as the node's `#address-cells` says.
    pub fn ids(self) -> (r: CpuIds<'a>)
        requires
            self.fdt.blocks_ok(),
            self.fdt.readable_node(self.node),
            self.fdt.value_named(self.node, "reg".spec_bytes()) is Some,
        ensures
            r.reg.name.spec_bytes() == "reg".spec_bytes(),
            r.reg.value@ == self.fdt.value_named(self.node, "reg".spec_bytes()).unwrap(),
            r.address_cells == cells_of(self.fdt.value_named(self.node, "#address-cells".spec_bytes()), 2),
    {
        let cells = self.fdt.cell_sizes(self.node);
        let value = match self.fdt.property_value(self.node, "reg".as_bytes()) {
            Some(v) => v,
            None => {
                proof {
                    assert(false);
                }
                self.fdt.data
            },
        };
        CpuIds { reg: NodeProperty { name: "reg", value }, address_cells: cells.address_cells }
    }
}

impl<'a> Fdt<'a> {
    /// Every node of the tree in structure order, from the root that begins
    /// the structure block, each given by the offset of its contents.
    pub fn all_nodes(&self) -> (r: Vec<FdtNode>)
        requires
            self.blocks_ok(),
            kids(self.struct_bytes(), 0, 0, Seq::empty(), true) is Some,
        ensures
            r@ == kids(self.struct_bytes(), 0, 0, Seq::empty(), true).unwrap(),
    {
        let block = self.structs_block();
        let none: [u8; 0] = [];
        proof {
            assert(none@ =~= Seq::<u8>::empty());
        }
        collect_kids(block, 0, none.as_slice(), true)
    }
}

/// Whether one of the strings that `split_strings` gives of the value `v`
/// is one of `with`.
pub open spec fn compatible_with(v: Option<Seq<u8>>, with: Seq<&str>) -> bool {
    match v {
        Some(v) => exists|i: int, j: int|
            0 <= i < valid_prefix(cstrs(v)).len() && 0 <= j < with.len() && #[trigger] valid_prefix(
                cstrs(v),
            )[i] == (#[trigger] with[j]).spec_bytes(),
        None => false,
    }
}

/// Whether one of `strs` is one of `with`.
fn any_listed(strs: &Vec<&str>, with: &[&str]) -> (r: bool)
    ensures
        r == exists|i: int, j: int|
            0 <= i < strs@.len() && 0 <= j < with@.len() && (#[trigger] strs@[i]).spec_bytes() == (
            #[trigger] with@[j]).spec_bytes(),
{
    let mut i: usize = 0;
    while i < strs.len()
        invariant
            i <= strs@.len(),
            forall|a: int, b: int|
                0 <= a < i && 0 <= b < with@.len() ==> (#[trigger] strs@[a]).spec_bytes() != (
                #[trigger] with@[b]).spec_bytes(),
        decreases strs@.len() - i,
    {
        let mut j: usize = 0;
        while j < with.len()
            invariant
                i < strs@.len(),
                j <= with@.len(),
                forall|a: int, b: int|
                    0 <= a < i && 0 <= b < with@.len() ==> (#[trigger] strs@[a]).spec_bytes() != (
                    #[trigger] with@[b]).spec_bytes(),
                forall|b: int| 0 <= b < j ==> strs@[i as int].spec_bytes() != (#[trigger] with@[b]).spec_bytes(),
            decreases with@.len() - j,
        {
            if bytes_equal(strs[i].as_bytes(), with[j].as_bytes()) {
                return true;
            }
            j = j + 1;
        }
        i = i + 1;
    }
    false
}

impl<'a> Fdt<'a> {
    /// The first of `nodes`, from index `k` on, whose `compatible` property
    /// lists one of `with`.
    pub open spec fn first_compatible(&self, nodes: Seq<FdtNode>, with: Seq<&str>, k: int) -> Option<FdtNode>
        decreases nodes.len() - k,
    {
        if k < 0 || k >= nodes.len() {
            None
        } else if compatible_with(self.value_named(nodes[k], "compatible".spec_bytes()), with) {
            Some(nodes[k])
        } else {
            self.first_compatible(nodes, with, k + 1)
        }
    }

    /// Whether every node of the tree can be read and its `compatible`
    /// property, where it has one, ends with a zero byte.
    pub open spec fn compatibles_ok(&self) -> bool {
        let nodes = kids(self.struct_bytes(), 0, 0, Seq::empty(), true);
        &&& nodes is Some
        &&& forall|k: int|
            0 <= k < nodes.unwrap().len() ==> {
                &&& self.readable_node(#[trigger] nodes.unwrap()[k])
                &&& self.value_named(nodes.unwrap()[k], "compatible".spec_bytes()) matches Some(v) ==> terminated(v)
            }
    }

    /// The first node, in structure order, whose `compatible` property
    /// lists one of `with`.
    pub fn find_compatible(&self, with: &[&str]) -> (r: Option<FdtNode>)
        requires
            self.blocks_ok(),
            self.compatibles_ok(),
        ensures
            r == self.first_compatible(kids(self.struct_bytes(), 0, 0, Seq::empty(), true).unwrap(), with@, 0),
    {
        let nodes = self.all_nodes();
        let ghost all = nodes@;
        let mut k: usize = 0;
        while k < nodes.len()
            invariant
                self.blocks_ok(),
                self.compatibles_ok(),
                all == nodes@,
                all == kids(self.struct_bytes(), 0, 0, Seq::empty(), true).unwrap(),
                k <= nodes@.len(),
                self.first_compatible(all, with@, 0) == self.first_compatible(all, with@, k as int),
            decreases nodes@.len() - k,
        {
            let node = nodes[k];
            proof {
                assert(self.readable_node(all[k as int]));
            }
            match self.property_value(node, "compatible".as_bytes()) {
                Some(v) => {
                    let strs = split_strings(v);
                    if any_listed(&strs, with) {
                        proof {
                            let (i, j) = choose|i: int, j: int|
                                0 <= i < strs@.len() && 0 <= j < with@.len() && (#[trigger] strs@[i]).spec_bytes() == (
                                #[trigger] with@[j]).spec_bytes();
                            assert(valid_prefix(cstrs(v@))[i] == with@[j].spec_bytes());
                        }
                        return Some(node);
                    }
                    proof {
                        if compatible_with(Some(v@), with@) {
                            let (i, j) = choose|i: int, j: int|
                                0 <= i < valid_prefix(cstrs(v@)).len() && 0 <= j < with@.len() && #[trigger] valid_prefix(
                                    cstrs(v@),
                                )[i] == (#[trigger] with@[j]).spec_bytes();
                            assert(strs@[i].spec_bytes() == with@[j].spec_bytes());
                        }
                    }
                },
                None => {},
            }
            k = k + 1;
        }
        None
    }
}

} // verus!
