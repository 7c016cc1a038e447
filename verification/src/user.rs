//! Pointers and slices that user code hands the kernel, and their
//! validation against the user's address space: aligned, mapped, and with
//! the rights the access needs on every page.
use vstd::prelude::*;
use core::marker::PhantomData;
use crate::manager::{cover_end, cover_start, page_at, page_count, InvalidRegion, MemoryManager};
use crate::paging::entry::{added, in_kernel_half, sign_extend, VirtualAddress};
use crate::paging::flags::{has_all, Flags, READ, WRITE};

verus! {

/// Why a user pointer may not be used.
#[derive(Debug, Clone, Copy, PartialEq, Eq, Structural)]
pub enum InvalidUserPtr {
    InvalidAccess,
    NotMapped,
    Unaligned,
}

/// The kind of access a user pointer is for, and the flags it needs.
pub trait UserPtrMode {
    /// The flags every page must have.
    spec fn required() -> u8;

    /// The flags every page must have.
    fn flags() -> (r: Flags)
        ensures
            r.bits() == Self::required(),
    ;
}

/// Access for reading.
pub struct Read;

impl UserPtrMode for Read {
    open spec fn required() -> u8 {
        READ
    }

    fn flags() -> (r: Flags) {
        Flags::READ()
    }
}

/// Access for reading and writing.
pub struct ReadWrite;

impl UserPtrMode for ReadWrite {
    open spec fn required() -> u8 {
        READ | WRITE
    }

    fn flags() -> (r: Flags) {
        Flags::READ().bitor(Flags::WRITE())
    }
}

/// Whether the page at `v` may be accessed with `required` flags: in the
/// user half, mapped, and with every required flag.
pub open spec fn user_page_ok(m: &MemoryManager, v: u64, required: u8) -> bool {
    &&& !in_kernel_half(v)
    &&& m.walk(v) is Leaf
    &&& has_all(m.leaf_flags(v).bits(), required)
}

/// Whether every page that covers `[start, end)` may be accessed.
pub open spec fn user_span_ok(m: &MemoryManager, start: u64, end: u64, required: u8) -> bool {
    forall|k: int|
        0 <= k < page_count(cover_start(start), cover_end(end)) ==> user_page_ok(
            m,
            #[trigger] sign_extend(page_at(cover_start(start), k) as u64),
            required,
        )
}

/// Whether the first page covering `[start, end)` that may not be accessed
/// is at `page` and fails for `reason`: outside the user half or without a
/// required flag is an invalid access, unmapped is not mapped.
pub open spec fn user_span_fails(
    m: &MemoryManager,
    start: u64,
    end: u64,
    required: u8,
    page: u64,
    reason: InvalidUserPtr,
) -> bool {
    exists|k: int|
        0 <= k < page_count(cover_start(start), cover_end(end)) && page == #[trigger] sign_extend(
            page_at(cover_start(start), k) as u64,
        ) && (forall|j: int|
            0 <= j < k ==> user_page_ok(
                m,
                #[trigger] sign_extend(page_at(cover_start(start), j) as u64),
                required,
            )) && match reason {
            InvalidUserPtr::InvalidAccess => in_kernel_half(page) || (m.walk(page) is Leaf && !has_all(
                m.leaf_flags(page).bits(),
                required,
            )),
            InvalidUserPtr::NotMapped => !in_kernel_half(page) && m.walk(page) is Unmapped,
            InvalidUserPtr::Unaligned => false,
        }
}

/// Whether the pages covering `[start, end)` that lie in the user half all
/// have walks that end at a leaf or find no page.
pub open spec fn span_walkable(m: &MemoryManager, start: u64, end: u64) -> bool {
    forall|k: int|
        0 <= k < page_count(cover_start(start), cover_end(end)) && !in_kernel_half(
            #[trigger] sign_extend(page_at(cover_start(start), k) as u64),
        ) ==> !(m.walk(sign_extend(page_at(cover_start(start), k) as u64)) is Broken)
}

/// Checks the pages covering `[start, end)` for `required` flags and maps
/// the manager's answer to the pointer's errors.
fn check_span<Mode: UserPtrMode>(manager: &MemoryManager, start: VirtualAddress, end: VirtualAddress) -> (r: Result<(), (VirtualAddress, InvalidUserPtr)>)
    requires
        manager.wf(),
        end.value() % 0x1000 != 0 ==> end.value() - end.value() % 0x1000 + 0x1000 <= u64::MAX,
        span_walkable(manager, start.value(), end.value()),
    ensures
        match r {
                Ok(()) => user_span_ok(manager, start.value(), end.value(), Mode::required()),
                Err((page, reason)) => user_span_fails(
                    manager,
                    start.value(),
                    end.value(),
                    Mode::required(),
                    page.value(),
                    reason,
                ),
            },
{
    let required = Mode::flags();
    let check = |fl: Flags| -> (b: bool)
        ensures
            b == has_all(fl.bits(), required.bits()),
        { fl.bitand(required) };
    let result = manager.is_user_region_valid(start..end, check);
    let ghost cs = cover_start(start.value());
    let ghost n = page_count(cs, cover_end(end.value()));
    proof {
        assert forall|k: int| 0 <= k < n && manager.page_passes(#[trigger] sign_extend(page_at(cs, k) as u64), check)
            implies user_page_ok(manager, sign_extend(page_at(cs, k) as u64), required.bits()) by {
            let v = sign_extend(page_at(cs, k) as u64);
            let b = choose|b: bool| check.ensures((manager.leaf_flags(v),), b) && b;
        }
    }
    match result {
        Ok(()) => Ok(()),
        Err((page, InvalidRegion::NotMapped)) => Err((page, InvalidUserPtr::NotMapped)),
        Err((page, InvalidRegion::InvalidPermissions)) => {
            proof {
                let v = page.value();
                if !in_kernel_half(v) {
                    let b = choose|b: bool| check.ensures((manager.leaf_flags(v),), b) && !b;
                }
            }
            Err((page, InvalidUserPtr::InvalidAccess))
        },
    }
}

/// A pointer to a `T` that user code handed over, not checked yet.
pub struct RawUserPtr<Mode: UserPtrMode, T> {
    addr: VirtualAddress,
    typ: PhantomData<T>,
    mode: PhantomData<Mode>,
}

/// A user pointer whose pages were found mapped with the mode's flags.
pub struct ValidatedUserPtr<Mode: UserPtrMode, T> {
    addr: VirtualAddress,
    typ: PhantomData<T>,
    mode: PhantomData<Mode>,
}

impl<Mode: UserPtrMode, T> ValidatedUserPtr<Mode, T> {
    /// The address pointed to.
    pub closed spec fn address(&self) -> VirtualAddress {
        self.addr
    }
}

impl<Mode: UserPtrMode, T> RawUserPtr<Mode, T> {
    /// The address pointed to.
    pub closed spec fn address(&self) -> VirtualAddress {
        self.addr
    }

    /// The pointer to `addr`.
    pub fn new(addr: VirtualAddress) -> (r: Self)
        ensures
            r.address() == addr,
    {
        RawUserPtr { addr, typ: PhantomData, mode: PhantomData }
    }

    /// Checks the pointer against `manager`: it must be aligned for `T`,
    /// and the pages covering the `T` it points to must be mapped with the
    /// mode's flags.
    pub fn validate(self, manager: &MemoryManager) -> (r: Result<ValidatedUserPtr<Mode, T>, InvalidUserPtr>)
        requires
            manager.wf(),
            added(self.address().value(), vstd::layout::size_of::<T>() as u64).is_some(),
            vstd::layout::size_of::<T>() <= u64::MAX,
            ({
                let end = added(self.address().value(), vstd::layout::size_of::<T>() as u64).unwrap();
                &&& end - end % 0x1000 + 0x1000 <= u64::MAX
                &&& span_walkable(manager, self.address().value(), end)
            }),
        ensures
            ({
                let a = self.address().value();
                let end = added(a, vstd::layout::size_of::<T>() as u64).unwrap();
                if (a as nat) % vstd::layout::align_of::<T>() != 0 {
                    r == Err::<ValidatedUserPtr<Mode, T>, InvalidUserPtr>(InvalidUserPtr::Unaligned)
                } else {
                    match r {
                            Ok(p) => p.address() == self.address() && user_span_ok(
                                manager,
                                a,
                                end,
                                Mode::required(),
                            ),
                            Err(e) => exists|page: u64|
                                user_span_fails(manager, a, end, Mode::required(), page, e),
                        }
                }
            }),
    {
        vstd::layout::layout_for_type_is_valid::<T>();
        let align = core::mem::align_of::<T>() as u64;
        if self.addr.as_usize() % align != 0 {
            return Err(InvalidUserPtr::Unaligned);
        }
        let size = core::mem::size_of::<T>() as u64;
        let end = self.addr.add(size);
        match check_span::<Mode>(manager, self.addr, end) {
            Ok(()) => Ok(ValidatedUserPtr { addr: self.addr, typ: PhantomData, mode: PhantomData }),
            Err((_, e)) => Err(e),
        }
    }
}

impl<T> RawUserPtr<Read, T> {
    /// A pointer to read through.
    pub fn readable(addr: VirtualAddress) -> (r: Self)
        ensures
            r.address() == addr,
    {
        RawUserPtr { addr, typ: PhantomData, mode: PhantomData }
    }
}

impl<T> RawUserPtr<ReadWrite, T> {
    /// A pointer to read and write through.
    pub fn writable(addr: VirtualAddress) -> (r: Self)
        ensures
            r.address() == addr,
    {
        RawUserPtr { addr, typ: PhantomData, mode: PhantomData }
    }
}

/// A slice of `len` values of `T` that user code handed over, not checked
/// yet.
pub struct RawUserSlice<Mode: UserPtrMode, T> {
    addr: VirtualAddress,
    len: usize,
    typ: PhantomData<T>,
    mode: PhantomData<Mode>,
}

/// A user slice whose pages were found mapped with the mode's flags.
pub struct ValidatedUserSlice<Mode: UserPtrMode, T> {
    addr: VirtualAddress,
    len: usize,
    typ: PhantomData<T>,
    mode: PhantomData<Mode>,
}

impl<Mode: UserPtrMode, T> ValidatedUserSlice<Mode, T> {
    /// The start of the slice.
    pub closed spec fn address(&self) -> VirtualAddress {
        self.addr
    }

    /// The number of values.
    pub closed spec fn length(&self) -> usize {
        self.len
    }

    /// The number of values.
    pub fn len(&self) -> (r: usize)
        ensures
            r == self.length(),
    {
        self.len
    }
}

impl<Mode: UserPtrMode, T> RawUserSlice<Mode, T> {
    /// The start of the slice.
    pub closed spec fn address(&self) -> VirtualAddress {
        self.addr
    }

    /// The number of values.
    pub closed spec fn length(&self) -> usize {
        self.len
    }

    /// The slice of `len` values at `addr`.
    pub fn new(addr: VirtualAddress, len: usize) -> (r: Self)
        ensures
            r.address() == addr,
            r.length() == len,
    {
        RawUserSlice { addr, len, typ: PhantomData, mode: PhantomData }
    }

    /// Checks the slice against `manager`: it must be aligned for `T`; an
    /// empty slice needs nothing more; else the pages covering its values
    /// must be mapped with the mode's flags. The error names the first page
    /// that failed, or the start when unaligned.
    pub fn validate(self, manager: &MemoryManager) -> (r: Result<
        ValidatedUserSlice<Mode, T>,
        (VirtualAddress, InvalidUserPtr),
    >)
        requires
            manager.wf(),
            self.length() * vstd::layout::size_of::<T>() <= u64::MAX,
            added(self.address().value(), (self.length() * vstd::layout::size_of::<T>()) as u64).is_some(),
            ({
                let end = added(
                    self.address().value(),
                    (self.length() * vstd::layout::size_of::<T>()) as u64,
                ).unwrap();
                &&& end - end % 0x1000 + 0x1000 <= u64::MAX
                &&& span_walkable(manager, self.address().value(), end)
            }),
        ensures
            ({
                let a = self.address().value();
                let end = added(a, (self.length() * vstd::layout::size_of::<T>()) as u64).unwrap();
                if (a as nat) % vstd::layout::align_of::<T>() != 0 {
                    r == Err::<ValidatedUserSlice<Mode, T>, (VirtualAddress, InvalidUserPtr)>(
                        (self.address(), InvalidUserPtr::Unaligned),
                    )
                } else if self.length() == 0 {
                    r.is_ok() && r.unwrap().address() == self.address() && r.unwrap().length() == 0
                } else {
                    match r {
                            Ok(s) => s.address() == self.address() && s.length() == self.length()
                                && user_span_ok(manager, a, end, Mode::required()),
                            Err((page, e)) => user_span_fails(
                                manager,
                                a,
                                end,
                                Mode::required(),
                                page.value(),
                                e,
                            ),
                        }
                }
            }),
    {
        vstd::layout::layout_for_type_is_valid::<T>();
        let align = core::mem::align_of::<T>() as u64;
        if self.addr.as_usize() % align != 0 {
            return Err((self.addr, InvalidUserPtr::Unaligned));
        }
        if self.len == 0 {
            return Ok(ValidatedUserSlice { addr: self.addr, len: self.len, typ: PhantomData, mode: PhantomData });
        }
        let size = core::mem::size_of::<T>() as u64;
        proof {
            assert((self.len as u64) * size <= u64::MAX) by (nonlinear_arith)
                requires
                    size == vstd::layout::size_of::<T>(),
                    self.length() * vstd::layout::size_of::<T>() <= u64::MAX,
                    self.len == self.length(),
            ;
        }
        let bytes = (self.len as u64) * size;
        let end = self.addr.add(bytes);
        match check_span::<Mode>(manager, self.addr, end) {
            Ok(()) => Ok(ValidatedUserSlice { addr: self.addr, len: self.len, typ: PhantomData, mode: PhantomData }),
            Err(e) => Err(e),
        }
    }

    /// The number of values.
    pub fn len(&self) -> (r: usize)
        ensures
            r == self.length(),
    {
        self.len
    }

    /// The start of the slice.
    pub fn addr(&self) -> (r: VirtualAddress)
        ensures
            r == self.address(),
    {
        self.addr
    }

    /// Whether the slice has no values.
    pub fn is_empty(&self) -> (r: bool)
        ensures
            r == (self.length() == 0),
    {
        self.len() == 0
    }
}

impl<T> RawUserSlice<Read, T> {
    /// A slice to read.
    pub fn readable(addr: VirtualAddress, len: usize) -> (r: Self)
        ensures
            r.address() == addr,
            r.length() == len,
    {
        RawUserSlice { addr, len, typ: PhantomData, mode: PhantomData }
    }
}

impl<T> RawUserSlice<ReadWrite, T> {
    /// A slice to read and write.
    pub fn writable(addr: VirtualAddress, len: usize) -> (r: Self)
        ensures
            r.address() == addr,
            r.length() == len,
    {
        RawUserSlice { addr, len, typ: PhantomData, mode: PhantomData }
    }
}

} // verus!
