//! Exclusive host backing, explicit guest coordinates, and live reservations.
//!
//! This ledger is a staging/lifetime contract, not a hardware memory map or a
//! runtime access-control policy. Purpose tags do not authenticate provider data.
use vstd::prelude::*;
use vstd::assert_seqs_equal;

use core::sync::atomic::AtomicU64;

use crate::runtime_dt::MaterializedTree;

verus! {

pub const MAX_RESERVATIONS: usize = 64;

#[derive(Clone, Copy, Debug, PartialEq, Eq, Structural)]
pub enum Error {
    EmptyBacking,
    ArithmeticOverflow,
    IdentityExhausted,
    GenerationExhausted,
    InvalidSize,
    InvalidAlignment,
    UnalignedAddress,
    OutsideAperture,
    Overlap,
    ReservationLimit,
    NoSpace,
    ForeignOwner,
    ReleasedReservation,
    StaleSnapshot,
    WrongPurpose,
    DestinationCapacity,
}

#[derive(Clone, Copy, Debug, PartialEq, Eq, Structural)]
pub enum Purpose {
    KernelImage,
    BootArguments,
    RuntimeDeviceTree,
    Stack,
    TranslationTables,
    ProviderData,
}

/// Observed length in a caller-selected guest coordinate system.
#[derive(Clone, Copy, Debug, PartialEq, Eq, Structural)]
pub struct Extent {
    address: u64,
    bytes: u64,
}

impl Extent {
    pub closed spec fn spec_address(self) -> u64 {
        self.address
    }

    pub closed spec fn spec_bytes(self) -> u64 {
        self.bytes
    }

    pub open spec fn spec_end(self) -> int {
        self.spec_address() + self.spec_bytes()
    }

    pub fn address(self) -> (r: u64)
        ensures
            r == self.spec_address(),
    {
        self.address
    }

    pub fn bytes(self) -> (r: u64)
        ensures
            r == self.spec_bytes(),
    {
        self.bytes
    }

    pub fn end(self) -> (r: u64)
        requires
            self.spec_end() <= u64::MAX,
        ensures
            r == self.spec_end(),
    {
        // Every Extent is constructed after checking this addition.
        self.address + self.bytes
    }
}

/// An opaque, process-local reference to one live reservation. Not serializable.
#[derive(Clone, Copy, Debug, PartialEq, Eq, Structural)]
pub struct ReservationToken {
    owner: u64,
    serial: u64,
}

impl ReservationToken {
    pub closed spec fn spec_owner(self) -> u64 {
        self.owner
    }

    pub closed spec fn spec_serial(self) -> u64 {
        self.serial
    }
}

#[derive(Clone, Copy, Debug, PartialEq, Eq, Structural)]
pub struct SnapshotStamp {
    owner: u64,
    generation: u64,
}

impl SnapshotStamp {
    pub closed spec fn spec_owner(self) -> u64 {
        self.owner
    }

    pub closed spec fn spec_generation(self) -> u64 {
        self.generation
    }
}

#[derive(Clone, Copy, Debug, PartialEq, Eq, Structural)]
pub struct ReservationRecord {
    token: ReservationToken,
    extent: Extent,
    alignment: u64,
    purpose: Purpose,
}

impl ReservationRecord {
    pub closed spec fn spec_token(self) -> ReservationToken {
        self.token
    }

    pub closed spec fn spec_extent(self) -> Extent {
        self.extent
    }

    pub closed spec fn spec_alignment(self) -> u64 {
        self.alignment
    }

    pub closed spec fn spec_purpose(self) -> Purpose {
        self.purpose
    }

    pub fn token(self) -> (r: ReservationToken)
        ensures
            r == self.spec_token(),
    {
        self.token
    }

    pub fn extent(self) -> (r: Extent)
        ensures
            r == self.spec_extent(),
    {
        self.extent
    }

    pub fn alignment(self) -> (r: u64)
        ensures
            r == self.spec_alignment(),
    {
        self.alignment
    }

    pub fn purpose(self) -> (r: Purpose)
        ensures
            r == self.spec_purpose(),
    {
        self.purpose
    }
}

/// Borrows actual live records; a detached stamp must be revalidated before use.
pub struct AllocationSnapshot<'a> {
    aperture: Extent,
    stamp: SnapshotStamp,
    records: &'a [Option<ReservationRecord>; 64],
}

impl AllocationSnapshot<'_> {
    pub closed spec fn spec_aperture(&self) -> Extent {
        self.aperture
    }

    pub closed spec fn spec_stamp(&self) -> SnapshotStamp {
        self.stamp
    }

    pub closed spec fn spec_records(&self) -> Seq<Option<ReservationRecord>> {
        self.records@
    }

    pub fn aperture(&self) -> (r: Extent)
        ensures
            r == self.spec_aperture(),
    {
        self.aperture
    }

    pub fn stamp(&self) -> (r: SnapshotStamp)
        ensures
            r == self.spec_stamp(),
    {
        self.stamp
    }

    pub fn generation(&self) -> (r: u64)
        ensures
            r == self.spec_stamp().spec_generation(),
    {
        self.stamp.generation
    }

    /// The live records, in slot order.
    pub fn records(&self) -> (r: Vec<ReservationRecord>)
        ensures
            r@ == live_records(self.spec_records()),
    {
        let mut out: Vec<ReservationRecord> = Vec::new();
        let mut i: usize = 0;
        while i < 64
            invariant
                i <= 64,
                self.records@.len() == 64,
                out@ == live_records(self.records@.subrange(0, i as int)),
            decreases 64 - i,
        {
            proof {
                let s = self.records@.subrange(0, i + 1);
                assert(s.drop_last() =~= self.records@.subrange(0, i as int));
            }
            if let Some(record) = self.records[i] {
                out.push(record);
            }
            i = i + 1;
        }
        assert(self.records@.subrange(0, 64) =~= self.records@);
        out
    }
}

/// The `Some` entries of a slot table, in slot order.
pub open spec fn live_records(s: Seq<Option<ReservationRecord>>) -> Seq<ReservationRecord>
    decreases s.len(),
{
    if s.len() == 0 {
        seq![]
    } else {
        let rest = live_records(s.drop_last());
        match s.last() {
            Some(r) => rest.push(r),
            None => rest,
        }
    }
}

pub enum Backing<'a> {
    Owned(Box<[u8]>),
    Borrowed(&'a mut [u8]),
}

impl<'a> Backing<'a> {
    pub closed spec fn view_bytes(&self) -> Seq<u8> {
        match self {
            Backing::Owned(b) => b@,
            Backing::Borrowed(b) => b@,
        }
    }

    pub fn bytes(&self) -> (r: &[u8])
        ensures
            r@ == self.view_bytes(),
    {
        match self {
            Backing::Owned(b) => b,
            Backing::Borrowed(b) => b,
        }
    }

    fn bytes_mut(&mut self) -> (r: &mut [u8])
        ensures
            r@ == old(self).view_bytes(),
            final(self).view_bytes() == final(r)@,
    {
        match self {
            Backing::Owned(b) => &mut **b,
            Backing::Borrowed(b) => &mut **b,
        }
    }

    fn len(&self) -> (r: usize)
        ensures
            r == self.view_bytes().len(),
    {
        match self {
            Backing::Owned(b) => b.len(),
            Backing::Borrowed(b) => b.len(),
        }
    }

    fn copy_at(&mut self, at: usize, src: &[u8])
        requires
            at + src@.len() <= old(self).view_bytes().len(),
        ensures
            final(self).view_bytes() == old(self).view_bytes().subrange(0, at as int) + src@
                + old(self).view_bytes().subrange(
                at + src@.len(),
                old(self).view_bytes().len() as int,
            ),
    {
        match self {
            Backing::Owned(b) => crate::bytes::copy_into(b, at, src),
            Backing::Borrowed(b) => crate::bytes::copy_into(b, at, src),
        }
    }
}

/// Owns a fixed allocation or an exclusive lifetime-bound loan from its owner.
pub struct GuestMemory<'a> {
    pub backing: Backing<'a>,
    pub aperture: Extent,
    pub owner: u64,
    pub generation: u64,
    pub reservations: [Option<ReservationRecord>; 64],
}

/// Immutable prepared bytes bound to one ledger generation and destination.
#[derive(Debug)]
pub struct PreparedDeviceTree<'source> {
    tree: MaterializedTree<'source>,
    stamp: SnapshotStamp,
    destination: ReservationToken,
}

impl PreparedDeviceTree<'_> {
    pub closed spec fn spec_bytes(&self) -> Seq<u8> {
        self.tree.spec_bytes()
    }

    pub closed spec fn spec_stamp(&self) -> SnapshotStamp {
        self.stamp
    }

    pub closed spec fn spec_source_sha256(&self) -> Seq<u8> {
        self.tree.spec_source_sha256()
    }

    pub closed spec fn spec_destination(&self) -> ReservationToken {
        self.destination
    }

    pub fn bytes(&self) -> (r: &[u8])
        ensures
            r@ == self.spec_bytes(),
    {
        self.tree.bytes()
    }

    pub fn source_sha256(&self) -> (r: [u8; 32])
        ensures
            r@ == self.spec_source_sha256(),
    {
        self.tree.source_sha256()
    }
}

/// The identity after `current`, if one is left: identities never wrap.
fn next_identity(current: u64) -> (r: Option<u64>)
    ensures
        current < u64::MAX ==> r == Some((current + 1) as u64),
        current == u64::MAX ==> r is None,
{
    current.checked_add(1)
}

/// `AtomicU64::fetch_update` with `next_identity` as the update. The value depends on
/// every earlier update of the counter; `fetch_update` returns `Ok` of the value it
/// replaced where the update gave `Some`, and `Err` of the current value where it gave
/// `None`, which `next_identity` does only at the maximum.
#[verifier::external_body]
fn fetch_checked_increment(counter: &AtomicU64) -> (r: Result<u64, u64>)
    ensures
        r matches Ok(v) ==> v < u64::MAX,
        r matches Err(v) ==> v == u64::MAX,
{
    counter.fetch_update(
        core::sync::atomic::Ordering::Relaxed,
        core::sync::atomic::Ordering::Relaxed,
        |next| next_identity(next),
    )
}

/// Take the next process-local identity from `counter`, never wrapping.
pub fn mint_owner(counter: &AtomicU64) -> (r: Result<u64, Error>)
    ensures
        r matches Ok(v) ==> v < u64::MAX,
        r matches Err(e) ==> e == Error::IdentityExhausted,
{
    match fetch_checked_increment(counter) {
        Ok(v) => Ok(v),
        Err(_) => Err(Error::IdentityExhausted),
    }
}

pub open spec fn is_pow2(a: u64) -> bool {
    a != 0 && a & ((a - 1) as u64) == 0
}

/// The smallest multiple of `alignment` at or above `address`.
pub open spec fn aligned_up(address: int, alignment: int) -> int {
    (address + alignment - 1) - (address + alignment - 1) % alignment
}

fn validate_request(bytes: u64, alignment: u64) -> (r: Result<(), Error>)
    ensures
        bytes == 0 ==> r == Err::<(), Error>(Error::InvalidSize),
        bytes != 0 && !is_pow2(alignment) ==> r == Err::<(), Error>(Error::InvalidAlignment),
        bytes != 0 && is_pow2(alignment) ==> r is Ok,
{
    if bytes == 0 {
        return Err(Error::InvalidSize);
    }
    if alignment == 0 || alignment & (alignment - 1) != 0 {
        return Err(Error::InvalidAlignment);
    }
    Ok(())
}

proof fn lemma_aligned_up(address: int, alignment: int, m: int)
    requires
        alignment > 0,
        address >= 0,
    ensures
        aligned_up(address, alignment) % alignment == 0,
        address <= aligned_up(address, alignment) <= address + alignment - 1,
        m % alignment == 0 && m >= address ==> m >= aligned_up(address, alignment),
{
    let v = address + alignment - 1;
    let q = v / alignment;
    let r = v % alignment;
    assert(v == q * alignment + r && 0 <= r < alignment) by (nonlinear_arith)
        requires
            alignment > 0,
            q == v / alignment,
            r == v % alignment,
    ;
    assert((q * alignment) % alignment == 0) by (nonlinear_arith)
        requires
            alignment > 0,
    ;
    if m % alignment == 0 && m >= address {
        let k = m / alignment;
        assert(m == k * alignment) by (nonlinear_arith)
            requires
                alignment > 0,
                m % alignment == 0,
                k == m / alignment,
        ;
        assert(k * alignment > q * alignment - alignment);
        assert(k >= q) by (nonlinear_arith)
            requires
                alignment > 0,
                k * alignment > q * alignment - alignment,
        ;
        assert(k * alignment >= q * alignment) by (nonlinear_arith)
            requires
                alignment > 0,
                k >= q,
        ;
    }
}

/// A multiple of a power of two leaves room below 2^64 for the power less one.
proof fn lemma_multiple_has_room(a: u64, alignment: u64)
    requires
        is_pow2(alignment),
        a % alignment == 0,
    ensures
        a + alignment - 1 <= u64::MAX,
{
    assert(alignment != 0 && alignment & ((alignment - 1) as u64) == 0 && a % alignment == 0 ==> a + (alignment - 1)
        <= 0xffff_ffff_ffff_ffffu64) by (bit_vector);
}

fn align_up(address: u64, alignment: u64) -> (r: Result<u64, Error>)
    requires
        alignment > 0,
    ensures
        address + alignment - 1 > u64::MAX ==> r == Err::<u64, Error>(Error::ArithmeticOverflow),
        address + alignment - 1 <= u64::MAX ==> r == Ok::<u64, Error>(
            aligned_up(address as int, alignment as int) as u64,
        ),
{
    match address.checked_add(alignment - 1) {
        Some(v) => Ok(v - v % alignment),
        None => Err(Error::ArithmeticOverflow),
    }
}

/// A slot holds the live record of `token` over `[address, address + bytes)`.
pub open spec fn record_is(
    slot: Option<ReservationRecord>,
    token: ReservationToken,
    address: u64,
    bytes: u64,
    alignment: u64,
    purpose: Purpose,
) -> bool {
    slot matches Some(r) && r.spec_token() == token && r.spec_extent().spec_address() == address
        && r.spec_extent().spec_bytes() == bytes && r.spec_alignment() == alignment && r.spec_purpose() == purpose
}

/// Two half-open guest ranges share a byte.
pub open spec fn ranges_overlap(a: int, a_end: int, b: int, b_end: int) -> bool {
    a < b_end && b < a_end
}

impl<'a> GuestMemory<'a> {
    pub closed spec fn ram(&self) -> Seq<u8> {
        self.backing.view_bytes()
    }

    pub closed spec fn records(&self) -> Seq<Option<ReservationRecord>> {
        self.reservations@
    }

    pub closed spec fn spec_aperture(&self) -> Extent {
        self.aperture
    }

    pub closed spec fn spec_generation(&self) -> u64 {
        self.generation
    }

    pub closed spec fn spec_owner(&self) -> u64 {
        self.owner
    }

    /// Whether a live record's guest extent overlaps `[address, end)`.
    pub open spec fn blocked(&self, address: int, end: int) -> bool {
        exists|i: int|
            0 <= i < 64 && #[trigger] self.records()[i] is Some && ranges_overlap(
                address,
                end,
                self.records()[i]->0.spec_extent().spec_address() as int,
                self.records()[i]->0.spec_extent().spec_end(),
            )
    }

    /// `[address, address + bytes)` lies in the aperture and no live record.
    pub open spec fn fits(&self, address: int, bytes: int) -> bool {
        &&& self.spec_aperture().spec_address() <= address
        &&& address + bytes <= self.spec_aperture().spec_end()
        &&& !self.blocked(address, address + bytes)
    }

    pub closed spec fn record_ok(&self, r: ReservationRecord) -> bool {
        &&& r.extent.bytes > 0
        &&& r.extent.spec_end() <= u64::MAX
        &&& self.aperture.address <= r.extent.address
        &&& r.extent.spec_end() <= self.aperture.spec_end()
        &&& is_pow2(r.alignment)
        &&& r.extent.address % r.alignment == 0
        &&& r.token.owner == self.owner
        &&& 0 < r.token.serial <= self.generation
    }

    /// The ledger invariant: the aperture describes the backing, every live
    /// record lies inside it, live records are pairwise disjoint and their
    /// tokens are pairwise distinct.
    pub closed spec fn wf(&self) -> bool {
        &&& self.aperture.bytes == self.backing.view_bytes().len()
        &&& self.aperture.bytes > 0
        &&& self.aperture.spec_end() <= u64::MAX
        &&& forall|i: int|
            0 <= i < 64 && (#[trigger] self.reservations@[i]) is Some ==> self.record_ok(
                self.reservations@[i]->0,
            )
        &&& forall|i: int, j: int|
            0 <= i < 64 && 0 <= j < 64 && i != j && (#[trigger] self.reservations@[i]) is Some
                && (#[trigger] self.reservations@[j]) is Some ==> {
                &&& !ranges_overlap(
                    self.reservations@[i]->0.extent.address as int,
                    self.reservations@[i]->0.extent.spec_end(),
                    self.reservations@[j]->0.extent.address as int,
                    self.reservations@[j]->0.extent.spec_end(),
                )
                &&& self.reservations@[i]->0.token.serial != self.reservations@[j]->0.token.serial
            }
    }

    /// The slot holding the live record of `token`, if any.
    pub open spec fn slot_of(&self, token: ReservationToken, i: int) -> bool {
        0 <= i < 64 && (self.records()[i] matches Some(r) && r.spec_token() == token)
    }

    pub open spec fn live(&self, token: ReservationToken) -> bool {
        exists|i: int| self.slot_of(token, i)
    }

    pub open spec fn record_of(&self, token: ReservationToken) -> ReservationRecord {
        self.records()[choose|i: int| self.slot_of(token, i)]->0
    }

    /// The error that looking up `token` gives, if any.
    pub open spec fn lookup_error(&self, token: ReservationToken) -> Option<Error> {
        if token.spec_owner() != self.spec_owner() {
            Some(Error::ForeignOwner)
        } else if !self.live(token) {
            Some(Error::ReleasedReservation)
        } else {
            None
        }
    }

    /// What the ledger invariant promises of its live records: each lies inside the
    /// aperture with a nonzero size and an aligned address, no two share a guest
    /// byte, and the aperture spans the backing.
    pub proof fn lemma_wf_records(&self)
        requires
            self.wf(),
        ensures
            self.spec_aperture().spec_bytes() == self.ram().len(),
            forall|i: int|
                0 <= i < 64 && (#[trigger] self.records()[i]) is Some ==> {
                    let e = self.records()[i]->0.spec_extent();
                    &&& e.spec_bytes() > 0
                    &&& self.spec_aperture().spec_address() <= e.spec_address()
                    &&& e.spec_end() <= self.spec_aperture().spec_end()
                    &&& is_pow2(self.records()[i]->0.spec_alignment())
                    &&& e.spec_address() % self.records()[i]->0.spec_alignment() == 0
                },
            forall|i: int, j: int|
                0 <= i < 64 && 0 <= j < 64 && i != j && (#[trigger] self.records()[i]) is Some
                    && (#[trigger] self.records()[j]) is Some ==> !ranges_overlap(
                    self.records()[i]->0.spec_extent().spec_address() as int,
                    self.records()[i]->0.spec_extent().spec_end(),
                    self.records()[j]->0.spec_extent().spec_address() as int,
                    self.records()[j]->0.spec_extent().spec_end(),
                ),
    {
        assert forall|i: int| 0 <= i < 64 && (#[trigger] self.records()[i]) is Some implies {
            let e = self.records()[i]->0.spec_extent();
            &&& e.spec_bytes() > 0
            &&& self.spec_aperture().spec_address() <= e.spec_address()
            &&& e.spec_end() <= self.spec_aperture().spec_end()
            &&& is_pow2(self.records()[i]->0.spec_alignment())
            &&& e.spec_address() % self.records()[i]->0.spec_alignment() == 0
        } by {
            assert(self.record_ok(self.reservations@[i]->0));
        }
    }

    /// The first free slot.
    pub open spec fn first_free(&self, i: int) -> bool {
        &&& 0 <= i < 64
        &&& self.records()[i] is None
        &&& forall|j: int| 0 <= j < i ==> (#[trigger] self.records()[j]) is Some
    }

    pub open spec fn full(&self) -> bool {
        forall|j: int| 0 <= j < 64 ==> (#[trigger] self.records()[j]) is Some
    }

    /// The error that `reserve_at` gives for this request, if any, in the
    /// order in which it checks the request.
    pub open spec fn reserve_error(&self, address: u64, bytes: u64, alignment: u64) -> Option<Error> {
        if bytes == 0 {
            Some(Error::InvalidSize)
        } else if !is_pow2(alignment) {
            Some(Error::InvalidAlignment)
        } else if address % alignment != 0 {
            Some(Error::UnalignedAddress)
        } else if address + bytes > u64::MAX {
            Some(Error::ArithmeticOverflow)
        } else if address < self.spec_aperture().spec_address() || address + bytes > self.spec_aperture().spec_end() {
            Some(Error::OutsideAperture)
        } else if self.blocked(address as int, address + bytes) {
            Some(Error::Overlap)
        } else if self.full() {
            Some(Error::ReservationLimit)
        } else if self.spec_generation() == u64::MAX {
            Some(Error::GenerationExhausted)
        } else {
            None
        }
    }

    /// `new` is `old` with one more live record, placed in the first free slot,
    /// whose token is the next generation.
    pub open spec fn reserved(
        old: &Self,
        new: &Self,
        token: ReservationToken,
        address: u64,
        bytes: u64,
        alignment: u64,
        purpose: Purpose,
    ) -> bool {
        &&& token.spec_owner() == old.spec_owner()
        &&& token.spec_serial() == old.spec_generation() + 1
        &&& new.spec_generation() == old.spec_generation() + 1
        &&& new.spec_owner() == old.spec_owner()
        &&& new.spec_aperture() == old.spec_aperture()
        &&& new.ram() == old.ram()
        &&& exists|i: int|
            #![trigger old.records()[i]]
            old.first_free(i) && new.records() == old.records().update(i, new.records()[i]) && record_is(
                new.records()[i],
                token,
                address,
                bytes,
                alignment,
                purpose,
            )
    }

    /// Nothing observable changed.
    pub open spec fn same(old: &Self, new: &Self) -> bool {
        &&& new.spec_generation() == old.spec_generation()
        &&& new.spec_owner() == old.spec_owner()
        &&& new.spec_aperture() == old.spec_aperture()
        &&& new.ram() == old.ram()
        &&& new.records() == old.records()
    }

    /// The guest byte range of the live record of `token`, relative to the
    /// backing.
    pub open spec fn rel_start(&self, token: ReservationToken) -> int {
        self.record_of(token).spec_extent().spec_address() - self.spec_aperture().spec_address()
    }
}

impl GuestMemory<'static> {
    /// Consumes the Box, also on constructor failure. Does not imply page alignment.
    pub fn from_owned(base: u64, bytes: Box<[u8]>, owners: &AtomicU64) -> (r: Result<Self, Error>)
        ensures
            bytes@.len() == 0 ==> r == Err::<Self, Error>(Error::EmptyBacking),
            bytes@.len() > 0 && base + bytes@.len() > u64::MAX ==> r == Err::<Self, Error>(
                Error::ArithmeticOverflow,
            ),
            r matches Ok(m) ==> m.wf() && m.spec_generation() == 0 && m.ram() == bytes@ && m.spec_aperture().spec_address()
                == base && m.spec_aperture().spec_bytes() == bytes@.len()
                && forall|i: int| 0 <= i < 64 ==> (#[trigger] m.records()[i]) is None,
            r matches Err(e) ==> e == Error::EmptyBacking || e == Error::ArithmeticOverflow || e
                == Error::IdentityExhausted,
    {
        Self::new(base, Backing::Owned(bytes), owners)
    }
}

impl<'a> GuestMemory<'a> {
    /// The allocator owner remains borrowed until this ledger is dropped.
    pub fn from_borrowed(base: u64, bytes: &'a mut [u8], owners: &AtomicU64) -> (r: Result<Self, Error>)
        ensures
            old(bytes)@.len() == 0 ==> r == Err::<Self, Error>(Error::EmptyBacking),
            old(bytes)@.len() > 0 && base + old(bytes)@.len() > u64::MAX ==> r == Err::<Self, Error>(
                Error::ArithmeticOverflow,
            ),
            r matches Ok(m) ==> m.wf() && m.spec_generation() == 0 && m.ram() == old(bytes)@ && m.spec_aperture().spec_address()
                == base && m.spec_aperture().spec_bytes() == old(bytes)@.len()
                && forall|i: int| 0 <= i < 64 ==> (#[trigger] m.records()[i]) is None,
            r matches Err(e) ==> e == Error::EmptyBacking || e == Error::ArithmeticOverflow || e
                == Error::IdentityExhausted,
    {
        Self::new(base, Backing::Borrowed(bytes), owners)
    }

    fn new(base: u64, backing: Backing<'a>, owners: &AtomicU64) -> (r: Result<Self, Error>)
        ensures
            backing.view_bytes().len() == 0 ==> r == Err::<Self, Error>(Error::EmptyBacking),
            backing.view_bytes().len() > 0 && base + backing.view_bytes().len() > u64::MAX ==> r
                == Err::<Self, Error>(Error::ArithmeticOverflow),
            r matches Ok(m) ==> m.wf() && m.spec_generation() == 0 && m.ram() == backing.view_bytes()
                && m.spec_aperture() == (Extent {
                    address: base,
                    bytes: backing.view_bytes().len() as u64,
                }) && forall|i: int| 0 <= i < 64 ==> (#[trigger] m.records()[i]) is None,
            r matches Err(e) ==> e == Error::EmptyBacking || e == Error::ArithmeticOverflow || e
                == Error::IdentityExhausted,
    {
        let bytes = backing.len() as u64;
        if bytes == 0 {
            return Err(Error::EmptyBacking);
        }
        if base.checked_add(bytes).is_none() {
            return Err(Error::ArithmeticOverflow);
        }
        let owner = mint_owner(owners)?;
        let reservations: [Option<ReservationRecord>; 64] = [None; 64];
        let m = GuestMemory {
            backing,
            aperture: Extent { address: base, bytes },
            owner,
            generation: 0,
            reservations,
        };
        assert(m.full() == false) by {
            assert(m.reservations@[0] is None);
        }
        Ok(m)
    }

    pub fn aperture(&self) -> (r: Extent)
        ensures
            r == self.spec_aperture(),
    {
        self.aperture
    }

    pub fn snapshot(&self) -> (r: AllocationSnapshot<'_>)
        ensures
            r.spec_aperture() == self.spec_aperture(),
            r.spec_stamp().spec_owner() == self.spec_owner(),
            r.spec_stamp().spec_generation() == self.spec_generation(),
            r.spec_records() == self.records(),
    {
        AllocationSnapshot {
            aperture: self.aperture,
            stamp: SnapshotStamp { owner: self.owner, generation: self.generation },
            records: &self.reservations,
        }
    }

    fn next_generation(&self) -> (r: Result<u64, Error>)
        ensures
            self.spec_generation() == u64::MAX ==> r == Err::<u64, Error>(Error::GenerationExhausted),
            self.spec_generation() < u64::MAX ==> r == Ok::<u64, Error>((self.spec_generation() + 1) as u64),
    {
        match self.generation.checked_add(1) {
            Some(g) => Ok(g),
            None => Err(Error::GenerationExhausted),
        }
    }

    fn slot(&self, token: ReservationToken) -> (r: Result<usize, Error>)
        requires
            self.wf(),
        ensures
            r matches Err(e) ==> self.lookup_error(token) == Some(e),
            r matches Ok(i) ==> self.lookup_error(token) is None && self.slot_of(token, i as int)
                && self.record_of(token) == self.records()[i as int]->0,
    {
        if token.owner != self.owner {
            return Err(Error::ForeignOwner);
        }
        let mut i: usize = 0;
        while i < 64
            invariant
                i <= 64,
                self.wf(),
                forall|k: int| 0 <= k < i ==> !self.slot_of(token, k),
            decreases 64 - i,
        {
            if let Some(record) = self.reservations[i] {
                if record.token == token {
                    proof {
                        self.lemma_unique_slot(token, i as int);
                    }
                    return Ok(i);
                }
            }
            i = i + 1;
        }
        Err(Error::ReleasedReservation)
    }

    proof fn lemma_unique_slot(&self, token: ReservationToken, i: int)
        requires
            self.wf(),
            self.slot_of(token, i),
        ensures
            self.live(token),
            self.record_of(token) == self.reservations@[i]->0,
            forall|k: int| #[trigger] self.slot_of(token, k) ==> k == i,
    {
        assert forall|k: int| #[trigger] self.slot_of(token, k) implies k == i by {
            if k != i {
                assert(self.reservations@[k] is Some && self.reservations@[i] is Some);
            }
        }
        let c = choose|k: int| self.slot_of(token, k);
        assert(c == i);
    }

    fn record(&self, token: ReservationToken) -> (r: Result<ReservationRecord, Error>)
        requires
            self.wf(),
        ensures
            r matches Err(e) ==> self.lookup_error(token) == Some(e),
            r matches Ok(rec) ==> self.lookup_error(token) is None && rec == self.record_of(token)
                && self.record_ok(rec),
    {
        let i = self.slot(token)?;
        match self.reservations[i] {
            Some(r) => Ok(r),
            None => {
                assert(false);
                Err(Error::ReleasedReservation)
            },
        }
    }

    fn validate_stamp(&self, stamp: SnapshotStamp) -> (r: Result<(), Error>)
        ensures
            stamp.spec_owner() != self.spec_owner() ==> r == Err::<(), Error>(Error::ForeignOwner),
            stamp.spec_owner() == self.spec_owner() && stamp.spec_generation() != self.spec_generation() ==> r == Err::<
                (),
                Error,
            >(Error::StaleSnapshot),
            stamp.spec_owner() == self.spec_owner() && stamp.spec_generation() == self.spec_generation() ==> r is Ok,
    {
        if stamp.owner != self.owner {
            return Err(Error::ForeignOwner);
        }
        if stamp.generation != self.generation {
            return Err(Error::StaleSnapshot);
        }
        Ok(())
    }

    fn any_overlap(&self, address: u64, end: u64) -> (r: Option<u64>)
        requires
            self.wf(),
        ensures
            r is None <==> !self.blocked(address as int, end as int),
            r matches Some(next) ==> next > address && exists|i: int|
                0 <= i < 64 && #[trigger] self.records()[i] is Some && ranges_overlap(
                    address as int,
                    end as int,
                    self.records()[i]->0.extent.address as int,
                    self.records()[i]->0.extent.spec_end(),
                ) && self.records()[i]->0.extent.spec_end() == next,
    {
        let mut best: Option<u64> = None;
        let mut i: usize = 0;
        while i < 64
            invariant
                i <= 64,
                self.wf(),
                best is None <==> forall|k: int|
                    0 <= k < i && (#[trigger] self.reservations@[k]) is Some ==> !ranges_overlap(
                        address as int,
                        end as int,
                        self.reservations@[k]->0.extent.address as int,
                        self.reservations@[k]->0.extent.spec_end(),
                    ),
                best matches Some(next) ==> next > address && exists|k: int|
                    0 <= k < 64 && #[trigger] self.reservations@[k] is Some && ranges_overlap(
                        address as int,
                        end as int,
                        self.reservations@[k]->0.extent.address as int,
                        self.reservations@[k]->0.extent.spec_end(),
                    ) && self.reservations@[k]->0.extent.spec_end() == next,
            decreases 64 - i,
        {
            if let Some(record) = self.reservations[i] {
                proof {
                    assert(self.record_ok(record));
                }
                let record_end = record.extent.address + record.extent.bytes;
                if address < record_end && record.extent.address < end {
                    match best {
                        Some(b) => {
                            if record_end > b {
                                best = Some(record_end);
                            }
                        },
                        None => {
                            best = Some(record_end);
                        },
                    }
                }
            }
            i = i + 1;
        }
        proof {
            if best is None {
                assert(!self.blocked(address as int, end as int));
            } else {
                assert(self.blocked(address as int, end as int));
            }
        }
        best
    }

    fn free_slot(&self) -> (r: Option<usize>)
        ensures
            r matches Some(i) ==> self.first_free(i as int),
            r is None <==> self.full(),
    {
        let mut i: usize = 0;
        while i < 64
            invariant
                i <= 64,
                forall|j: int| 0 <= j < i ==> (#[trigger] self.reservations@[j]) is Some,
            decreases 64 - i,
        {
            if self.reservations[i].is_none() {
                return Some(i);
            }
            i = i + 1;
        }
        None
    }

    /// Reserve exactly the supplied guest extent; host addresses are unrelated.
    pub fn reserve_at(&mut self, address: u64, bytes: u64, alignment: u64, purpose: Purpose) -> (r:
        Result<ReservationToken, Error>)
        requires
            old(self).wf(),
        ensures
            final(self).wf(),
            r matches Err(e) ==> old(self).reserve_error(address, bytes, alignment) == Some(e)
                && Self::same(old(self), final(self)),
            r matches Ok(t) ==> old(self).reserve_error(address, bytes, alignment) is None
                && Self::reserved(old(self), final(self), t, address, bytes, alignment, purpose),
            old(self).reserve_error(address, bytes, alignment) is None ==> r is Ok,
    {
        validate_request(bytes, alignment)?;
        if address % alignment != 0 {
            return Err(Error::UnalignedAddress);
        }
        let end = match address.checked_add(bytes) {
            Some(e) => e,
            None => return Err(Error::ArithmeticOverflow),
        };
        if address < self.aperture.address || end > self.aperture.address + self.aperture.bytes {
            return Err(Error::OutsideAperture);
        }
        if self.any_overlap(address, end).is_some() {
            return Err(Error::Overlap);
        }
        let slot = match self.free_slot() {
            Some(s) => s,
            None => return Err(Error::ReservationLimit),
        };
        let generation = self.next_generation()?;
        let token = ReservationToken { owner: self.owner, serial: generation };
        let ghost old_self = *self;
        let record = ReservationRecord {
            token,
            extent: Extent { address, bytes },
            alignment,
            purpose,
        };
        self.reservations[slot] = Some(record);
        self.generation = generation;
        proof {
            assert(self.reservations@ == old_self.reservations@.update(slot as int, Some(record)));
            assert forall|i: int|
                0 <= i < 64 && (#[trigger] self.reservations@[i]) is Some implies self.record_ok(
                self.reservations@[i]->0,
            ) by {
                if i != slot {
                    assert(old_self.record_ok(old_self.reservations@[i]->0));
                }
            }
            assert forall|i: int, j: int|
                0 <= i < 64 && 0 <= j < 64 && i != j && (#[trigger] self.reservations@[i]) is Some
                    && (#[trigger] self.reservations@[j]) is Some implies {
                &&& !ranges_overlap(
                    self.reservations@[i]->0.extent.address as int,
                    self.reservations@[i]->0.extent.spec_end(),
                    self.reservations@[j]->0.extent.address as int,
                    self.reservations@[j]->0.extent.spec_end(),
                )
                &&& self.reservations@[i]->0.token.serial != self.reservations@[j]->0.token.serial
            } by {
                if i == slot {
                    assert(old_self.record_ok(old_self.reservations@[j]->0));
                    assert(old_self.reservations@[j] is Some);
                } else if j == slot {
                    assert(old_self.record_ok(old_self.reservations@[i]->0));
                    assert(old_self.reservations@[i] is Some);
                } else {
                    assert(old_self.reservations@[i] is Some && old_self.reservations@[j] is Some);
                }
            }
        }
        Ok(token)
    }

    /// Lowest aligned first fit. Existing reservations are never relocated.
    pub fn allocate(&mut self, bytes: u64, alignment: u64, purpose: Purpose) -> (r: Result<
        ReservationToken,
        Error,
    >)
        requires
            old(self).wf(),
        ensures
            final(self).wf(),
            bytes == 0 ==> r == Err::<ReservationToken, Error>(Error::InvalidSize),
            bytes != 0 && !is_pow2(alignment) ==> r == Err::<ReservationToken, Error>(
                Error::InvalidAlignment,
            ),
            bytes != 0 && is_pow2(alignment) && old(self).full() ==> r == Err::<
                ReservationToken,
                Error,
            >(Error::ReservationLimit),
            r is Err ==> Self::same(old(self), final(self)),
            r == Err::<ReservationToken, Error>(Error::NoSpace) ==> forall|a: int|
                a % (alignment as int) == 0 && a >= old(self).spec_aperture().spec_address()
                    ==> !old(self).fits(a, bytes as int),
            r matches Ok(t) ==> exists|a: u64|
                {
                    &&& a % alignment == 0
                    &&& old(self).fits(a as int, bytes as int)
                    &&& forall|b: int|
                        b % (alignment as int) == 0 && old(self).spec_aperture().spec_address() <= b
                            < a ==> !old(self).fits(b, bytes as int)
                    &&& Self::reserved(old(self), final(self), t, a, bytes, alignment, purpose)
                },
            bytes != 0 && is_pow2(alignment) && !old(self).full() && old(self).generation < u64::MAX && (exists|a: int|
                a % (alignment as int) == 0 && a >= old(self).spec_aperture().spec_address()
                    && #[trigger] old(self).fits(a, bytes as int)) ==> r is Ok,
    {
        let ghost good = bytes != 0 && is_pow2(alignment) && !self.full() && self.generation < u64::MAX && (exists|a: int|
            a % (alignment as int) == 0 && a >= self.aperture.address && #[trigger] self.fits(a, bytes as int));
        validate_request(bytes, alignment)?;
        if self.free_slot().is_none() {
            return Err(Error::ReservationLimit);
        }
        let start = self.aperture.address;
        proof {
            if good {
                let a = choose|a: int| a % (alignment as int) == 0 && a >= self.aperture.address && #[trigger] self.fits(
                    a,
                    bytes as int,
                );
                lemma_multiple_has_room(a as u64, alignment);
            }
        }
        let mut candidate = align_up(start, alignment)?;
        proof {
            assert forall|b: int|
                b % (alignment as int) == 0 && start <= b < candidate implies !self.fits(
                b,
                bytes as int,
            ) by {
                lemma_aligned_up(start as int, alignment as int, b);
            }
            lemma_aligned_up(start as int, alignment as int, 0);
        }
        loop
            invariant
                self.wf(),
                self == old(self),
                bytes > 0,
                is_pow2(alignment),
                !self.full(),
                candidate >= start,
                start == self.aperture.address,
                candidate % alignment == 0,
                forall|b: int|
                    b % (alignment as int) == 0 && start <= b < candidate ==> !self.fits(
                        b,
                        bytes as int,
                    ),
                good == (bytes != 0 && is_pow2(alignment) && !self.full() && self.generation < u64::MAX && (exists|a: int|
                    a % (alignment as int) == 0 && a >= self.aperture.address && #[trigger] self.fits(a, bytes as int))),
            decreases u64::MAX - candidate,
        {
            let end = match candidate.checked_add(bytes) {
                Some(e) => e,
                None => {
                    proof {
                        assert forall|a: int|
                            a % (alignment as int) == 0 && a >= start implies !self.fits(
                            a,
                            bytes as int,
                        ) by {
                            if a >= candidate {
                                assert(a + bytes > u64::MAX);
                            }
                        }
                    }
                    return Err(Error::ArithmeticOverflow);
                },
            };
            if end > self.aperture.address + self.aperture.bytes {
                proof {
                    assert forall|a: int|
                        a % (alignment as int) == 0 && a >= start implies !self.fits(
                        a,
                        bytes as int,
                    ) by {
                        if a >= candidate {
                            assert(a + bytes > self.aperture.spec_end());
                        }
                    }
                }
                return Err(Error::NoSpace);
            }
            match self.any_overlap(candidate, end) {
                Some(next) => {
                    proof {
                        if good {
                            let a = choose|a: int| a % (alignment as int) == 0 && a >= self.aperture.address
                                && #[trigger] self.fits(a, bytes as int);
                            if a < next {
                                let i = choose|i: int|
                                    0 <= i < 64 && #[trigger] self.reservations@[i] is Some
                                        && ranges_overlap(
                                        candidate as int,
                                        end as int,
                                        self.reservations@[i]->0.extent.address as int,
                                        self.reservations@[i]->0.extent.spec_end(),
                                    ) && self.reservations@[i]->0.extent.spec_end() == next;
                                assert(ranges_overlap(
                                    a,
                                    a + bytes,
                                    self.reservations@[i]->0.extent.address as int,
                                    self.reservations@[i]->0.extent.spec_end(),
                                ));
                                assert(self.blocked(a, a + bytes));
                            }
                            lemma_multiple_has_room(a as u64, alignment);
                        }
                    }
                    let aligned = align_up(next, alignment)?;
                    proof {
                        assert forall|b: int|
                            b % (alignment as int) == 0 && start <= b < aligned implies !self.fits(
                            b,
                            bytes as int,
                        ) by {
                            lemma_aligned_up(next as int, alignment as int, b);
                            if b >= candidate {
                                let i = choose|i: int|
                                    0 <= i < 64 && #[trigger] self.reservations@[i] is Some
                                        && ranges_overlap(
                                        candidate as int,
                                        end as int,
                                        self.reservations@[i]->0.extent.address as int,
                                        self.reservations@[i]->0.extent.spec_end(),
                                    ) && self.reservations@[i]->0.extent.spec_end() == next;
                                assert(ranges_overlap(
                                    b,
                                    b + bytes,
                                    self.reservations@[i]->0.extent.address as int,
                                    self.reservations@[i]->0.extent.spec_end(),
                                ));
                                assert(self.blocked(b, b + bytes));
                            }
                        }
                        lemma_aligned_up(next as int, alignment as int, 0);
                    }
                    candidate = aligned;
                },
                None => {
                    proof {
                        assert(self.fits(candidate as int, bytes as int));
                    }
                    let r = self.reserve_at(candidate, bytes, alignment, purpose);
                    return r;
                },
            }
        }
    }

    /// Invalidates the token, leaving the released bytes unchanged.
    pub fn release(&mut self, token: ReservationToken) -> (r: Result<(), Error>)
        requires
            old(self).wf(),
        ensures
            final(self).wf(),
            r matches Err(e) ==> Self::same(old(self), final(self)) && (old(self).lookup_error(
                token,
            ) == Some(e) || (old(self).lookup_error(token) is None && old(self).spec_generation()
                == u64::MAX && e == Error::GenerationExhausted)),
            r is Ok <==> old(self).lookup_error(token) is None && old(self).spec_generation() < u64::MAX,
            r is Ok ==> {
                &&& final(self).spec_generation() == old(self).spec_generation() + 1
                &&& final(self).ram() == old(self).ram()
                &&& final(self).spec_aperture() == old(self).spec_aperture()
                &&& final(self).spec_owner() == old(self).spec_owner()
                &&& exists|i: int|
                    old(self).slot_of(token, i) && final(self).records()
                        == old(self).records().update(i, None)
            },
    {
        let slot = self.slot(token)?;
        let generation = self.next_generation()?;
        let ghost old_self = *self;
        self.reservations[slot] = None;
        self.generation = generation;
        proof {
            assert forall|i: int|
                0 <= i < 64 && (#[trigger] self.reservations@[i]) is Some implies self.record_ok(
                self.reservations@[i]->0,
            ) by {
                assert(old_self.record_ok(old_self.reservations@[i]->0));
            }
            assert forall|i: int, j: int|
                0 <= i < 64 && 0 <= j < 64 && i != j && (#[trigger] self.reservations@[i]) is Some
                    && (#[trigger] self.reservations@[j]) is Some implies {
                &&& !ranges_overlap(
                    self.reservations@[i]->0.extent.address as int,
                    self.reservations@[i]->0.extent.spec_end(),
                    self.reservations@[j]->0.extent.address as int,
                    self.reservations@[j]->0.extent.spec_end(),
                )
                &&& self.reservations@[i]->0.token.serial != self.reservations@[j]->0.token.serial
            } by {
                assert(old_self.reservations@[i] is Some && old_self.reservations@[j] is Some);
            }
        }
        Ok(())
    }

    fn range(&self, record: ReservationRecord, offset: u64, bytes: usize) -> (r: Result<
        (usize, usize),
        Error,
    >)
        requires
            self.wf(),
            self.record_ok(record),
        ensures
            offset + bytes > u64::MAX ==> r == Err::<(usize, usize), Error>(
                Error::ArithmeticOverflow,
            ),
            offset + bytes <= u64::MAX && offset + bytes > record.extent.bytes ==> r == Err::<
                (usize, usize),
                Error,
            >(Error::DestinationCapacity),
            offset + bytes <= record.extent.bytes ==> (r matches Ok(p) && p.0 == record.extent.address
                - self.spec_aperture().address + offset && p.1 == p.0 + bytes && p.1 <= self.ram().len()),
            r matches Err(e) ==> e == Error::ArithmeticOverflow || e == Error::DestinationCapacity,
    {
        let bytes = bytes as u64;
        let stop = match offset.checked_add(bytes) {
            Some(s) => s,
            None => return Err(Error::ArithmeticOverflow),
        };
        if stop > record.extent.bytes {
            return Err(Error::DestinationCapacity);
        }
        let start = record.extent.address - self.aperture.address + offset;
        let end = start + bytes;
        assert(end <= self.aperture.bytes);
        let n = self.backing.len();
        Ok((start as usize, end as usize))
    }

    pub fn read(&self, token: ReservationToken) -> (r: Result<&[u8], Error>)
        requires
            self.wf(),
        ensures
            r matches Err(e) ==> self.lookup_error(token) == Some(e),
            r is Ok <==> self.lookup_error(token) is None,
            r matches Ok(b) ==> b@ == self.ram().subrange(
                self.rel_start(token),
                self.rel_start(token) + self.record_of(token).spec_extent().spec_bytes(),
            ),
    {
        let record = self.record(token)?;
        let n = self.backing.len();
        assert(record.extent.bytes <= n);
        let count = record.extent.bytes as usize;
        let (start, end) = match self.range(record, 0, count) {
            Ok(p) => p,
            Err(e) => {
                assert(false);
                return Err(e);
            },
        };
        let all = self.backing.bytes();
        Ok(&all[start..end])
    }

    /// Atomic checked copy of an independently prepared payload. This method
    /// does not validate an image or boot ABI.
    pub fn copy_into(&mut self, token: ReservationToken, offset: u64, bytes: &[u8]) -> (r: Result<
        (),
        Error,
    >)
        requires
            old(self).wf(),
        ensures
            final(self).wf(),
            r is Err ==> Self::same(old(self), final(self)),
            r matches Err(e) ==> old(self).lookup_error(token) == Some(e) || (old(self).lookup_error(
                token,
            ) is None && (e == Error::WrongPurpose || e == Error::ArithmeticOverflow || e
                == Error::DestinationCapacity || e == Error::GenerationExhausted)),
            old(self).lookup_error(token) is None ==> {
                let rec = old(self).record_of(token);
                &&& (rec.spec_purpose() == Purpose::RuntimeDeviceTree ==> r == Err::<(), Error>(
                    Error::WrongPurpose,
                ))
                &&& (rec.spec_purpose() != Purpose::RuntimeDeviceTree && offset + bytes@.len()
                    <= rec.spec_extent().spec_bytes() && old(self).spec_generation() == u64::MAX ==> r == Err::<
                    (),
                    Error,
                >(Error::GenerationExhausted))
                &&& (rec.spec_purpose() != Purpose::RuntimeDeviceTree && offset + bytes@.len()
                    <= rec.spec_extent().spec_bytes() && old(self).spec_generation() < u64::MAX ==> r is Ok)
                &&& (rec.spec_purpose() != Purpose::RuntimeDeviceTree && offset + bytes@.len() > u64::MAX
                    ==> r == Err::<(), Error>(Error::ArithmeticOverflow))
                &&& (rec.spec_purpose() != Purpose::RuntimeDeviceTree && offset + bytes@.len() <= u64::MAX
                    && offset + bytes@.len() > rec.spec_extent().spec_bytes() ==> r == Err::<(), Error>(
                    Error::DestinationCapacity,
                ))
            },
            r is Ok ==> {
                let at = old(self).rel_start(token) + offset;
                &&& old(self).lookup_error(token) is None
                &&& old(self).record_of(token).spec_purpose() != Purpose::RuntimeDeviceTree
                &&& offset + bytes@.len() <= old(self).record_of(token).spec_extent().spec_bytes()
                &&& final(self).spec_generation() == old(self).spec_generation() + 1
                &&& final(self).records() == old(self).records()
                &&& final(self).spec_aperture() == old(self).spec_aperture()
                &&& final(self).spec_owner() == old(self).spec_owner()
                &&& final(self).ram() == old(self).ram().subrange(0, at) + bytes@ + old(
                    self,
                ).ram().subrange(at + bytes@.len(), old(self).ram().len() as int)
            },
    {
        let record = self.record(token)?;
        if record.purpose == Purpose::RuntimeDeviceTree {
            return Err(Error::WrongPurpose);
        }
        let (start, _end) = self.range(record, offset, bytes.len())?;
        let generation = self.next_generation()?;
        let ghost old_self = *self;
        self.backing.copy_at(start, bytes);
        self.generation = generation;
        proof {
            assert forall|i: int|
                0 <= i < 64 && (#[trigger] self.reservations@[i]) is Some implies self.record_ok(
                self.reservations@[i]->0,
            ) by {
                assert(old_self.record_ok(old_self.reservations@[i]->0));
            }
        }
        Ok(())
    }

    fn dt_range(&self, token: ReservationToken, bytes: usize) -> (r: Result<(usize, usize), Error>)
        requires
            self.wf(),
        ensures
            r matches Err(e) ==> self.lookup_error(token) == Some(e) || (self.lookup_error(token) is None
                && (e == Error::WrongPurpose || e == Error::UnalignedAddress || e
                == Error::ArithmeticOverflow || e == Error::DestinationCapacity)),
            r matches Ok(p) ==> self.lookup_error(token) is None && p.0 == self.rel_start(token) && p.1
                == p.0 + bytes && p.1 <= self.ram().len() && self.record_of(token).purpose
                == Purpose::RuntimeDeviceTree && bytes <= self.record_of(token).extent.bytes
                && self.record_of(token).extent.address % 4 == 0,
            self.lookup_error(token) is None ==> {
                let rec = self.record_of(token);
                &&& (rec.purpose != Purpose::RuntimeDeviceTree ==> r == Err::<(usize, usize), Error>(
                    Error::WrongPurpose,
                ))
                &&& (rec.purpose == Purpose::RuntimeDeviceTree && rec.extent.address % 4 != 0 ==> r
                    == Err::<(usize, usize), Error>(Error::UnalignedAddress))
                &&& (rec.purpose == Purpose::RuntimeDeviceTree && rec.extent.address % 4 == 0 && bytes
                    <= rec.extent.bytes ==> r is Ok)
                &&& (rec.purpose == Purpose::RuntimeDeviceTree && rec.extent.address % 4 == 0 && bytes
                    > rec.extent.bytes ==> r == Err::<(usize, usize), Error>(Error::DestinationCapacity))
            },
            self.lookup_error(token) matches Some(e) ==> r == Err::<(usize, usize), Error>(e),
    {
        let record = self.record(token)?;
        if record.purpose != Purpose::RuntimeDeviceTree {
            return Err(Error::WrongPurpose);
        }
        if record.extent.address % 4 != 0 {
            return Err(Error::UnalignedAddress);
        }
        self.range(record, 0, bytes)
    }

    /// Binds a validated tree to the snapshot used to supply allocation values.
    /// Arbitrary provider byte semantics are still the caller's responsibility.
    pub fn bind_device_tree<'source>(
        &self,
        stamp: SnapshotStamp,
        destination: ReservationToken,
        tree: MaterializedTree<'source>,
    ) -> (r: Result<PreparedDeviceTree<'source>, Error>)
        requires
            self.wf(),
        ensures
            stamp.spec_owner() != self.spec_owner() ==> (r matches Err(e) && e == Error::ForeignOwner),
            stamp.spec_owner() == self.spec_owner() && stamp.spec_generation() != self.spec_generation() ==> (
            r matches Err(e) && e == Error::StaleSnapshot),
            r matches Ok(p) ==> p.spec_bytes() == tree.spec_bytes() && p.spec_stamp() == stamp
                && p.spec_destination() == destination && stamp.spec_owner() == self.spec_owner()
                && stamp.spec_generation() == self.spec_generation() && self.lookup_error(destination) is None
                && self.record_of(destination).spec_purpose() == Purpose::RuntimeDeviceTree
                && tree.spec_bytes().len() <= self.record_of(destination).spec_extent().spec_bytes(),
    {
        self.validate_stamp(stamp)?;
        self.dt_range(destination, tree.bytes().len())?;
        Ok(PreparedDeviceTree { tree, stamp, destination })
    }

    /// Single checked copy. All returned errors leave RAM and generation intact.
    pub fn commit_device_tree(&mut self, prepared: PreparedDeviceTree<'_>) -> (r: Result<(), Error>)
        requires
            old(self).wf(),
        ensures
            final(self).wf(),
            r is Err ==> Self::same(old(self), final(self)),
            r is Ok ==> {
                let at = old(self).rel_start(prepared.spec_destination());
                &&& prepared.spec_stamp().spec_owner() == old(self).spec_owner()
                &&& prepared.spec_stamp().spec_generation() == old(self).spec_generation()
                &&& old(self).lookup_error(prepared.spec_destination()) is None
                &&& final(self).spec_generation() == old(self).spec_generation() + 1
                &&& final(self).records() == old(self).records()
                &&& final(self).spec_aperture() == old(self).spec_aperture()
                &&& final(self).spec_owner() == old(self).spec_owner()
                &&& final(self).ram() == old(self).ram().subrange(0, at) + prepared.spec_bytes() + old(
                    self,
                ).ram().subrange(at + prepared.spec_bytes().len(), old(self).ram().len() as int)
            },
            ({
                let rec = old(self).record_of(prepared.spec_destination());
                &&& prepared.spec_stamp().spec_owner() == old(self).spec_owner()
                &&& prepared.spec_stamp().spec_generation() == old(self).spec_generation()
                &&& old(self).lookup_error(prepared.spec_destination()) is None
                &&& rec.spec_purpose() == Purpose::RuntimeDeviceTree
                &&& rec.spec_extent().spec_address() % 4 == 0
                &&& prepared.spec_bytes().len() <= rec.spec_extent().spec_bytes()
                &&& old(self).spec_generation() < u64::MAX
            }) ==> r is Ok,
            prepared.spec_stamp().spec_owner() != old(self).spec_owner() ==> r == Err::<(), Error>(Error::ForeignOwner),
            prepared.spec_stamp().spec_owner() == old(self).spec_owner() && prepared.spec_stamp().spec_generation()
                != old(self).spec_generation() ==> r == Err::<(), Error>(Error::StaleSnapshot),
            prepared.spec_stamp().spec_owner() == old(self).spec_owner() && prepared.spec_stamp().spec_generation()
                == old(self).spec_generation() ==> ({
                let rec = old(self).record_of(prepared.spec_destination());
                &&& (old(self).lookup_error(prepared.spec_destination()) matches Some(e) ==> r == Err::<(), Error>(e))
                &&& (old(self).lookup_error(prepared.spec_destination()) is None ==> {
                    &&& (rec.spec_purpose() != Purpose::RuntimeDeviceTree ==> r == Err::<(), Error>(
                        Error::WrongPurpose,
                    ))
                    &&& (rec.spec_purpose() == Purpose::RuntimeDeviceTree && rec.spec_extent().spec_address() % 4
                        != 0 ==> r == Err::<(), Error>(Error::UnalignedAddress))
                    &&& (rec.spec_purpose() == Purpose::RuntimeDeviceTree && rec.spec_extent().spec_address() % 4
                        == 0 && prepared.spec_bytes().len() > rec.spec_extent().spec_bytes() ==> r == Err::<
                        (),
                        Error,
                    >(Error::DestinationCapacity))
                    &&& (rec.spec_purpose() == Purpose::RuntimeDeviceTree && rec.spec_extent().spec_address() % 4
                        == 0 && prepared.spec_bytes().len() <= rec.spec_extent().spec_bytes() && old(self).spec_generation()
                        == u64::MAX ==> r == Err::<(), Error>(Error::GenerationExhausted))
                })
            }),
    {
        self.validate_stamp(prepared.stamp)?;
        let (start, _end) = self.dt_range(prepared.destination, prepared.tree.bytes().len())?;
        let generation = self.next_generation()?;
        let ghost old_self = *self;
        self.backing.copy_at(start, prepared.tree.bytes());
        self.generation = generation;
        proof {
            assert forall|i: int|
                0 <= i < 64 && (#[trigger] self.reservations@[i]) is Some implies self.record_ok(
                self.reservations@[i]->0,
            ) by {
                assert(old_self.record_ok(old_self.reservations@[i]->0));
            }
        }
        Ok(())
    }

    /// Grants an exclusive scoped loan, invalidating prepared snapshots first.
    /// Closure writes are NOT rolled back, including when its return value is Err.
    pub fn with_guest_memory<R, F: FnOnce(u64, &mut [u8]) -> R>(&mut self, run: F) -> (r: Result<
        R,
        Error,
    >)
        requires
            old(self).wf(),
            forall|a: u64, b: &mut [u8]| #[trigger] call_requires(run, (a, b)),
        ensures
            old(self).spec_generation() == u64::MAX ==> r is Err && Self::same(old(self), final(self)),
            old(self).spec_generation() < u64::MAX ==> r is Ok && final(self).spec_generation() == old(self).spec_generation()
                + 1,
            final(self).records() == old(self).records(),
            final(self).spec_aperture() == old(self).spec_aperture(),
            final(self).spec_owner() == old(self).spec_owner(),
    {
        self.generation = self.next_generation()?;
        let address = self.aperture.address;
        let ram = self.backing.bytes_mut();
        assert(call_requires(run, (address, ram)));
        let result = run(address, ram);
        Ok(result)
    }
}

/// What `copy_into` wrote into a reservation is what `read` then gives back of it, at
/// the offset it was written to: the copy keeps the reservation live and in place, and
/// the reservation's bytes from `offset` on are the bytes written.
pub proof fn lemma_read_after_copy<'a>(
    before: &GuestMemory<'a>,
    after: &GuestMemory<'a>,
    token: ReservationToken,
    offset: u64,
    bytes: Seq<u8>,
)
    requires
        before.wf(),
        before.lookup_error(token) is None,
        offset + bytes.len() <= before.record_of(token).spec_extent().spec_bytes(),
        after.reservations@ == before.reservations@,
        after.aperture == before.aperture,
        after.owner == before.owner,
        after.ram() == before.ram().subrange(0, before.rel_start(token) + offset) + bytes
            + before.ram().subrange(
            before.rel_start(token) + offset + bytes.len(),
            before.ram().len() as int,
        ),
    ensures
        after.lookup_error(token) is None,
        after.record_of(token) == before.record_of(token),
        after.ram().subrange(
            after.rel_start(token),
            after.rel_start(token) + after.record_of(token).spec_extent().spec_bytes(),
        ).subrange(offset as int, offset + bytes.len()) == bytes,
{
    let i = choose|i: int| before.slot_of(token, i);
    assert(after.slot_of(token, i));
    assert(before.record_ok(before.reservations@[i]->0));
    let start = before.rel_start(token);
    let size = before.record_of(token).spec_extent().spec_bytes();
    assert(start + size <= before.ram().len());
    assert_seqs_equal!(
        after.ram().subrange(start, start + size).subrange(offset as int, offset + bytes.len()),
        bytes
    );
}

} // verus!
