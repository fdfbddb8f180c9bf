//! ACPI root discovery: the RSDP, the XSDT (or RSDT) it points to, and the tables those
//! list, all inside one byte image whose offsets stand for physical addresses.
use vstd::prelude::*;
use crate::bytes::{le_u32, le_u64, read_u32, read_u64};
use crate::error::CoreError;

verus! {

pub const RSDP_LENGTH: usize = 36;

pub const XSDT_HEADER_SIZE: usize = 36;

#[derive(Debug, Clone)]
pub struct AcpiSignature(pub [u8; 4]);

#[derive(Debug, Clone)]
pub struct AcpiTableHeader {
    pub length: u32,
    pub revision: u8,
    pub checksum: u8,
    pub oem_id: [u8; 6],
    pub oem_table_id: [u8; 8],
}

#[derive(Debug, Clone)]
pub struct Rsdp {
    pub signature: [u8; 8],
    pub checksum: u8,
    pub rsdt_address: u32,
    pub length: u32,
    pub xsdt_address: u64,
    pub extended_checksum: u8,
}

#[derive(Debug, Clone)]
pub struct Xsdt {
    pub header: AcpiTableHeader,
    pub table_addresses: Vec<u64>,
}

#[derive(Debug)]
pub struct AcpiTables<'a> {
    data: &'a [u8],
    xsdt: Xsdt,
}

/// "RSD PTR "
pub open spec fn rsdp_signature() -> Seq<u8> {
    seq![0x52u8, 0x53u8, 0x44u8, 0x20u8, 0x50u8, 0x54u8, 0x52u8, 0x20u8]
}

/// "XSDT"
pub open spec fn xsdt_signature() -> Seq<u8> {
    seq![0x58u8, 0x53u8, 0x44u8, 0x54u8]
}

/// "RSDT"
pub open spec fn rsdt_signature() -> Seq<u8> {
    seq![0x52u8, 0x53u8, 0x44u8, 0x54u8]
}

/// The sum of all bytes of `s`; an ACPI checksum holds when it is a multiple of 256.
pub open spec fn byte_sum(s: Seq<u8>) -> int
    decreases s.len(),
{
    if s.len() == 0 {
        0
    } else {
        byte_sum(s.drop_last()) + s.last()
    }
}

/// An RSDP starts at `i`: its signature, and a first-20-byte checksum of zero.
pub open spec fn rsdp_at(data: Seq<u8>, i: int) -> bool {
    &&& data.subrange(i, i + 8) == rsdp_signature()
    &&& byte_sum(data.subrange(i, i + 20)) % 256 == 0
}

/// The first RSDP position at or after `i`, among the positions below
/// `data.len() - RSDP_LENGTH`.
pub open spec fn rsdp_from(data: Seq<u8>, i: int) -> Option<int>
    decreases data.len() - i,
{
    if i < 0 || i >= data.len() - RSDP_LENGTH {
        None
    } else if rsdp_at(data, i) {
        Some(i)
    } else {
        rsdp_from(data, i + 1)
    }
}

/// The root table the RSDP at `i` points to: its offset and whether it is an XSDT.
pub open spec fn root_table_of(data: Seq<u8>, i: int) -> (int, bool) {
    let x = le_u64(data, i + 24);
    if x != 0 {
        (x, true)
    } else {
        (le_u32(data, i + 16), false)
    }
}

/// The RSDP's root table lies inside `data` with the right signature.
pub open spec fn root_table_present(data: Seq<u8>, off: int, xsdt: bool) -> bool {
    &&& off + XSDT_HEADER_SIZE <= data.len()
    &&& data.subrange(off, off + 4) == if xsdt {
        xsdt_signature()
    } else {
        rsdt_signature()
    }
}

/// What `AcpiTables::parse` rejects `data` with, in the order it checks.
pub open spec fn acpi_parse_error(data: Seq<u8>) -> Option<CoreError> {
    if data.len() < RSDP_LENGTH {
        Some(CoreError::AcpiNotFound("data too short for RSDP"))
    } else {
        match rsdp_from(data, 0) {
            None => Some(CoreError::AcpiNotFound("RSDP")),
            Some(i) => {
                let (off, xsdt) = root_table_of(data, i);
                if off + XSDT_HEADER_SIZE > data.len() {
                    if xsdt {
                        Some(CoreError::AcpiInvalid("XSDT extends beyond data"))
                    } else {
                        Some(CoreError::AcpiInvalid("RSDT extends beyond data"))
                    }
                } else if !root_table_present(data, off, xsdt) {
                    if xsdt {
                        Some(CoreError::AcpiInvalid("XSDT signature mismatch"))
                    } else {
                        Some(CoreError::AcpiInvalid("RSDT signature mismatch"))
                    }
                } else {
                    None
                }
            },
        }
    }
}

/// The inputs `parse` handles without trapping: the root table's offset plus its header
/// is addressable, and a present root table declares at least a whole header.
pub open spec fn acpi_parse_defined(data: Seq<u8>) -> bool {
    match rsdp_from(data, 0) {
        None => true,
        Some(i) => {
            let (off, xsdt) = root_table_of(data, i);
            &&& off + XSDT_HEADER_SIZE <= usize::MAX
            &&& root_table_present(data, off, xsdt) ==> le_u32(data, off + 4) >= XSDT_HEADER_SIZE
        },
    }
}

/// The entries of the root table at `off` whose declared length is `length`: as many
/// `width`-byte addresses as it declares, cut short at the end of `data`.
pub open spec fn root_entries(data: Seq<u8>, off: int, length: int, width: int) -> Seq<u64> {
    let count = (length - XSDT_HEADER_SIZE) / width;
    let room = (data.len() - off - XSDT_HEADER_SIZE) / width;
    let n = if count <= room {
        count
    } else {
        room
    };
    Seq::new(
        n as nat,
        |j: int|
            if width == 8 {
                le_u64(data, off + XSDT_HEADER_SIZE + j * 8) as u64
            } else {
                le_u32(data, off + XSDT_HEADER_SIZE + j * 4) as u64
            },
    )
}

/// The root table of `data` declares a length of at least a header that lies
/// inside `data`.
pub open spec fn root_length_fits(data: Seq<u8>) -> bool {
    let (off, xsdt) = root_table_of(data, rsdp_from(data, 0)->0);
    XSDT_HEADER_SIZE <= le_u32(data, off + 4) && off + le_u32(data, off + 4) <= data.len()
}

/// `a` lists every entry of the root table of `data`: (L - 36) / 4 little-endian
/// 32-bit addresses for an RSDT of declared length L, (L - 36) / 8 little-endian
/// 64-bit ones for an XSDT, entry j at table offset 36 + 4j or 36 + 8j.
pub open spec fn lists_root_entries(data: Seq<u8>, a: Seq<u64>) -> bool {
    let (off, xsdt) = root_table_of(data, rsdp_from(data, 0)->0);
    let l = le_u32(data, off + 4);
    &&& !xsdt ==> a.len() == (l - 36) / 4 && forall|j: int|
        0 <= j < (l - 36) / 4 ==> #[trigger] a[j] == le_u32(data, off + 36 + 4 * j)
    &&& xsdt ==> a.len() == (l - 36) / 8 && forall|j: int|
        0 <= j < (l - 36) / 8 ==> #[trigger] a[j] == le_u64(data, off + 36 + 8 * j)
}

/// A root table whose declared length L lies inside the data lists all its
/// entries: (L - 36) / 4 little-endian 32-bit addresses for an RSDT, (L - 36) / 8
/// little-endian 64-bit ones for an XSDT, entry j at table offset 36 + 4j or 36 + 8j.
pub proof fn lemma_root_entries_whole(data: Seq<u8>)
    requires
        acpi_parse_error(data) is None,
        root_length_fits(data),
    ensures
        lists_root_entries(data, acpi_addresses(data)),
{
    let (off, xsdt) = root_table_of(data, rsdp_from(data, 0)->0);
    let l = le_u32(data, off + 4);
    let len = data.len() as int;
    assert((l - 36) / 4 <= (len - off - 36) / 4 && (l - 36) / 8 <= (len - off - 36) / 8) by (nonlinear_arith)
        requires
            36 <= l,
            off + l <= len,
    ;
}

/// The table addresses that `parse` reads from `data`.
pub open spec fn acpi_addresses(data: Seq<u8>) -> Seq<u64> {
    let i = rsdp_from(data, 0)->0;
    let (off, xsdt) = root_table_of(data, i);
    root_entries(data, off, le_u32(data, off + 4), if xsdt {
        8
    } else {
        4
    })
}

/// The table `find_table` returns, as `(start, end)`, searching addresses from `k` on:
/// the first whose signature matches and whose declared length fits, stopping short
/// when a matching table's length field is cut off.
pub open spec fn find_from(data: Seq<u8>, addrs: Seq<u64>, sig: Seq<u8>, k: int) -> Option<(int, int)>
    decreases addrs.len() - k,
{
    if k < 0 || k >= addrs.len() {
        None
    } else {
        let a = addrs[k] as int;
        if a + 4 > data.len() || data.subrange(a, a + 4) != sig {
            find_from(data, addrs, sig, k + 1)
        } else if a + 8 > data.len() {
            None
        } else if a + le_u32(data, a + 4) <= data.len() {
            Some((a, a + le_u32(data, a + 4)))
        } else {
            find_from(data, addrs, sig, k + 1)
        }
    }
}

/// The signatures of the first `k` addresses that lie inside `data`.
pub open spec fn signatures_upto(data: Seq<u8>, addrs: Seq<u64>, k: int) -> Seq<Seq<u8>>
    decreases k,
{
    if k <= 0 {
        Seq::empty()
    } else {
        let prev = signatures_upto(data, addrs, k - 1);
        let a = addrs[k - 1] as int;
        if a + 4 <= data.len() {
            prev.push(data.subrange(a, a + 4))
        } else {
            prev
        }
    }
}

/// Every listed address plus a signature is addressable.
pub open spec fn addresses_addressable(addrs: Seq<u64>) -> bool {
    forall|k: int| 0 <= k < addrs.len() ==> #[trigger] addrs[k] + 4 <= usize::MAX
}

impl<'a> AcpiTables<'a> {
    pub closed spec fn spec_data(&self) -> Seq<u8> {
        self.data@
    }

    pub closed spec fn spec_addresses(&self) -> Seq<u64> {
        self.xsdt.table_addresses@
    }

    pub fn parse(data: &'a [u8]) -> (r: Result<Self, CoreError>)
        requires
            acpi_parse_defined(data@),
        ensures
            match acpi_parse_error(data@) {
                Some(e) => r == Err::<Self, CoreError>(e),
                None => r matches Ok(t) && t.spec_data() == data@ && t.spec_addresses()
                    == acpi_addresses(data@),
            },
            acpi_parse_error(data@) is None && root_length_fits(data@) ==> (r matches Ok(t)
                && lists_root_entries(data@, t.spec_addresses())),
    {
        proof {
            if acpi_parse_error(data@) is None && root_length_fits(data@) {
                lemma_root_entries_whole(data@);
            }
        }
        let rsdp = match Self::find_rsdp(data) {
            Ok(rsdp) => rsdp,
            Err(e) => return Err(e),
        };
        let ghost i = rsdp_from(data@, 0)->0;
        let use_xsdt = rsdp.xsdt_address != 0;
        if use_xsdt {
            let xsdt_offset = rsdp.xsdt_address as usize;
            if xsdt_offset + XSDT_HEADER_SIZE > data.len() {
                return Err(CoreError::AcpiInvalid("XSDT extends beyond data"));
            }
            let xsdt = match Self::parse_xsdt_table(data, xsdt_offset) {
                Ok(x) => x,
                Err(e) => return Err(e),
            };
            Ok(Self { data, xsdt })
        } else {
            let rsdt_offset = rsdp.rsdt_address as usize;
            if rsdt_offset + XSDT_HEADER_SIZE > data.len() {
                return Err(CoreError::AcpiInvalid("RSDT extends beyond data"));
            }
            let xsdt = match Self::parse_rsdt_table(data, rsdt_offset) {
                Ok(x) => x,
                Err(e) => return Err(e),
            };
            Ok(Self { data, xsdt })
        }
    }

    /// The first listed table with this signature whose declared length fits.
    pub fn find_table(&self, signature: &[u8; 4]) -> (r: Option<&'a [u8]>)
        requires
            addresses_addressable(self.spec_addresses()),
        ensures
            match find_from(self.spec_data(), self.spec_addresses(), signature@, 0) {
                Some((start, end)) => r matches Some(t) && t@ == self.spec_data().subrange(
                    start,
                    end,
                ),
                None => r is None,
            },
    {
        let ghost data = self.data@;
        let ghost addrs = self.xsdt.table_addresses@;
        let mut k: usize = 0;
        while k < self.xsdt.table_addresses.len()
            invariant
                data == self.data@,
                addrs == self.xsdt.table_addresses@,
                addresses_addressable(addrs),
                k <= addrs.len(),
                find_from(data, addrs, signature@, 0) == find_from(data, addrs, signature@, k as int),
            decreases addrs.len() - k,
        {
            let addr = self.xsdt.table_addresses[k];
            assert(addrs[k as int] + 4 <= usize::MAX);
            let offset = addr as usize;
            if offset + 4 <= self.data.len() && bytes_equal4(self.data, offset, signature) {
                if self.data.len() - offset < 8 {
                    return None;
                }
                let len = read_u32(self.data, offset + 4);
                if (len as usize) <= self.data.len() - offset {
                    let end = offset + len as usize;
                    return Some(&self.data[offset..end]);
                }
            }
            k = k + 1;
        }
        None
    }

    pub fn table_signatures(&self) -> (r: Vec<[u8; 4]>)
        requires
            addresses_addressable(self.spec_addresses()),
        ensures
            r@.len() == signatures_upto(
                self.spec_data(),
                self.spec_addresses(),
                self.spec_addresses().len() as int,
            ).len(),
            forall|j: int|
                0 <= j < r@.len() ==> (#[trigger] r@[j])@ == signatures_upto(
                    self.spec_data(),
                    self.spec_addresses(),
                    self.spec_addresses().len() as int,
                )[j],
    {
        let ghost data = self.data@;
        let ghost addrs = self.xsdt.table_addresses@;
        let mut out: Vec<[u8; 4]> = Vec::new();
        let mut k: usize = 0;
        while k < self.xsdt.table_addresses.len()
            invariant
                data == self.data@,
                addrs == self.xsdt.table_addresses@,
                addresses_addressable(addrs),
                k <= addrs.len(),
                out@.len() == signatures_upto(data, addrs, k as int).len(),
                forall|j: int|
                    0 <= j < out@.len() ==> (#[trigger] out@[j])@ == signatures_upto(
                        data,
                        addrs,
                        k as int,
                    )[j],
            decreases addrs.len() - k,
        {
            let addr = self.xsdt.table_addresses[k];
            assert(addrs[k as int] + 4 <= usize::MAX);
            let offset = addr as usize;
            if offset + 4 <= self.data.len() {
                let sig = [
                    self.data[offset],
                    self.data[offset + 1],
                    self.data[offset + 2],
                    self.data[offset + 3],
                ];
                assert(sig@ =~= data.subrange(offset as int, offset + 4));
                out.push(sig);
            }
            k = k + 1;
        }
        out
    }

    fn find_rsdp(data: &[u8]) -> (r: Result<Rsdp, CoreError>)
        ensures
            data@.len() < RSDP_LENGTH ==> r == Err::<Rsdp, CoreError>(
                CoreError::AcpiNotFound("data too short for RSDP"),
            ),
            data@.len() >= RSDP_LENGTH ==> match rsdp_from(data@, 0) {
                None => r == Err::<Rsdp, CoreError>(CoreError::AcpiNotFound("RSDP")),
                Some(i) => r matches Ok(p) && {
                    let x = le_u64(data@, i + 24);
                    let length = if x != 0 {
                        le_u32(data@, i + 20)
                    } else {
                        RSDP_LENGTH as int
                    };
                    &&& p.signature@ == rsdp_signature()
                    &&& p.checksum == 0
                    &&& p.xsdt_address == x
                    &&& p.rsdt_address == le_u32(data@, i + 16)
                    &&& p.length == length
                    &&& p.extended_checksum == if length >= RSDP_LENGTH && i + length
                        <= data@.len() {
                        byte_sum(data@.subrange(i, i + length)) % 256
                    } else {
                        0
                    }
                },
            },
    {
        if data.len() < RSDP_LENGTH {
            return Err(CoreError::AcpiNotFound("data too short for RSDP"));
        }
        let end = data.len() - RSDP_LENGTH;
        let mut i: usize = 0;
        while i < end
            invariant
                end == data@.len() - RSDP_LENGTH,
                i <= end,
                rsdp_from(data@, 0) == rsdp_from(data@, i as int),
            decreases end - i,
        {
            let is_signature = data[i] == 0x52 && data[i + 1] == 0x53 && data[i + 2] == 0x44
                && data[i + 3] == 0x20 && data[i + 4] == 0x50 && data[i + 5] == 0x54 && data[i
                + 6] == 0x52 && data[i + 7] == 0x20;
            assert(is_signature == (data@.subrange(i as int, i + 8) == rsdp_signature())) by {
                if data@.subrange(i as int, i + 8) == rsdp_signature() {
                    assert(data@.subrange(i as int, i + 8)[0] == 0x52u8);
                    assert(data@.subrange(i as int, i + 8)[7] == 0x20u8);
                }
                if is_signature {
                    assert(data@.subrange(i as int, i + 8) =~= rsdp_signature());
                }
            }
            if is_signature {
                let rsdp_checksum = checksum(data, i, i + 20);
                if rsdp_checksum == 0 {
                    let xsdt_address = read_u64(data, i + 24);
                    let length: u32 = if xsdt_address != 0 {
                        read_u32(data, i + 20)
                    } else {
                        36
                    };
                    let ext_checksum = if length >= 36 && (length as usize) <= data.len() - i {
                        checksum(data, i, i + length as usize)
                    } else {
                        0
                    };
                    let signature = [
                        data[i],
                        data[i + 1],
                        data[i + 2],
                        data[i + 3],
                        data[i + 4],
                        data[i + 5],
                        data[i + 6],
                        data[i + 7],
                    ];
                    assert(signature@ =~= data@.subrange(i as int, i + 8));
                    return Ok(
                        Rsdp {
                            signature,
                            checksum: rsdp_checksum,
                            rsdt_address: read_u32(data, i + 16),
                            length,
                            xsdt_address,
                            extended_checksum: ext_checksum,
                        },
                    );
                }
            }
            i = i + 1;
        }
        Err(CoreError::AcpiNotFound("RSDP"))
    }

    fn parse_xsdt_table(data: &'a [u8], offset: usize) -> (r: Result<Xsdt, CoreError>)
        requires
            offset + XSDT_HEADER_SIZE <= usize::MAX,
            offset + XSDT_HEADER_SIZE <= data@.len() && data@.subrange(offset as int, offset + 4)
                == xsdt_signature() ==> le_u32(data@, offset + 4) >= XSDT_HEADER_SIZE,
        ensures
            offset + XSDT_HEADER_SIZE > data@.len() ==> r == Err::<Xsdt, CoreError>(
                CoreError::AcpiInvalid("XSDT header truncated"),
            ),
            offset + XSDT_HEADER_SIZE <= data@.len() && data@.subrange(offset as int, offset + 4)
                != xsdt_signature() ==> r == Err::<Xsdt, CoreError>(
                CoreError::AcpiInvalid("XSDT signature mismatch"),
            ),
            root_table_present(data@, offset as int, true) ==> (r matches Ok(x) && header_of(
                data@,
                offset as int,
                x.header,
            ) && x.table_addresses@ == root_entries(
                data@,
                offset as int,
                le_u32(data@, offset + 4),
                8,
            )),
    {
        if offset + XSDT_HEADER_SIZE > data.len() {
            return Err(CoreError::AcpiInvalid("XSDT header truncated"));
        }
        if !(data[offset] == 0x58 && data[offset + 1] == 0x53 && data[offset + 2] == 0x44
            && data[offset + 3] == 0x54) {
            assert(data@.subrange(offset as int, offset + 4) != xsdt_signature()) by {
                if data@.subrange(offset as int, offset + 4) == xsdt_signature() {
                    assert(data@.subrange(offset as int, offset + 4)[0] == 0x58u8);
                    assert(data@.subrange(offset as int, offset + 4)[3] == 0x54u8);
                }
            }
            return Err(CoreError::AcpiInvalid("XSDT signature mismatch"));
        }
        assert(data@.subrange(offset as int, offset + 4) =~= xsdt_signature());
        let header = match parse_table_header(data, offset) {
            Ok(h) => h,
            Err(e) => return Err(e),
        };
        let table_addresses = read_entries(data, offset, header.length, 8);
        Ok(Xsdt { header, table_addresses })
    }

    fn parse_rsdt_table(data: &'a [u8], offset: usize) -> (r: Result<Xsdt, CoreError>)
        requires
            offset + XSDT_HEADER_SIZE <= usize::MAX,
            offset + XSDT_HEADER_SIZE <= data@.len() && data@.subrange(offset as int, offset + 4)
                == rsdt_signature() ==> le_u32(data@, offset + 4) >= XSDT_HEADER_SIZE,
        ensures
            offset + XSDT_HEADER_SIZE > data@.len() ==> r == Err::<Xsdt, CoreError>(
                CoreError::AcpiInvalid("RSDT header truncated"),
            ),
            offset + XSDT_HEADER_SIZE <= data@.len() && data@.subrange(offset as int, offset + 4)
                != rsdt_signature() ==> r == Err::<Xsdt, CoreError>(
                CoreError::AcpiInvalid("RSDT signature mismatch"),
            ),
            root_table_present(data@, offset as int, false) ==> (r matches Ok(x) && header_of(
                data@,
                offset as int,
                x.header,
            ) && x.table_addresses@ == root_entries(
                data@,
                offset as int,
                le_u32(data@, offset + 4),
                4,
            )),
    {
        if offset + XSDT_HEADER_SIZE > data.len() {
            return Err(CoreError::AcpiInvalid("RSDT header truncated"));
        }
        if !(data[offset] == 0x52 && data[offset + 1] == 0x53 && data[offset + 2] == 0x44
            && data[offset + 3] == 0x54) {
            assert(data@.subrange(offset as int, offset + 4) != rsdt_signature()) by {
                if data@.subrange(offset as int, offset + 4) == rsdt_signature() {
                    assert(data@.subrange(offset as int, offset + 4)[0] == 0x52u8);
                    assert(data@.subrange(offset as int, offset + 4)[3] == 0x54u8);
                }
            }
            return Err(CoreError::AcpiInvalid("RSDT signature mismatch"));
        }
        assert(data@.subrange(offset as int, offset + 4) =~= rsdt_signature());
        let header = match parse_table_header(data, offset) {
            Ok(h) => h,
            Err(e) => return Err(e),
        };
        let table_addresses = read_entries(data, offset, header.length, 4);
        Ok(Xsdt { header, table_addresses })
    }
}

/// `header` holds the standard table header fields at `offset`.
pub open spec fn header_of(data: Seq<u8>, offset: int, header: AcpiTableHeader) -> bool {
    &&& header.length == le_u32(data, offset + 4)
    &&& header.revision == data[offset + 8]
    &&& header.checksum == data[offset + 9]
    &&& header.oem_id@ == data.subrange(offset + 10, offset + 16)
    &&& header.oem_table_id@ == data.subrange(offset + 16, offset + 24)
}

fn parse_table_header(data: &[u8], offset: usize) -> (r: Result<AcpiTableHeader, CoreError>)
    requires
        offset + 36 <= usize::MAX,
    ensures
        offset + 36 > data@.len() ==> r == Err::<AcpiTableHeader, CoreError>(
            CoreError::AcpiInvalid("table header extends beyond data"),
        ),
        offset + 36 <= data@.len() ==> (r matches Ok(h) && header_of(data@, offset as int, h)),
{
    let end = offset + 36;
    if end > data.len() {
        return Err(CoreError::AcpiInvalid("table header extends beyond data"));
    }
    let length = read_u32(data, offset + 4);
    let revision = data[offset + 8];
    let checksum = data[offset + 9];
    let oem_id = [
        data[offset + 10],
        data[offset + 11],
        data[offset + 12],
        data[offset + 13],
        data[offset + 14],
        data[offset + 15],
    ];
    let oem_table_id = [
        data[offset + 16],
        data[offset + 17],
        data[offset + 18],
        data[offset + 19],
        data[offset + 20],
        data[offset + 21],
        data[offset + 22],
        data[offset + 23],
    ];
    assert(oem_id@ =~= data@.subrange(offset + 10, offset + 16));
    assert(oem_table_id@ =~= data@.subrange(offset + 16, offset + 24));
    Ok(AcpiTableHeader { length, revision, checksum, oem_id, oem_table_id })
}

/// The `width`-byte entry addresses of the root table at `offset`.
fn read_entries(data: &[u8], offset: usize, length: u32, width: usize) -> (r: Vec<u64>)
    requires
        offset + XSDT_HEADER_SIZE <= data@.len(),
        length >= XSDT_HEADER_SIZE,
        width == 8 || width == 4,
    ensures
        r@ == root_entries(data@, offset as int, length as int, width as int),
{
    let count = (length as usize - XSDT_HEADER_SIZE) / width;
    // Entries stop at the end of the data as well as at the declared length.
    let room = (data.len() - offset - XSDT_HEADER_SIZE) / width;
    let limit = if count <= room {
        count
    } else {
        room
    };
    let mut table_addresses: Vec<u64> = Vec::new();
    let dlen = data.len();
    let mut i: usize = 0;
    while i < limit
        invariant
            dlen == data@.len(),
            offset + XSDT_HEADER_SIZE <= data@.len(),
            width == 8 || width == 4,
            room == (data@.len() - offset - XSDT_HEADER_SIZE) / (width as int),
            limit <= room,
            i <= limit,
            limit == root_entries(data@, offset as int, length as int, width as int).len(),
            table_addresses@ == root_entries(data@, offset as int, length as int, width as int).take(
                i as int,
            ),
        decreases limit - i,
    {
        assert(offset + XSDT_HEADER_SIZE + i * width + width <= data@.len()) by (nonlinear_arith)
            requires
                i < limit,
                limit <= room,
                room == (data@.len() - offset - XSDT_HEADER_SIZE) / (width as int),
                width > 0,
                offset + XSDT_HEADER_SIZE <= data@.len(),
        ;
        let addr_offset = offset + XSDT_HEADER_SIZE + i * width;
        let addr = if width == 8 {
            read_u64(data, addr_offset)
        } else {
            read_u32(data, addr_offset) as u64
        };
        table_addresses.push(addr);
        i = i + 1;
        assert(table_addresses@ =~= root_entries(data@, offset as int, length as int, width as int).take(
            i as int,
        ));
    }
    assert(table_addresses@ =~= root_entries(data@, offset as int, length as int, width as int));
    table_addresses
}

/// `data[at..at + 4]` equals `sig`.
fn bytes_equal4(data: &[u8], at: usize, sig: &[u8; 4]) -> (r: bool)
    requires
        at + 4 <= data@.len(),
    ensures
        r == (data@.subrange(at as int, at + 4) == sig@),
{
    let r = data[at] == sig[0] && data[at + 1] == sig[1] && data[at + 2] == sig[2] && data[at + 3]
        == sig[3];
    proof {
        if r {
            assert(data@.subrange(at as int, at + 4) =~= sig@);
        } else if data@.subrange(at as int, at + 4) == sig@ {
            assert(data@.subrange(at as int, at + 4)[0] == sig@[0]);
            assert(data@.subrange(at as int, at + 4)[1] == sig@[1]);
            assert(data@.subrange(at as int, at + 4)[2] == sig@[2]);
            assert(data@.subrange(at as int, at + 4)[3] == sig@[3]);
        }
    }
    r
}

/// The ACPI checksum of `data[start..end]`: its byte sum modulo 256.
fn checksum(data: &[u8], start: usize, end: usize) -> (r: u8)
    requires
        start <= end <= data@.len(),
    ensures
        r == byte_sum(data@.subrange(start as int, end as int)) % 256,
{
    let mut acc: u8 = 0;
    let mut k = start;
    while k < end
        invariant
            start <= k <= end <= data@.len(),
            acc == byte_sum(data@.subrange(start as int, k as int)) % 256,
        decreases end - k,
    {
        let ghost prefix = data@.subrange(start as int, k as int);
        let ghost next = data@.subrange(start as int, k + 1);
        assert(next.drop_last() =~= prefix);
        assert(next.last() == data@[k as int]);
        let b = data[k];
        proof {
            let s = byte_sum(prefix);
            assert(s >= 0) by {
                lemma_byte_sum_nonneg(prefix);
            }
            assert(((s % 256) + b) % 256 == (s + b) % 256) by (nonlinear_arith)
                requires
                    s >= 0,
            ;
        }
        acc = ((acc as u16 + b as u16) % 256) as u8;
        k = k + 1;
    }
    acc
}

proof fn lemma_byte_sum_nonneg(s: Seq<u8>)
    ensures
        byte_sum(s) >= 0,
    decreases s.len(),
{
    if s.len() > 0 {
        lemma_byte_sum_nonneg(s.drop_last());
    }
}

proof fn lemma_found_at(data: Seq<u8>, addrs: Seq<u64>, sig: Seq<u8>, k: int)
    requires
        find_from(data, addrs, sig, k) is Some,
    ensures
        exists|m: int|
            k <= m < addrs.len() && addrs[m] + 4 <= data.len() && #[trigger] data.subrange(
                addrs[m] as int,
                addrs[m] + 4,
            ) == sig,
    decreases addrs.len() - k,
{
    let a = addrs[k] as int;
    if a + 4 > data.len() || data.subrange(a, a + 4) != sig {
        lemma_found_at(data, addrs, sig, k + 1);
    } else if a + le_u32(data, a + 4) > data.len() {
        lemma_found_at(data, addrs, sig, k + 1);
    }
}

proof fn lemma_listed(data: Seq<u8>, addrs: Seq<u64>, m: int, n: int)
    requires
        0 <= m < n <= addrs.len(),
        addrs[m] + 4 <= data.len(),
    ensures
        signatures_upto(data, addrs, n).contains(data.subrange(addrs[m] as int, addrs[m] + 4)),
    decreases n,
{
    let x = data.subrange(addrs[m] as int, addrs[m] + 4);
    if m == n - 1 {
        let prev = signatures_upto(data, addrs, n - 1);
        assert(signatures_upto(data, addrs, n) == prev.push(x));
        assert(prev.push(x)[prev.len() as int] == x);
    } else {
        lemma_listed(data, addrs, m, n - 1);
        let prev = signatures_upto(data, addrs, n - 1);
        let j = choose|j: int| 0 <= j < prev.len() && prev[j] == x;
        let a = addrs[n - 1] as int;
        if a + 4 <= data.len() {
            assert(prev.push(data.subrange(a, a + 4))[j] == x);
        }
    }
}

/// A table that `find_table` finds carries a signature that `table_signatures` lists.
pub proof fn lemma_found_table_is_listed(t: &AcpiTables, sig: Seq<u8>)
    requires
        find_from(t.spec_data(), t.spec_addresses(), sig, 0) is Some,
    ensures
        signatures_upto(
            t.spec_data(),
            t.spec_addresses(),
            t.spec_addresses().len() as int,
        ).contains(sig),
{
    let data = t.spec_data();
    let addrs = t.spec_addresses();
    lemma_found_at(data, addrs, sig, 0);
    let m = choose|m: int|
        0 <= m < addrs.len() && addrs[m] + 4 <= data.len() && #[trigger] data.subrange(
            addrs[m] as int,
            addrs[m] + 4,
        ) == sig;
    lemma_listed(data, addrs, m, addrs.len() as int);
}

} // verus!
