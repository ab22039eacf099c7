//! Adapter records: the raw per-adapter data walked out of the platform's
//! linked records, the owned record assembled from it, the per-entry address
//! decoding, and the enumeration itself with its two-pass buffer-sizing
//! protocol.

use vstd::prelude::*;

use crate::ipv4;
use crate::ipv6;
use crate::text;

verus! {

/// The platform's tag for an IPv4 socket address.
pub const AF_INET: u16 = 2;

/// The platform's tag for an IPv6 socket address.
pub const AF_INET6: u16 = 23;

/// The platform's status code for a successful query.
pub const NO_ERROR: u32 = 0;

/// The operational state of an adapter that is up.
pub const OPER_STATUS_UP: u32 = 1;

/// One raw socket address as handed over by the platform: the address-family
/// tag and that family's address bytes (4 for IPv4, 16 for IPv6).
pub struct RawSockAddr {
    pub family: u16,
    pub data: Vec<u8>,
}

/// One adapter's raw data, walked out of the platform's linked records:
/// the identifier's bytes, the wide-character name and description without
/// their terminators, the operational state, and the nested address lists in
/// the platform's order.
pub struct RawAdapter {
    pub adapter_name: Vec<u8>,
    pub friendly_name: Vec<u16>,
    pub description: Vec<u16>,
    pub oper_status: u32,
    pub unicast: Vec<RawSockAddr>,
    pub gateways: Vec<RawSockAddr>,
    pub dns: Vec<RawSockAddr>,
    pub prefixes: Vec<RawSockAddr>,
}

/// The text field that failed to decode.
#[derive(Debug, Clone, Copy, PartialEq, Eq, Structural)]
pub enum TextField {
    AdapterName,
    FriendlyName,
    Description,
}

/// Why an enumeration was aborted: the platform reported a non-success
/// status on the data-fetch call, a text field could not be decoded, or an
/// address entry's bytes did not match its family.
#[derive(Debug, Clone, Copy, PartialEq, Eq, Structural)]
pub enum AdapterError {
    PlatformQuery { code: u32 },
    TextDecoding { field: TextField },
    AddressConversion,
}

/// One network adapter's addressing information.
#[derive(Debug)]
pub struct AdapterInfo {
    pub adapter_name: String,
    pub friendly_name: String,
    pub description: String,
    pub state: u32,
    pub in_addr: Vec<String>,
    pub in6_addr: Vec<String>,
    pub in_gw_addr: Vec<String>,
    pub in6_gw_addr: Vec<String>,
    pub in_dns_addr: Vec<String>,
    pub in6_dns_addr: Vec<String>,
    pub ip_mask: String,
}

// ---------------------------------------------------------------------------
// Decoding one socket address
// ---------------------------------------------------------------------------

/// The entry's byte count matches its family.
pub open spec fn sockaddr_ok(sa: RawSockAddr) -> bool {
    &&& (sa.family == AF_INET ==> sa.data@.len() == 4)
    &&& (sa.family == AF_INET6 ==> sa.data@.len() == 16)
}

/// The dotted-decimal text of an IPv4 entry.
pub open spec fn v4_text_of(sa: RawSockAddr) -> Seq<char> {
    ipv4::ipv4_text(
        sa.data@[0] as int,
        sa.data@[1] as int,
        sa.data@[2] as int,
        sa.data@[3] as int,
    )
}

/// The 32-bit address of an IPv4 entry.
pub open spec fn v4_addr_of(sa: RawSockAddr) -> u32 {
    ipv4::u32_of_octets(sa.data@[0], sa.data@[1], sa.data@[2], sa.data@[3])
}

/// The canonical text of an IPv6 entry.
pub open spec fn v6_text_of(sa: RawSockAddr) -> Seq<char> {
    ipv6::ipv6_text(ipv6::groups_of_bytes(sa.data@))
}

/// Every entry's byte count matches its family.
pub open spec fn entries_ok(entries: Seq<RawSockAddr>) -> bool {
    forall|i: int| 0 <= i < entries.len() ==> sockaddr_ok(#[trigger] entries[i])
}

/// Every IPv4 entry has its four address bytes.
pub open spec fn v4_entries_ok(entries: Seq<RawSockAddr>) -> bool {
    forall|i: int|
        0 <= i < entries.len() && (#[trigger] entries[i]).family == AF_INET ==> entries[i].data@.len()
            == 4
}

/// The texts of the IPv4 entries of a list, in the list's order.
pub open spec fn v4_texts(entries: Seq<RawSockAddr>) -> Seq<Seq<char>>
    decreases entries.len(),
{
    if entries.len() == 0 {
        Seq::empty()
    } else {
        let rest = v4_texts(entries.drop_last());
        if entries.last().family == AF_INET {
            rest.push(v4_text_of(entries.last()))
        } else {
            rest
        }
    }
}

/// The 32-bit addresses of the IPv4 entries of a list, in the list's order.
pub open spec fn v4_addrs(entries: Seq<RawSockAddr>) -> Seq<u32>
    decreases entries.len(),
{
    if entries.len() == 0 {
        Seq::empty()
    } else {
        let rest = v4_addrs(entries.drop_last());
        if entries.last().family == AF_INET {
            rest.push(v4_addr_of(entries.last()))
        } else {
            rest
        }
    }
}

/// The texts of the IPv6 entries of a list, in the list's order.
pub open spec fn v6_texts(entries: Seq<RawSockAddr>) -> Seq<Seq<char>>
    decreases entries.len(),
{
    if entries.len() == 0 {
        Seq::empty()
    } else {
        let rest = v6_texts(entries.drop_last());
        if entries.last().family == AF_INET6 {
            rest.push(v6_text_of(entries.last()))
        } else {
            rest
        }
    }
}

/// Decodes one socket address into text and appends it to the output list of
/// its family; an entry of any other family is ignored. An entry whose byte
/// count does not match its family is a conversion fault.
pub fn get_ip_addr(addr: &RawSockAddr, in_addr: &mut Vec<String>, in6_addr: &mut Vec<String>) -> (r:
    Result<(), AdapterError>)
    ensures
        match r {
            Ok(_) => {
                &&& sockaddr_ok(*addr)
                &&& (addr.family == AF_INET ==> final(in_addr).deep_view() == old(in_addr).deep_view().push(v4_text_of(*addr)) && final(in6_addr)@ == old(in6_addr)@)
                &&& (addr.family == AF_INET6 ==> final(in6_addr).deep_view() == old(in6_addr).deep_view().push(v6_text_of(*addr)) && final(in_addr)@ == old(in_addr)@)
                &&& (addr.family != AF_INET && addr.family != AF_INET6 ==> final(in_addr)@ == old(in_addr)@ && final(in6_addr)@ == old(in6_addr)@)
            },
            Err(e) => {
                &&& e == AdapterError::AddressConversion
                &&& !sockaddr_ok(*addr)
                &&& final(in_addr)@ == old(in_addr)@
                &&& final(in6_addr)@ == old(in6_addr)@
            },
        },
{
    if addr.family == AF_INET {
        if addr.data.len() != 4 {
            return Err(AdapterError::AddressConversion);
        }
        let ghost dv = in_addr.deep_view();
        let s = ipv4::ipv4_string(addr.data[0], addr.data[1], addr.data[2], addr.data[3]);
        in_addr.push(s);
        proof {
            assert(in_addr.deep_view() =~= dv.push(v4_text_of(*addr)));
        }
        Ok(())
    } else if addr.family == AF_INET6 {
        if addr.data.len() != 16 {
            return Err(AdapterError::AddressConversion);
        }
        let ghost dv = in6_addr.deep_view();
        let s = ipv6::ipv6_string(&addr.data);
        in6_addr.push(s);
        proof {
            assert(in6_addr.deep_view() =~= dv.push(v6_text_of(*addr)));
        }
        Ok(())
    } else {
        Ok(())
    }
}

/// Decodes one socket address into text if it is IPv4 and appends it; any
/// other family is ignored. An IPv4 entry without its four address bytes is
/// a conversion fault.
pub fn get_ipv4_addr(addr: &RawSockAddr, in_addr: &mut Vec<String>) -> (r: Result<
    (),
    AdapterError,
>)
    ensures
        match r {
            Ok(_) => {
                &&& (addr.family == AF_INET ==> addr.data@.len() == 4 && final(in_addr).deep_view() == old(in_addr).deep_view().push(v4_text_of(*addr)))
                &&& (addr.family != AF_INET ==> final(in_addr)@ == old(in_addr)@)
            },
            Err(e) => {
                &&& e == AdapterError::AddressConversion
                &&& addr.family == AF_INET && addr.data@.len() != 4
                &&& final(in_addr)@ == old(in_addr)@
            },
        },
{
    if addr.family == AF_INET {
        if addr.data.len() != 4 {
            return Err(AdapterError::AddressConversion);
        }
        let ghost dv = in_addr.deep_view();
        let s = ipv4::ipv4_string(addr.data[0], addr.data[1], addr.data[2], addr.data[3]);
        in_addr.push(s);
        proof {
            assert(in_addr.deep_view() =~= dv.push(v4_text_of(*addr)));
        }
        Ok(())
    } else {
        Ok(())
    }
}

} // verus!

verus! {

// ---------------------------------------------------------------------------
// Building one record
// ---------------------------------------------------------------------------

/// The fault, if any, that aborts the build of one adapter's record, in the
/// order the build looks at the raw data.
pub open spec fn adapter_raw_ok(r: RawAdapter) -> Option<AdapterError> {
    if !text::ascii_ok(r.adapter_name@) {
        Some(AdapterError::TextDecoding { field: TextField::AdapterName })
    } else if text::utf16_chars(r.friendly_name@) is None {
        Some(AdapterError::TextDecoding { field: TextField::FriendlyName })
    } else if text::utf16_chars(r.description@) is None {
        Some(AdapterError::TextDecoding { field: TextField::Description })
    } else if !entries_ok(r.unicast@) || !entries_ok(r.gateways@) || !entries_ok(r.dns@) {
        Some(AdapterError::AddressConversion)
    } else if r.oper_status == OPER_STATUS_UP && !v4_entries_ok(r.prefixes@) {
        Some(AdapterError::AddressConversion)
    } else {
        None
    }
}

/// The subnet mask text inferred from collected IPv4 prefix addresses: the
/// netmask of the longest prefix length whose broadcast of the first entry is
/// the third entry, empty when fewer than three entries were collected or no
/// length matches.
pub open spec fn mask_text(addrs: Seq<u32>) -> Seq<char> {
    if addrs.len() > 2 {
        match ipv4::matching_prefix(addrs[0], addrs[2]) {
            Some(l) => ipv4::u32_ipv4_text(ipv4::spec_netmask(l)),
            None => Seq::empty(),
        }
    } else {
        Seq::empty()
    }
}

/// The subnet mask text of one adapter: inferred from its IPv4 prefix
/// entries when the adapter is up, empty otherwise.
pub open spec fn spec_adapter_mask(r: RawAdapter) -> Seq<char> {
    if r.oper_status == OPER_STATUS_UP {
        mask_text(v4_addrs(r.prefixes@))
    } else {
        Seq::empty()
    }
}

/// The record `a` is exactly what the raw data `r` decodes to.
pub open spec fn adapter_matches(a: AdapterInfo, r: RawAdapter) -> bool {
    &&& a.adapter_name@ == text::ascii_chars(r.adapter_name@)
    &&& Some(a.friendly_name@) == text::utf16_chars(r.friendly_name@)
    &&& Some(a.description@) == text::utf16_chars(r.description@)
    &&& a.state == r.oper_status
    &&& a.in_addr.deep_view() == v4_texts(r.unicast@)
    &&& a.in6_addr.deep_view() == v6_texts(r.unicast@)
    &&& a.in_gw_addr.deep_view() == v4_texts(r.gateways@)
    &&& a.in6_gw_addr.deep_view() == v6_texts(r.gateways@)
    &&& a.in_dns_addr.deep_view() == v4_texts(r.dns@)
    &&& a.in6_dns_addr.deep_view() == v6_texts(r.dns@)
    &&& a.ip_mask@ == spec_adapter_mask(r)
}

/// Each collected IPv4 text is canonical and stands for the collected
/// address at the same position.
proof fn lemma_v4_lists_align(entries: Seq<RawSockAddr>)
    ensures
        v4_texts(entries).len() == v4_addrs(entries).len(),
        forall|i: int|
            0 <= i < v4_texts(entries).len() ==> ipv4::is_canonical_ipv4(
                #[trigger] v4_texts(entries)[i],
            ) && ipv4::spec_u32_of_text(v4_texts(entries)[i]) == v4_addrs(entries)[i],
    decreases entries.len(),
{
    if entries.len() > 0 {
        lemma_v4_lists_align(entries.drop_last());
        let e = entries.last();
        if e.family == AF_INET {
            ipv4::lemma_octets_of_text(e.data@[0], e.data@[1], e.data@[2], e.data@[3]);
            assert(v4_text_of(e) == ipv4::ipv4_text(
                e.data@[0] as int,
                e.data@[1] as int,
                e.data@[2] as int,
                e.data@[3] as int,
            ));
        }
    }
}

/// Decodes a list of socket addresses into the IPv4 and IPv6 text lists.
fn decode_entry_list(entries: &Vec<RawSockAddr>) -> (r: Result<
    (Vec<String>, Vec<String>),
    AdapterError,
>)
    ensures
        match r {
            Ok(lists) => {
                &&& entries_ok(entries@)
                &&& lists.0.deep_view() == v4_texts(entries@)
                &&& lists.1.deep_view() == v6_texts(entries@)
            },
            Err(e) => e == AdapterError::AddressConversion && !entries_ok(entries@),
        },
{
    let mut v4: Vec<String> = Vec::new();
    let mut v6: Vec<String> = Vec::new();
    let mut i: usize = 0;
    proof {
        assert(entries@.subrange(0, 0) =~= Seq::<RawSockAddr>::empty());
        assert(v4.deep_view() =~= v4_texts(entries@.subrange(0, 0)));
        assert(v6.deep_view() =~= v6_texts(entries@.subrange(0, 0)));
    }
    while i < entries.len()
        invariant
            i <= entries@.len(),
            forall|j: int| 0 <= j < i ==> sockaddr_ok(#[trigger] entries@[j]),
            v4.deep_view() == v4_texts(entries@.subrange(0, i as int)),
            v6.deep_view() == v6_texts(entries@.subrange(0, i as int)),
        decreases entries@.len() - i,
    {
        match get_ip_addr(&entries[i], &mut v4, &mut v6) {
            Ok(_) => {},
            Err(e) => {
                return Err(e);
            },
        }
        proof {
            let sub1 = entries@.subrange(0, i as int + 1);
            assert(sub1.drop_last() =~= entries@.subrange(0, i as int));
            assert(sub1.last() == entries@[i as int]);
        }
        i = i + 1;
    }
    proof {
        assert(entries@.subrange(0, entries@.len() as int) =~= entries@);
    }
    Ok((v4, v6))
}

/// Collects the texts of the IPv4 prefix entries of an adapter that is up.
fn collect_prefix_texts(entries: &Vec<RawSockAddr>, oper_status: u32) -> (r: Result<
    Vec<String>,
    AdapterError,
>)
    ensures
        match r {
            Ok(list) => {
                &&& (oper_status == OPER_STATUS_UP ==> v4_entries_ok(entries@)
                    && list.deep_view() == v4_texts(entries@))
                &&& (oper_status != OPER_STATUS_UP ==> list@.len() == 0)
            },
            Err(e) => {
                &&& e == AdapterError::AddressConversion
                &&& oper_status == OPER_STATUS_UP
                &&& !v4_entries_ok(entries@)
            },
        },
{
    let mut out: Vec<String> = Vec::new();
    let mut i: usize = 0;
    proof {
        assert(entries@.subrange(0, 0) =~= Seq::<RawSockAddr>::empty());
        assert(out.deep_view() =~= v4_texts(entries@.subrange(0, 0)));
    }
    while i < entries.len()
        invariant
            i <= entries@.len(),
            oper_status == OPER_STATUS_UP ==> {
                &&& forall|j: int|
                    0 <= j < i && (#[trigger] entries@[j]).family == AF_INET
                        ==> entries@[j].data@.len() == 4
                &&& out.deep_view() == v4_texts(entries@.subrange(0, i as int))
            },
            oper_status != OPER_STATUS_UP ==> out@.len() == 0,
        decreases entries@.len() - i,
    {
        if entries[i].family == AF_INET && oper_status == OPER_STATUS_UP {
            match get_ipv4_addr(&entries[i], &mut out) {
                Ok(_) => {},
                Err(e) => {
                    return Err(e);
                },
            }
        }
        proof {
            if oper_status == OPER_STATUS_UP {
                let sub1 = entries@.subrange(0, i as int + 1);
                assert(sub1.drop_last() =~= entries@.subrange(0, i as int));
                assert(sub1.last() == entries@[i as int]);
            }
        }
        i = i + 1;
    }
    proof {
        assert(entries@.subrange(0, entries@.len() as int) =~= entries@);
    }
    Ok(out)
}

/// Builds one adapter's record from its raw data: decodes the identifier,
/// name and description, decodes the three address lists, and infers the
/// subnet mask from the IPv4 prefix entries when more than two were
/// collected.
pub fn build_adapter(raw: &RawAdapter) -> (r: Result<AdapterInfo, AdapterError>)
    ensures
        match r {
            Ok(a) => adapter_raw_ok(*raw) is None && adapter_matches(a, *raw),
            Err(e) => adapter_raw_ok(*raw) == Some(e),
        },
{
    let adapter_name = match text::ascii_string(&raw.adapter_name) {
        Some(s) => s,
        None => {
            return Err(AdapterError::TextDecoding { field: TextField::AdapterName });
        },
    };
    let friendly_name = match text::utf16_string(&raw.friendly_name) {
        Some(s) => s,
        None => {
            return Err(AdapterError::TextDecoding { field: TextField::FriendlyName });
        },
    };
    let description = match text::utf16_string(&raw.description) {
        Some(s) => s,
        None => {
            return Err(AdapterError::TextDecoding { field: TextField::Description });
        },
    };
    let (in_addr, in6_addr) = match decode_entry_list(&raw.unicast) {
        Ok(lists) => lists,
        Err(e) => {
            return Err(e);
        },
    };
    let (in_gw_addr, in6_gw_addr) = match decode_entry_list(&raw.gateways) {
        Ok(lists) => lists,
        Err(e) => {
            return Err(e);
        },
    };
    let (in_dns_addr, in6_dns_addr) = match decode_entry_list(&raw.dns) {
        Ok(lists) => lists,
        Err(e) => {
            return Err(e);
        },
    };
    let addr_list = match collect_prefix_texts(&raw.prefixes, raw.oper_status) {
        Ok(list) => list,
        Err(e) => {
            return Err(e);
        },
    };
    let mut ip_mask = String::new();
    assert(ip_mask@ =~= Seq::<char>::empty());
    if addr_list.len() > 2 {
        proof {
            lemma_v4_lists_align(raw.prefixes@);
            assert(raw.oper_status == OPER_STATUS_UP);
            assert(addr_list.deep_view().len() == addr_list@.len());
            assert(addr_list@[0]@ == addr_list.deep_view()[0]);
            assert(addr_list@[2]@ == addr_list.deep_view()[2]);
            assert(addr_list.deep_view()[0] == v4_texts(raw.prefixes@)[0]);
            assert(addr_list.deep_view()[2] == v4_texts(raw.prefixes@)[2]);
            assert(ipv4::is_canonical_ipv4(v4_texts(raw.prefixes@)[0]));
            assert(ipv4::is_canonical_ipv4(v4_texts(raw.prefixes@)[2]));
            assert(ipv4::spec_u32_of_text(v4_texts(raw.prefixes@)[0]) == v4_addrs(
                raw.prefixes@,
            )[0]);
            assert(ipv4::spec_u32_of_text(v4_texts(raw.prefixes@)[2]) == v4_addrs(
                raw.prefixes@,
            )[2]);
            assert(v4_addrs(raw.prefixes@).len() > 2);
        }
        match ipv4::calculate_subnet_info(&addr_list[0], &addr_list[2]) {
            Some(m) => {
                ip_mask = m;
            },
            None => {},
        }
        assert(ip_mask@ == mask_text(v4_addrs(raw.prefixes@)));
    } else {
        proof {
            lemma_v4_lists_align(raw.prefixes@);
            if raw.oper_status == OPER_STATUS_UP {
                assert(addr_list.deep_view().len() == addr_list@.len());
                assert(v4_addrs(raw.prefixes@).len() <= 2);
            }
        }
    }
    assert(ip_mask@ == spec_adapter_mask(*raw));
    Ok(
        AdapterInfo {
            adapter_name,
            friendly_name,
            description,
            state: raw.oper_status,
            in_addr,
            in6_addr,
            in_gw_addr,
            in6_gw_addr,
            in_dns_addr,
            in6_dns_addr,
            ip_mask,
        },
    )
}

} // verus!

verus! {

// ---------------------------------------------------------------------------
// Enumeration and the two-pass buffer-sizing protocol
// ---------------------------------------------------------------------------

/// One call the enumeration asks the platform to make: a sizing probe with a
/// null buffer, or the data fetch with a buffer of the given byte count.
#[derive(Debug, Clone, Copy, PartialEq, Eq, Structural)]
pub enum QueryCall {
    SizeProbe,
    DataFetch { buffer_bytes: u32 },
}

/// The first platform call of the two-pass protocol: a probe with a null
/// buffer, made only to learn the needed byte count.
pub fn first_adapter_query() -> (c: QueryCall)
    ensures
        c == QueryCall::SizeProbe,
{
    QueryCall::SizeProbe
}

/// The second platform call: fetch into a buffer of exactly the byte count
/// the probe reported. The probe's own status is ignored here — it is
/// expected to report that the null buffer was too small.
pub fn second_adapter_query(probe_status: u32, bytes_needed: u32) -> (c: QueryCall)
    ensures
        c == (QueryCall::DataFetch { buffer_bytes: bytes_needed }),
{
    let _ = probe_status;
    QueryCall::DataFetch { buffer_bytes: bytes_needed }
}

/// The adapter at position `i` is the first whose raw data is faulty, with
/// fault `e`.
pub open spec fn first_failure(adapters: Seq<RawAdapter>, e: AdapterError, i: int) -> bool {
    &&& 0 <= i < adapters.len()
    &&& adapter_raw_ok(adapters[i]) == Some(e)
    &&& forall|j: int| 0 <= j < i ==> adapter_raw_ok(#[trigger] adapters[j]) is None
}

/// Assembles one record per adapter from the data-fetch call's outcome: a
/// non-success status is a platform-query fault with that status code and no
/// partial results; otherwise each raw adapter decodes to its record, and the
/// first faulty one aborts the whole enumeration.
pub fn get_all_adapter_info(status: u32, adapters: Vec<RawAdapter>) -> (r: Result<
    Vec<AdapterInfo>,
    AdapterError,
>)
    ensures
        status != NO_ERROR ==> (r matches Err(e) && e == (AdapterError::PlatformQuery {
            code: status,
        })),
        status == NO_ERROR ==> match r {
            Ok(list) => list@.len() == adapters@.len() && forall|i: int|
                0 <= i < adapters@.len() ==> adapter_raw_ok(adapters@[i]) is None
                    && adapter_matches(#[trigger] list@[i], adapters@[i]),
            Err(e) => exists|i: int| first_failure(adapters@, e, i),
        },
{
    if status != NO_ERROR {
        return Err(AdapterError::PlatformQuery { code: status });
    }
    let mut out: Vec<AdapterInfo> = Vec::new();
    let mut i: usize = 0;
    while i < adapters.len()
        invariant
            status == NO_ERROR,
            i <= adapters@.len(),
            out@.len() == i,
            forall|j: int| 0 <= j < i ==> adapter_raw_ok(#[trigger] adapters@[j]) is None,
            forall|j: int| 0 <= j < i ==> adapter_matches(#[trigger] out@[j], adapters@[j]),
        decreases adapters@.len() - i,
    {
        match build_adapter(&adapters[i]) {
            Ok(a) => {
                out.push(a);
            },
            Err(e) => {
                assert(first_failure(adapters@, e, i as int));
                return Err(e);
            },
        }
        i = i + 1;
    }
    Ok(out)
}

/// Law: with no configuration change between two enumerations — the platform
/// hands back the same number of adapters carrying the same identifier bytes
/// — the two result sequences have equal length and identical adapter
/// identifiers, position by position.
pub proof fn lemma_enumeration_shape_stable(
    raws1: Seq<RawAdapter>,
    raws2: Seq<RawAdapter>,
    out1: Seq<AdapterInfo>,
    out2: Seq<AdapterInfo>,
)
    requires
        raws1.len() == raws2.len(),
        forall|i: int|
            0 <= i < raws1.len() ==> (#[trigger] raws1[i]).adapter_name@
                == raws2[i].adapter_name@,
        out1.len() == raws1.len(),
        out2.len() == raws2.len(),
        forall|i: int| 0 <= i < raws1.len() ==> adapter_matches(#[trigger] out1[i], raws1[i]),
        forall|i: int| 0 <= i < raws2.len() ==> adapter_matches(#[trigger] out2[i], raws2[i]),
    ensures
        out1.len() == out2.len(),
        forall|i: int|
            0 <= i < out1.len() ==> (#[trigger] out1[i]).adapter_name@ == out2[i].adapter_name@,
{
    assert forall|i: int|
        0 <= i < out1.len() implies (#[trigger] out1[i]).adapter_name@
        == out2[i].adapter_name@ by {
        assert(adapter_matches(out1[i], raws1[i]));
        assert(adapter_matches(out2[i], raws2[i]));
    }
}

} // verus!
