//! IPv6 addresses as segments, their text form, and the split into network
//! and host parts at a segment-aligned prefix length.
use vstd::prelude::*;

verus! {

/// An IPv6 address as eight 16-bit segments, most significant first.
#[derive(Clone, Copy, Debug, PartialEq, Eq)]
pub struct Ipv6Address {
    pub segments: [u16; 8],
}

/// An address together with the prefix length of the network it was
/// declared under.
#[derive(Clone, Copy, Debug, PartialEq, Eq)]
pub struct HostAddress {
    pub address: Ipv6Address,
    pub prefix_len: u8,
}

/// A prefix length that the segment-wise rules can work with.
pub open spec fn valid_prefix_len(len: u8) -> bool {
    len <= 128 && len % 16 == 0
}

/// The segments that belong to the network part at prefix length `len`.
pub open spec fn network_count(len: u8) -> int {
    len as int / 16
}

/// The leading `len` bits of `a`, the rest set to zero.
pub open spec fn network_part(a: Seq<u16>, len: u8) -> Seq<u16> {
    Seq::new(8, |i: int| if i < network_count(len) { a[i] } else { 0u16 })
}

/// The trailing `128 - len` bits of `a`, the rest set to zero.
pub open spec fn host_part(a: Seq<u16>, len: u8) -> Seq<u16> {
    Seq::new(8, |i: int| if i < network_count(len) { 0u16 } else { a[i] })
}

/// The network segments of `network` followed by the host segments of `host`.
pub open spec fn recombined(network: Seq<u16>, host: Seq<u16>, len: u8) -> Seq<u16> {
    Seq::new(8, |i: int| if i < network_count(len) { network[i] } else { host[i] })
}

/// Whether `a` and `b` agree on every network segment at prefix length `len`.
pub open spec fn same_network(a: Seq<u16>, b: Seq<u16>, len: u8) -> bool {
    forall|i: int| 0 <= i < network_count(len) ==> a[i] == b[i]
}

fn pick(i: usize, count: usize, first: &[u16; 8], second: &[u16; 8]) -> (r: u16)
    requires
        i < 8,
    ensures
        r == if (i as int) < count as int { first@[i as int] } else { second@[i as int] },
{
    if i < count {
        first[i]
    } else {
        second[i]
    }
}

/// Builds an address from the network segments of `network` and the host
/// segments of `host`.
pub fn recombine(network: &Ipv6Address, host: &Ipv6Address, prefix_len: u8) -> (r: Ipv6Address)
    requires
        valid_prefix_len(prefix_len),
    ensures
        r.segments@ == recombined(network.segments@, host.segments@, prefix_len),
{
    let count = (prefix_len / 16) as usize;
    let n = &network.segments;
    let h = &host.segments;
    let segments = [
        pick(0, count, n, h),
        pick(1, count, n, h),
        pick(2, count, n, h),
        pick(3, count, n, h),
        pick(4, count, n, h),
        pick(5, count, n, h),
        pick(6, count, n, h),
        pick(7, count, n, h),
    ];
    assert(segments@ =~= recombined(network.segments@, host.segments@, prefix_len));
    Ipv6Address { segments }
}


/// Splits `address` at `prefix_len` into its network prefix and its host
/// identifier; each keeps its own segments and has zeros in the other's.
pub fn decompose(address: &Ipv6Address, prefix_len: u8) -> (r: (Ipv6Address, Ipv6Address))
    requires
        valid_prefix_len(prefix_len),
    ensures
        r.0.segments@ == network_part(address.segments@, prefix_len),
        r.1.segments@ == host_part(address.segments@, prefix_len),
{
    let zero = Ipv6Address { segments: [0u16, 0u16, 0u16, 0u16, 0u16, 0u16, 0u16, 0u16] };
    let network = recombine(address, &zero, prefix_len);
    let host = recombine(&zero, address, prefix_len);
    assert(network.segments@ =~= network_part(address.segments@, prefix_len));
    assert(host.segments@ =~= host_part(address.segments@, prefix_len));
    (network, host)
}

/// Whether the two addresses have the same network segments at `prefix_len`.
pub fn compare_prefixes(current: &Ipv6Address, desired: &Ipv6Address, prefix_len: u8) -> (r: bool)
    requires
        valid_prefix_len(prefix_len),
    ensures
        r == same_network(current.segments@, desired.segments@, prefix_len),
{
    let count = (prefix_len / 16) as usize;
    let mut i: usize = 0;
    while i < count
        invariant
            count == network_count(prefix_len),
            count <= 8,
            i <= count,
            forall|k: int| 0 <= k < i ==> current.segments@[k] == desired.segments@[k],
        decreases count - i,
    {
        if current.segments[i] != desired.segments[i] {
            return false;
        }
        i = i + 1;
    }
    true
}

/// Moves `address` into the network `prefix_new`: the network segments come
/// from `prefix_new`, the host segments stay as they are.
pub fn change_ipv6_prefix(address: &Ipv6Address, prefix_new: &Ipv6Address, prefix_len: u8) -> (r:
    Ipv6Address)
    requires
        valid_prefix_len(prefix_len),
    ensures
        r.segments@ == recombined(prefix_new.segments@, address.segments@, prefix_len),
        r.segments@ == recombined(prefix_new.segments@, host_part(address.segments@, prefix_len), prefix_len),
{
    let (_, host) = decompose(address, prefix_len);
    let r = recombine(prefix_new, &host, prefix_len);
    assert(r.segments@ =~= recombined(prefix_new.segments@, address.segments@, prefix_len));
    r
}

/// Recombining the host identifier of `address` with any network prefix
/// keeps the host segments of `address` exactly and takes the network
/// segments of the prefix; with the address's own network part it gives the
/// address back.
pub proof fn lemma_decompose_recombine(address: Ipv6Address, prefix: Ipv6Address, prefix_len: u8)
    requires
        valid_prefix_len(prefix_len),
    ensures
        host_part(recombined(prefix.segments@, host_part(address.segments@, prefix_len), prefix_len), prefix_len)
            == host_part(address.segments@, prefix_len),
        network_part(recombined(prefix.segments@, host_part(address.segments@, prefix_len), prefix_len), prefix_len)
            == network_part(prefix.segments@, prefix_len),
        recombined(network_part(address.segments@, prefix_len), host_part(address.segments@, prefix_len), prefix_len)
            == address.segments@,
{
    let a = address.segments@;
    let p = prefix.segments@;
    let c = recombined(p, host_part(a, prefix_len), prefix_len);
    assert(host_part(c, prefix_len) =~= host_part(a, prefix_len));
    assert(network_part(c, prefix_len) =~= network_part(p, prefix_len));
    assert(recombined(network_part(a, prefix_len), host_part(a, prefix_len), prefix_len) =~= a);
}


/// What ipnet's `Ipv6Net` parser reads from a text of the form `addr/len`:
/// the address's segments and the prefix length.
pub uninterp spec fn ipv6_net_reading(text: Seq<char>) -> Option<([u16; 8], u8)>;

/// The text that std prints for the address with these segments.
pub uninterp spec fn ipv6_text(segments: Seq<u16>) -> Seq<char>;

/// Relies on `<ipnet::Ipv6Net as FromStr>::from_str`: it reads an IPv6
/// address, `/` and a prefix length that is at most 128, or gives an error.
#[verifier::external_body]
fn read_ipv6_net(text: &str) -> (r: Option<([u16; 8], u8)>)
    ensures
        r == ipv6_net_reading(text@),
        r matches Some((_, len)) ==> len <= 128,
{
    text.parse::<ipnet::Ipv6Net>().ok().map(|n| (n.addr().segments(), n.prefix_len()))
}

/// Relies on `Display for ipnet::Ipv6Net`: it writes the address as std's
/// `Ipv6Addr` displays it, then `/` and the prefix length.
#[verifier::external_body]
fn display_host_net(segments: [u16; 8]) -> (r: String)
    ensures
        r@ == ipv6_text(segments@) + "/128"@,
{
    ipnet::Ipv6Net::new_assert(segments.into(), 128).to_string()
}

/// Parses an IPv6 literal such as `2001:db8::1`.
pub fn parse_address(text: &str) -> (r: Option<Ipv6Address>)
    ensures
        r == (match ipv6_net_reading(text@ + "/128"@) {
            Some((segments, _)) => Some(Ipv6Address { segments }),
            None => None,
        }),
{
    let mut full = String::from_str(text);
    full.append("/128");
    match read_ipv6_net(full.as_str()) {
        Some((segments, _)) => Some(Ipv6Address { segments }),
        None => None,
    }
}

/// Parses a network prefix such as `2001:db8::/64` into its address and its
/// length.
pub fn parse_prefix(text: &str) -> (r: Option<(Ipv6Address, u8)>)
    ensures
        r == (match ipv6_net_reading(text@) {
            Some((segments, len)) => Some((Ipv6Address { segments }, len)),
            None => None,
        }),
        r matches Some((_, len)) ==> len <= 128,
{
    match read_ipv6_net(text) {
        Some((segments, len)) => Some((Ipv6Address { segments }, len)),
        None => None,
    }
}

/// The text form of `address`, in lower case with the longest run of zero
/// segments written as `::`.
pub fn format_address(address: &Ipv6Address) -> (r: String)
    ensures
        r@ == ipv6_text(address.segments@),
{
    let full = display_host_net(address.segments);
    proof {
        reveal_strlit("/128");
    }
    let n = full.as_str().unicode_len();
    let text = full.as_str().substring_char(0, n - 4);
    assert(text@ =~= ipv6_text(address.segments@));
    text.to_owned()
}

} // verus!
