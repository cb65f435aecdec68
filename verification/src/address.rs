//! Endpoint addresses and their wire encoding.
//!
//! An address is an IPv4 or IPv6 endpoint (IP, port, and for IPv6 a scope
//! id). On the wire every address travels in a single 16-byte form: an IPv4
//! address is carried as an IPv4-mapped IPv6 address (ten zero bytes, then
//! `0xFF 0xFF`, then the four IPv4 octets, scope id forced to zero), and an
//! IPv6 address carries its 16 bytes verbatim together with its scope id.

use vstd::prelude::*;

verus! {

/// Mathematical model of an [`Address`]: the IP octets (4 for IPv4, 16 for
/// IPv6), the port, and the IPv6 scope id.
#[verifier::ext_equal]
pub ghost struct AddressView {
    pub ip: Seq<u8>,
    pub port: u16,
    pub scope_id: u16,
}

/// Mathematical model of a [`WireAddress`].
#[verifier::ext_equal]
pub ghost struct WireAddressView {
    pub host: Seq<u8>,
    pub port: u16,
    pub scope_id: u16,
}

/// An endpoint address: an IPv4 or IPv6 IP, a port, and (for IPv6) a scope id.
///
/// Well-formed addresses hold either 4 or 16 IP octets, and an IPv4 address
/// always has scope id zero.
#[derive(Debug)]
pub struct Address {
    ip: Vec<u8>,
    port: u16,
    scope_id: u16,
}

/// The uniform 16-byte wire form of an address, as it appears inside the
/// protocol's connection handshake and as the lower datagram layer addresses
/// sockets: a 16-byte host field, a port, and a scope id.
#[derive(Debug)]
pub struct WireAddress {
    /// The 16 host bytes (IPv4-mapped form for IPv4 addresses).
    pub host: Vec<u8>,
    /// The port.
    pub port: u16,
    /// The IPv6 scope id; zero for IPv4 addresses.
    pub scope_id: u16,
}

impl View for Address {
    type V = AddressView;

    closed spec fn view(&self) -> AddressView {
        AddressView { ip: self.ip@, port: self.port, scope_id: self.scope_id }
    }
}

impl View for WireAddress {
    type V = WireAddressView;

    open spec fn view(&self) -> WireAddressView {
        WireAddressView { host: self.host@, port: self.port, scope_id: self.scope_id }
    }
}

/// The 12-byte prefix that marks an IPv4-mapped host field.
pub open spec fn v4_mapped_prefix() -> Seq<u8> {
    seq![0u8, 0u8, 0u8, 0u8, 0u8, 0u8, 0u8, 0u8, 0u8, 0u8, 0xffu8, 0xffu8]
}

/// Whether a 16-byte host field carries an IPv4 address in mapped form.
pub open spec fn is_v4_mapped(host: Seq<u8>) -> bool {
    host.len() == 16 && host.subrange(0, 12) == v4_mapped_prefix()
}

/// Well-formedness of an address: 4 or 16 IP octets, scope id zero for IPv4.
pub open spec fn wf_address(a: AddressView) -> bool {
    ||| (a.ip.len() == 4 && a.scope_id == 0)
    ||| a.ip.len() == 16
}

/// Well-formedness of a wire address: exactly 16 host bytes.
pub open spec fn wf_wire_address(w: WireAddressView) -> bool {
    w.host.len() == 16
}

/// The wire form of an address: IPv4 is zero-padded to 12 bytes, `0xFF 0xFF`
/// appended, then the 4 octets, scope id forced to zero; IPv6 is verbatim.
pub open spec fn encode_address(a: AddressView) -> WireAddressView {
    if a.ip.len() == 4 {
        WireAddressView { host: v4_mapped_prefix() + a.ip, port: a.port, scope_id: 0 }
    } else {
        WireAddressView { host: a.ip, port: a.port, scope_id: a.scope_id }
    }
}

/// The native form of a wire address: a host field whose first 80 bits are
/// zero and next 16 bits are `0xFFFF` decodes as IPv4 from the last 4 bytes;
/// anything else decodes as IPv6 with its scope id preserved.
pub open spec fn decode_address(w: WireAddressView) -> AddressView {
    if is_v4_mapped(w.host) {
        AddressView { ip: w.host.subrange(12, 16), port: w.port, scope_id: 0 }
    } else {
        AddressView { ip: w.host, port: w.port, scope_id: w.scope_id }
    }
}

/// Law: encoding an address to its wire form and decoding it again returns
/// the same address, ports and IPv6 scope ids included.
///
/// The one family of addresses left out: an IPv6 address whose own 16 bytes
/// are already in IPv4-mapped form decodes as the IPv4 address it maps.
pub proof fn lemma_address_round_trip(a: AddressView)
    requires
        wf_address(a),
        !(a.ip.len() == 16 && is_v4_mapped(a.ip)),
    ensures
        decode_address(encode_address(a)) == a,
{
    if a.ip.len() == 4 {
        let w = encode_address(a);
        assert(w.host.subrange(0, 12) =~= v4_mapped_prefix());
        assert(w.host.subrange(12, 16) =~= a.ip);
        assert(decode_address(w) =~= a);
    } else {
        assert(decode_address(encode_address(a)) =~= a);
    }
}

/// Copies a byte vector; the copy holds the same bytes.
pub fn clone_bytes(v: &Vec<u8>) -> (r: Vec<u8>)
    ensures
        r@ == v@,
{
    let mut r: Vec<u8> = Vec::new();
    let mut i: usize = 0;
    while i < v.len()
        invariant
            i <= v.len(),
            r@ =~= v@.subrange(0, i as int),
        decreases v.len() - i,
    {
        r.push(v[i]);
        i = i + 1;
    }
    assert(r@ =~= v@);
    r
}

impl Address {
    /// Builds an IPv4 address from its four octets and a port.
    pub fn new_v4(o0: u8, o1: u8, o2: u8, o3: u8, port: u16) -> (r: Address)
        ensures
            r@.ip =~= seq![o0, o1, o2, o3],
            r@.port == port,
            r@.scope_id == 0,
            wf_address(r@),
    {
        let mut ip: Vec<u8> = Vec::new();
        ip.push(o0);
        ip.push(o1);
        ip.push(o2);
        ip.push(o3);
        Address { ip, port, scope_id: 0 }
    }

    /// Builds an IPv6 address from its 16 octets, a port and a scope id.
    pub fn new_v6(octets: Vec<u8>, port: u16, scope_id: u16) -> (r: Address)
        requires
            octets@.len() == 16,
        ensures
            r@ == (AddressView { ip: octets@, port, scope_id }),
            wf_address(r@),
    {
        Address { ip: octets, port, scope_id }
    }

    /// The port of this address.
    pub fn port(&self) -> (r: u16)
        ensures
            r == self@.port,
    {
        self.port
    }

    /// The IPv6 scope id; zero for IPv4 addresses.
    pub fn scope_id(&self) -> (r: u16)
        ensures
            r == self@.scope_id,
    {
        self.scope_id
    }

    /// Whether this is an IPv4 address.
    pub fn is_v4(&self) -> (r: bool)
        ensures
            r == (self@.ip.len() == 4),
    {
        self.ip.len() == 4
    }

    /// The IP octets: 4 for IPv4, 16 for IPv6.
    pub fn ip(&self) -> (r: &Vec<u8>)
        ensures
            r@ == self@.ip,
    {
        &self.ip
    }

    /// An exact copy of this address.
    pub fn duplicate(&self) -> (r: Address)
        ensures
            r@ == self@,
    {
        Address { ip: clone_bytes(&self.ip), port: self.port, scope_id: self.scope_id }
    }

    /// Encodes this address into its uniform 16-byte wire form.
    pub fn to_wire(&self) -> (r: WireAddress)
        requires
            wf_address(self@),
        ensures
            r@ == encode_address(self@),
            wf_wire_address(r@),
    {
        if self.ip.len() == 4 {
            let mut host: Vec<u8> = Vec::new();
            host.push(0);
            host.push(0);
            host.push(0);
            host.push(0);
            host.push(0);
            host.push(0);
            host.push(0);
            host.push(0);
            host.push(0);
            host.push(0);
            host.push(0xff);
            host.push(0xff);
            host.push(self.ip[0]);
            host.push(self.ip[1]);
            host.push(self.ip[2]);
            host.push(self.ip[3]);
            assert(host@ =~= v4_mapped_prefix() + self@.ip);
            WireAddress { host, port: self.port, scope_id: 0 }
        } else {
            WireAddress { host: clone_bytes(&self.ip), port: self.port, scope_id: self.scope_id }
        }
    }

    /// Decodes a wire address back to its native form.
    pub fn from_wire(w: &WireAddress) -> (r: Address)
        requires
            wf_wire_address(w@),
        ensures
            r@ == decode_address(w@),
            wf_address(r@),
    {
        let mut mapped = w.host[10] == 0xff && w.host[11] == 0xff;
        let mut i: usize = 0;
        while i < 10
            invariant
                i <= 10,
                w@.host.len() == 16,
                mapped == (w@.host[10] == 0xff && w@.host[11] == 0xff
                    && (forall|j: int| 0 <= j < i ==> w@.host[j] == 0)),
            decreases 10 - i,
        {
            if w.host[i] != 0 {
                mapped = false;
            }
            i = i + 1;
        }
        if mapped {
            assert(w@.host.subrange(0, 12) =~= v4_mapped_prefix());
        } else {
            assert(w@.host.subrange(0, 12) !~= v4_mapped_prefix());
        }
        assert(mapped == is_v4_mapped(w@.host));
        if mapped {
            let mut ip: Vec<u8> = Vec::new();
            ip.push(w.host[12]);
            ip.push(w.host[13]);
            ip.push(w.host[14]);
            ip.push(w.host[15]);
            assert(ip@ =~= w@.host.subrange(12, 16));
            Address { ip, port: w.port, scope_id: 0 }
        } else {
            Address { ip: clone_bytes(&w.host), port: w.port, scope_id: w.scope_id }
        }
    }

    /// Whether two addresses are the same endpoint.
    pub fn same_as(&self, other: &Address) -> (r: bool)
        ensures
            r == (self@ == other@),
    {
        if self.port != other.port || self.scope_id != other.scope_id
            || self.ip.len() != other.ip.len() {
            assert(self@ != other@);
            return false;
        }
        let mut i: usize = 0;
        while i < self.ip.len()
            invariant
                i <= self.ip.len(),
                self@.ip.len() == other@.ip.len(),
                self@.port == other@.port,
                self@.scope_id == other@.scope_id,
                forall|j: int| 0 <= j < i ==> self@.ip[j] == other@.ip[j],
            decreases self.ip.len() - i,
        {
            if self.ip[i] != other.ip[i] {
                assert(self@.ip[i as int] != other@.ip[i as int]);
                return false;
            }
            i = i + 1;
        }
        assert(self@.ip =~= other@.ip);
        assert(self@ =~= other@);
        true
    }
}

impl PartialEq for Address {
    fn eq(&self, other: &Address) -> (r: bool) {
        self.same_as(other)
    }
}

impl Eq for Address {}

impl vstd::std_specs::cmp::PartialEqSpecImpl for Address {
    open spec fn obeys_eq_spec() -> bool {
        true
    }

    open spec fn eq_spec(&self, other: &Address) -> bool {
        self@ == other@
    }
}

} // verus!
