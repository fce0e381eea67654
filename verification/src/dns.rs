//! Reverse DNS: which addresses are looked up, and what is remembered of them.

use vstd::hash_map::StringHashMap;
use vstd::prelude::*;
use vstd::string::*;
use vstd::utf8;
use crate::connection::text_is;
use crate::text;
use crate::text::{buffer_text, wide_nul};

verus! {

broadcast use vstd::seq_lib::group_seq_properties;

/// What was found for the addresses looked up so far.
pub struct DnsCache {
    hosts: StringHashMap<String>,
}

/// An address: an IPv4 one as the tables hold it, or an IPv6 one as the number that
/// its sixteen bytes write, the first byte having the most weight.
#[derive(Clone, Copy)]
pub enum Address {
    V4(u32),
    V6(u128),
}

/// What to do about an address.
pub enum Lookup {
    /// Its host is known.
    Known(String),
    /// It has to be parsed: the address as wide text.
    Parse(Vec<u16>),
}

impl View for DnsCache {
    type V = Map<Seq<char>, Seq<char>>;

    closed spec fn view(&self) -> Map<Seq<char>, Seq<char>> {
        self.hosts@.map_values(|s: String| s@)
    }
}

/// Whether `ip` stands for no particular address.
pub open spec fn is_wildcard(ip: Seq<char>) -> bool {
    ip == "*"@ || ip == "0.0.0.0"@
}

/// The host of `ip`, where it is known without asking.
pub open spec fn known(cache: Map<Seq<char>, Seq<char>>, ip: Seq<char>) -> Option<Seq<char>> {
    if is_wildcard(ip) {
        Some(Seq::empty())
    } else if cache.contains_key(ip) {
        Some(cache[ip])
    } else {
        None
    }
}

/// The IPv6 address that stands for no particular one, written `::`.
pub const UNSPECIFIED6: u128 = 0;

/// The address to look up for a text that was found to be `address`: none where it is
/// no address, or the one that stands for no particular one.
pub open spec fn sought(address: Option<Address>) -> Option<Address> {
    if address == Some(Address::V6(UNSPECIFIED6)) {
        None
    } else {
        address
    }
}

/// The address to look up for a text that was found to be `address`.
pub fn to_look_up(address: &Option<Address>) -> (a: Option<Address>)
    ensures
        a == sought(*address),
{
    match address {
        Some(Address::V6(n)) => if *n == UNSPECIFIED6 {
            None
        } else {
            *address
        },
        _ => *address,
    }
}

/// The status of a lookup that found a name.
pub const NAMED: i32 = 0;

/// The host that a lookup gave: the text in its buffer, empty where it failed.
pub open spec fn host_name(status: i32, host: Seq<u8>) -> Seq<char> {
    if status == NAMED {
        text::utf8_lossy(text::until(host, 0))
    } else {
        Seq::empty()
    }
}

impl DnsCache {
    /// Nothing looked up.
    pub fn new() -> (c: Self)
        ensures
            c@ == Map::<Seq<char>, Seq<char>>::empty(),
    {
        let c = DnsCache { hosts: StringHashMap::new() };
        proof {
            assert(c@ =~= Map::<Seq<char>, Seq<char>>::empty());
        }
        c
    }

    /// Begins to resolve `ip`: gives its host where that is known, and the text to
    /// parse where it has to be looked up.
    pub fn resolve_dns(&self, ip: &String) -> (l: Lookup)
        ensures
            match l {
                Lookup::Known(host) => known(self@, ip@) == Some(host@),
                Lookup::Parse(wide) => known(self@, ip@) is None && wide@ == text::utf16(
                    ip@,
                ).push(0),
            },
    {
        if text_is(ip, "*") || text_is(ip, "0.0.0.0") {
            return Lookup::Known(String::new());
        }
        match self.hosts.get(ip.as_str()) {
            Some(host) => Lookup::Known(host.clone()),
            None => Lookup::Parse(wide_nul(ip.as_str())),
        }
    }

    /// Goes on once `ip` was parsed. Where it is neither an IPv4 nor an IPv6 address, or
    /// is `::`, its host is empty, now and later; otherwise its name has to be looked up.
    pub fn parsed(&mut self, ip: &String, address: &Option<Address>) -> (host: Option<String>)
        ensures
            match host {
                Some(h) => sought(*address) is None && h@ == Seq::<char>::empty() && final(self)@ == old(
                    self,
                )@.insert(ip@, Seq::empty()),
                None => sought(*address) is Some && final(self)@ == old(self)@,
            },
    {
        match to_look_up(address) {
            None => {
                self.remember(ip, String::new());
                Some(String::new())
            },
            Some(_) => None,
        }
    }

    /// Ends once the name of `ip` was looked up: remembers the host and gives it.
    pub fn named(&mut self, ip: &String, status: i32, host: &Vec<u8>) -> (h: String)
        ensures
            h@ == host_name(status, host@),
            status == NAMED && utf8::valid_utf8(text::until(host@, 0)) ==> h@ == utf8::decode_utf8(
                text::until(host@, 0),
            ),
            final(self)@ == old(self)@.insert(ip@, h@),
    {
        let name = if status == NAMED {
            buffer_text(host.as_slice())
        } else {
            String::new()
        };
        self.remember(ip, name.clone());
        name
    }

    fn remember(&mut self, ip: &String, host: String)
        ensures
            final(self)@ == old(self)@.insert(ip@, host@),
    {
        self.hosts.insert(ip.clone(), host);
        proof {
            assert(self@ =~= old(self)@.insert(ip@, host@));
        }
    }
}

/// Once an address has been resolved it is known, with the host that was found.
pub proof fn law_resolved_once(cache: Map<Seq<char>, Seq<char>>, ip: Seq<char>, host: Seq<char>)
    requires
        known(cache, ip) is None,
    ensures
        known(cache.insert(ip, host), ip) == Some(host),
{
}

/// Resolving one address forgets and alters no other.
pub proof fn law_cache_grows(
    cache: Map<Seq<char>, Seq<char>>,
    ip: Seq<char>,
    host: Seq<char>,
    other: Seq<char>,
)
    requires
        known(cache, ip) is None,
        known(cache, other) is Some,
    ensures
        known(cache.insert(ip, host), other) == known(cache, other),
{
}

/// Every address but `::` is looked up, as that very address; a text that is no
/// address is not.
pub proof fn law_every_address_is_sought()
    ensures
        forall|n: u32| #[trigger] sought(Some(Address::V4(n))) == Some(Address::V4(n)),
        forall|n: u128|
            n != 0 ==> #[trigger] sought(Some(Address::V6(n))) == Some(Address::V6(n)),
        sought(Some(Address::V6(0))) is None,
        sought(None) is None,
{
}

/// What is known without asking: that `*` and `0.0.0.0` have no host, and what was
/// found for an address before; nothing else.
pub proof fn law_known(cache: Map<Seq<char>, Seq<char>>, ip: Seq<char>)
    ensures
        ip == "*"@ || ip == "0.0.0.0"@ ==> known(cache, ip) == Some(Seq::<char>::empty()),
        ip != "*"@ && ip != "0.0.0.0"@ && cache.contains_key(ip) ==> known(cache, ip) == Some(
            cache[ip],
        ),
        ip != "*"@ && ip != "0.0.0.0"@ && !cache.contains_key(ip) ==> known(cache, ip) is None,
{
}

/// A lookup that succeeded gives all its text up to the first NUL, one that failed
/// nothing.
pub proof fn law_host_name(name: Seq<u8>, rest: Seq<u8>, status: i32)
    requires
        !name.contains(0),
    ensures
        host_name(0, name + seq![0u8] + rest) == text::utf8_lossy(name),
        host_name(0, name) == text::utf8_lossy(name),
        status != 0 ==> host_name(status, name + rest) == Seq::<char>::empty(),
{
    let b = name + seq![0u8] + rest;
    text::law_until(b, 0);
    text::law_until(name, 0);
    let u = text::until(b, 0);
    assert(b[name.len() as int] == 0);
    if u.len() < name.len() {
        assert(b[u.len() as int] == name[u.len() as int]);
    }
    if u.len() > name.len() {
        assert(u[name.len() as int] == 0);
        assert(u.contains(0));
    }
    assert(u =~= name);
    let v = text::until(name, 0);
    if v.len() < name.len() {
        assert(name[v.len() as int] == 0);
    }
    assert(v =~= name);
}

} // verus!
