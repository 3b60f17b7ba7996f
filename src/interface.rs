//! Choosing the address of a named network interface.
use vstd::prelude::*;

use crate::address::Ipv6Address;
use crate::record::chars_of;

verus! {

/// A network interface and its IPv6 addresses, in the order the system
/// lists them.
#[derive(Clone, Debug, PartialEq, Eq)]
pub struct Interface {
    pub name: String,
    pub addresses: Vec<Ipv6Address>,
}

/// The first address of the first interface from `k` on that is called
/// `name` and has an address.
pub open spec fn first_address_of(interfaces: Seq<Interface>, name: Seq<char>, k: int) -> Option<
    Ipv6Address,
>
    decreases interfaces.len() - k,
{
    if k < 0 || k >= interfaces.len() {
        None
    } else if interfaces[k].name@ == name && interfaces[k].addresses@.len() > 0 {
        Some(interfaces[k].addresses@[0])
    } else {
        first_address_of(interfaces, name, k + 1)
    }
}

fn same_text(a: &str, b: &str) -> (r: bool)
    ensures
        r == (a@ == b@),
{
    let x = chars_of(a);
    let y = chars_of(b);
    if x.len() != y.len() {
        return false;
    }
    let mut i: usize = 0;
    while i < x.len()
        invariant
            x@ == a@,
            y@ == b@,
            x@.len() == y@.len(),
            i <= x@.len(),
            forall|k: int| 0 <= k < i ==> x@[k] == y@[k],
        decreases x@.len() - i,
    {
        if x[i] != y[i] {
            assert(x@[i as int] != y@[i as int]);
            return false;
        }
        i = i + 1;
    }
    assert(x@ =~= y@);
    true
}

impl Interface {
    /// The first address of the first interface called `iface_name` that has
    /// one.
    pub fn get_ipv6_address(interfaces: &Vec<Interface>, iface_name: &str) -> (r: Option<
        Ipv6Address,
    >)
        ensures
            r == first_address_of(interfaces@, iface_name@, 0),
    {
        let mut k: usize = 0;
        while k < interfaces.len()
            invariant
                k <= interfaces@.len(),
                first_address_of(interfaces@, iface_name@, 0) == first_address_of(
                    interfaces@,
                    iface_name@,
                    k as int,
                ),
            decreases interfaces@.len() - k,
        {
            let iface = &interfaces[k];
            if same_text(iface.name.as_str(), iface_name) && iface.addresses.len() > 0 {
                return Some(iface.addresses[0]);
            }
            k = k + 1;
        }
        None
    }
}

} // verus!
