//! Endpoint addresses.

use crate::keyed::Key;
use vstd::prelude::*;

verus! {

/// The character of a decimal digit.
pub open spec fn digit(d: nat) -> char {
    if d == 0 {
        '0'
    } else if d == 1 {
        '1'
    } else if d == 2 {
        '2'
    } else if d == 3 {
        '3'
    } else if d == 4 {
        '4'
    } else if d == 5 {
        '5'
    } else if d == 6 {
        '6'
    } else if d == 7 {
        '7'
    } else if d == 8 {
        '8'
    } else {
        '9'
    }
}

/// The decimal notation of a number, without leading zeros.
pub open spec fn decimal(n: nat) -> Seq<char>
    decreases n,
{
    if n < 10 {
        seq![digit(n)]
    } else {
        decimal(n / 10).push(digit(n % 10))
    }
}

fn digit_text(d: u16) -> (r: &'static str)
    requires
        d < 10,
    ensures
        r@ == seq![digit(d as nat)],
{
    proof {
        reveal_strlit("0");
        reveal_strlit("1");
        reveal_strlit("2");
        reveal_strlit("3");
        reveal_strlit("4");
        reveal_strlit("5");
        reveal_strlit("6");
        reveal_strlit("7");
        reveal_strlit("8");
        reveal_strlit("9");
    }
    if d == 0 {
        "0"
    } else if d == 1 {
        "1"
    } else if d == 2 {
        "2"
    } else if d == 3 {
        "3"
    } else if d == 4 {
        "4"
    } else if d == 5 {
        "5"
    } else if d == 6 {
        "6"
    } else if d == 7 {
        "7"
    } else if d == 8 {
        "8"
    } else {
        "9"
    }
}

fn decimal_text(n: u16) -> (r: String)
    ensures
        r@ == decimal(n as nat),
    decreases n,
{
    if n < 10 {
        String::from_str(digit_text(n))
    } else {
        let mut r = decimal_text(n / 10);
        r.append(digit_text(n % 10));
        assert(r@ =~= decimal(n as nat));
        r
    }
}

/// Where an endpoint listens. Its view is the pair of host and port.
#[derive(Debug, PartialEq, Eq, Hash)]
pub struct EndpointAddress {
    host: String,
    port: u16,
}

impl View for EndpointAddress {
    type V = (Seq<char>, u16);

    closed spec fn view(&self) -> (Seq<char>, u16) {
        (self.host@, self.port)
    }
}

impl EndpointAddress {
    /// The address of `port` on `host`.
    pub fn new(host: &str, port: u16) -> (r: Self)
        ensures
            r@ == (host@, port),
    {
        EndpointAddress { host: String::from_str(host), port }
    }

    /// The host.
    pub fn host(&self) -> (r: &str)
        ensures
            r@ == self@.0,
    {
        self.host.as_str()
    }

    /// The port.
    pub fn port(&self) -> (r: u16)
        ensures
            r == self@.1,
    {
        self.port
    }

    /// The address as `host:port`.
    pub fn to_string(&self) -> (r: String)
        ensures
            r@ == self@.0 + seq![':'] + decimal(self@.1 as nat),
    {
        proof {
            reveal_strlit(":");
        }
        let mut r = self.host.clone();
        r.append(":");
        let port = decimal_text(self.port);
        r.append(port.as_str());
        assert(":"@ =~= seq![':']);
        r
    }
}

impl Clone for EndpointAddress {
    fn clone(&self) -> (r: Self)
        ensures
            r == *self,
    {
        EndpointAddress { host: self.host.clone(), port: self.port }
    }
}

impl Key for EndpointAddress {
    fn same(&self, other: &Self) -> (r: bool) {
        self.port == other.port && self.host.eq(&other.host)
    }

    fn duplicate(&self) -> (r: Self) {
        EndpointAddress { host: self.host.clone(), port: self.port }
    }
}

} // verus!
