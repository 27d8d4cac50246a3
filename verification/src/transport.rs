//! What the transport decides: whether a descriptor is a listening socket,
//! what a system call gave, whether to accept again, and how the address of
//! a peer is written.
//!
//! The system calls themselves are made by the driver; here are only the
//! answers to what they return.

use vstd::prelude::*;

verus! {

/// Whether a descriptor is a listening socket, going by what asking for its
/// peer gave: the call failed, and the error was "not connected". A connected
/// socket answers the call; a descriptor that is no socket fails otherwise.
pub fn is_listening(result: i32, os_error: Option<i32>, not_connected: i32) -> (b: bool)
    ensures
        b == (result == -1 && os_error == Some(not_connected)),
{
    if result != -1 {
        return false;
    }
    match os_error {
        Some(code) => code == not_connected,
        None => false,
    }
}

/// The number of bytes that a read or a write moved, or `None` when the call
/// failed.
pub fn transferred(result: isize) -> (n: Option<usize>)
    ensures
        result < 0 ==> n is None,
        result >= 0 ==> n == Some(result as usize),
{
    if result < 0 {
        None
    } else {
        Some(result as usize)
    }
}

/// What the accept loop does after an accept failed.
#[derive(Clone, Copy, Debug, PartialEq, Eq, Structural)]
pub enum AcceptStep {
    /// The call was interrupted: accept again.
    Retry,
    /// The listener is of no more use: leave the loop.
    Stop,
}

/// What to do after an accept failed: an interrupted call is made again,
/// any other failure ends the loop.
pub fn after_accept_error(interrupted: bool) -> (step: AcceptStep)
    ensures
        step == if interrupted {
            AcceptStep::Retry
        } else {
            AcceptStep::Stop
        },
{
    if interrupted {
        AcceptStep::Retry
    } else {
        AcceptStep::Stop
    }
}

/// The kind of address that a peer has.
#[derive(Clone, Copy, Debug, PartialEq, Eq, Structural)]
pub enum Family {
    /// IPv4.
    Inet,
    /// IPv6.
    Inet6,
    /// A UNIX-domain socket: the peer has no address to show.
    Unix,
    /// Anything else: not a socket that FastCGI runs over.
    Unsupported,
}

/// Tells the family of a socket address, given the numbers that the
/// platform uses for the three families that are known. Where the platform
/// gives two families one number, the first in the order IPv4, IPv6, UNIX
/// is taken.
pub fn family_of(family: i32, inet: i32, inet6: i32, unix: i32) -> (f: Family)
    ensures
        f == if family == inet {
            Family::Inet
        } else if family == inet6 {
            Family::Inet6
        } else if family == unix {
            Family::Unix
        } else {
            Family::Unsupported
        },
{
    if family == inet {
        Family::Inet
    } else if family == inet6 {
        Family::Inet6
    } else if family == unix {
        Family::Unix
    } else {
        Family::Unsupported
    }
}

/// The ASCII digit for `d`.
pub open spec fn digit(d: nat) -> u8
    recommends
        d < 10,
{
    (48 + d) as u8
}

/// A number in decimal, in ASCII, without leading zeros.
pub open spec fn decimal(n: nat) -> Seq<u8>
    decreases n,
{
    if n < 10 {
        seq![digit(n)]
    } else {
        decimal(n / 10).push(digit(n % 10))
    }
}

/// The four bytes of an IPv4 address in dotted decimal, in ASCII.
pub open spec fn dotted(a: u8, b: u8, c: u8, d: u8) -> Seq<u8> {
    decimal(a as nat) + seq![46u8] + decimal(b as nat) + seq![46u8] + decimal(c as nat) + seq![
        46u8,
    ] + decimal(d as nat)
}

/// Appends `n` in decimal.
fn push_decimal(out: &mut Vec<u8>, n: u8)
    ensures
        final(out)@ == old(out)@ + decimal(n as nat),
{
    reveal_with_fuel(decimal, 3);
    if n >= 100 {
        out.push(48 + n / 100);
        out.push(48 + (n / 10) % 10);
        out.push(48 + n % 10);
        assert((n as nat / 10) / 10 == n as nat / 100);
    } else if n >= 10 {
        out.push(48 + n / 10);
        out.push(48 + n % 10);
    } else {
        out.push(48 + n);
    }
    assert(out@ =~= old(out)@ + decimal(n as nat));
}

/// Writes an IPv4 address in dotted decimal, in ASCII: `127.0.0.1`.
pub fn dotted_quad(octets: &[u8; 4]) -> (text: Vec<u8>)
    ensures
        text@ == dotted(octets@[0], octets@[1], octets@[2], octets@[3]),
{
    let mut text: Vec<u8> = Vec::new();
    push_decimal(&mut text, octets[0]);
    text.push(46u8);
    push_decimal(&mut text, octets[1]);
    text.push(46u8);
    push_decimal(&mut text, octets[2]);
    text.push(46u8);
    push_decimal(&mut text, octets[3]);
    assert(text@ =~= dotted(octets@[0], octets@[1], octets@[2], octets@[3]));
    text
}

} // verus!
