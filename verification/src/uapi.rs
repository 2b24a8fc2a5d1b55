//! Numbers of the kernel's own interface, as the `libc` crate names them.
//!
//! Each of these is one constant of `libc`, whose value is part of the kernel's stable interface
//! and the same on every Linux target.

use vstd::prelude::*;

verus! {

/// `libc::NLMSG_ERROR`: a netlink message that carries an error code. It is 2.
#[verifier::external_body]
pub(crate) fn nlmsg_error() -> (kind: u16)
    ensures
        kind == 2,
{
    libc::NLMSG_ERROR as u16
}

/// `libc::NLMSG_DONE`: the end of a netlink dump. It is 3.
#[verifier::external_body]
pub(crate) fn nlmsg_done() -> (kind: u16)
    ensures
        kind == 3,
{
    libc::NLMSG_DONE as u16
}

/// `libc::RTM_NEWLINK`: a message that describes a link. It is 16.
#[verifier::external_body]
pub(crate) fn rtm_newlink() -> (kind: u16)
    ensures
        kind == 16,
{
    libc::RTM_NEWLINK
}

/// `libc::RTM_GETLINK`: a request for a link. It is 18.
#[verifier::external_body]
pub(crate) fn rtm_getlink() -> (kind: u16)
    ensures
        kind == 18,
{
    libc::RTM_GETLINK
}

/// `libc::RTM_NEWROUTE`: a message that adds a route. It is 24.
#[verifier::external_body]
pub(crate) fn rtm_newroute() -> (kind: u16)
    ensures
        kind == 24,
{
    libc::RTM_NEWROUTE
}

/// `libc::RTM_DELROUTE`: a message that deletes a route. It is 25.
#[verifier::external_body]
pub(crate) fn rtm_delroute() -> (kind: u16)
    ensures
        kind == 25,
{
    libc::RTM_DELROUTE
}

/// `libc::RTM_GETROUTE`: a request for routes. It is 26.
#[verifier::external_body]
pub(crate) fn rtm_getroute() -> (kind: u16)
    ensures
        kind == 26,
{
    libc::RTM_GETROUTE
}

/// `libc::NLM_F_REQUEST`: the flag of a request. It is 1.
#[verifier::external_body]
pub(crate) fn nlm_f_request() -> (flags: u16)
    ensures
        flags == 1,
{
    libc::NLM_F_REQUEST as u16
}

/// `libc::NLM_F_DUMP`: the two flags that ask for a whole table. Together they are 0x300.
#[verifier::external_body]
pub(crate) fn nlm_f_dump() -> (flags: u16)
    ensures
        flags == 0x300,
{
    libc::NLM_F_DUMP as u16
}

/// `libc::AF_UNSPEC`: no address family in particular. It is 0.
#[verifier::external_body]
pub(crate) fn af_unspec() -> (family: u8)
    ensures
        family == 0,
{
    libc::AF_UNSPEC as u8
}

/// `libc::AF_INET`: IPv4. It is 2.
#[verifier::external_body]
pub(crate) fn af_inet() -> (family: u8)
    ensures
        family == 2,
{
    libc::AF_INET as u8
}

/// `libc::AF_INET6`: IPv6. It is 10.
#[verifier::external_body]
pub(crate) fn af_inet6() -> (family: u8)
    ensures
        family == 10,
{
    libc::AF_INET6 as u8
}

/// `libc::IFLA_XDP`: the link attribute that nests what the XDP hook holds. It is 43.
#[verifier::external_body]
pub(crate) fn ifla_xdp() -> (kind: u16)
    ensures
        kind == 43,
{
    libc::IFLA_XDP
}

} // verus!
