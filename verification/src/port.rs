//! Local-port selection. The availability probe itself binds a TCP
//! socket and so lives with the caller; here it is a function value, and
//! the contracts speak of what its calls returned.

use vstd::prelude::*;
use crate::Error;

verus! {

/// Scans upward from `start_port` (inclusive) through 65534 and returns
/// the first port the probe reported free, or nothing if the probe said
/// no to every one.
pub fn find_available_port<F: Fn(u16) -> bool>(start_port: u16, is_available: &F) -> (r: Option<
    u16,
>)
    requires
        forall|p: u16| call_requires(*is_available, (p,)),
    ensures
        match r {
            Some(p) => start_port <= p < 65535 && call_ensures(*is_available, (p,), true)
                && forall|q: u16|
                start_port <= q < p ==> call_ensures(*is_available, (q,), false),
            None => forall|q: u16|
                start_port <= q < 65535 ==> call_ensures(*is_available, (q,), false),
        },
{
    let mut port = start_port;
    while port < 65535
        invariant
            start_port <= port,
            forall|p: u16| call_requires(*is_available, (p,)),
            forall|q: u16| start_port <= q < port ==> call_ensures(*is_available, (q,), false),
        decreases 65535 - port,
    {
        if is_available(port) {
            return Some(port);
        }
        port = port + 1;
    }
    None
}

/// The port policy of `add`: keep the requested local port when the
/// probe reports it free, otherwise take the first free port above it.
/// Returns the port to use and whether it was remapped; the add is
/// refused only after every port through 65534 was probed busy. A
/// remapped port was probed free immediately before the caller goes on
/// to start the tunnel, and every port between the request and it was
/// probed busy.
pub fn resolve_local_port<F: Fn(u16) -> bool>(requested: u16, is_available: &F) -> (r: Result<
    (u16, bool),
    Error,
>)
    requires
        forall|p: u16| call_requires(*is_available, (p,)),
    ensures
        match r {
            Ok((p, remapped)) => {
                &&& (!remapped ==> p == requested && call_ensures(*is_available, (p,), true))
                &&& (remapped ==> requested < p < 65535 && call_ensures(
                    *is_available,
                    (requested,),
                    false,
                ) && call_ensures(*is_available, (p,), true) && forall|q: u16|
                    requested < q < p ==> call_ensures(*is_available, (q,), false))
            },
            Err(e) => e == Error::NoPortAvailable && call_ensures(
                *is_available,
                (requested,),
                false,
            ) && forall|q: u16|
                requested < q < 65535 ==> call_ensures(*is_available, (q,), false),
        },
{
    if is_available(requested) {
        Ok((requested, false))
    } else if requested == 65535 {
        Err(Error::NoPortAvailable)
    } else {
        match find_available_port(requested + 1, is_available) {
            Some(p) => Ok((p, true)),
            None => Err(Error::NoPortAvailable),
        }
    }
}

} // verus!
