//! The port range of a scan: a half-open interval `[start, end)` of 16-bit
//! port numbers, and the guards the argument parser applies to its bounds.

use vstd::prelude::*;

verus! {

/// The largest port number a scan may reach.
pub const MAX_PORT: u16 = 65535;

/// Accepts a starting port, which must be positive.
pub fn start_port_guard(input: &u16) -> (r: bool)
    ensures
        r == (*input > 0),
{
    *input > 0
}

/// Accepts an ending port, which must not exceed `MAX_PORT`.
pub fn end_port_guard(input: &u16) -> (r: bool)
    ensures
        r == (*input <= MAX_PORT),
{
    *input <= MAX_PORT
}

/// The ports of the half-open interval `[start, end)`, in ascending order.
/// Empty whenever `start >= end`: such a range dispatches no attempt at all.
pub open spec fn port_range(start: u16, end: u16) -> Seq<u16> {
    if start <= end {
        Seq::new((end - start) as nat, |i: int| (start + i) as u16)
    } else {
        Seq::empty()
    }
}

/// Law: a range with `start >= end` holds no port at all — no attempt is
/// dispatched, and the result set can only come out empty.
pub proof fn lemma_empty_range_scans_nothing(start: u16, end: u16)
    requires
        start >= end,
    ensures
        port_range(start, end).len() == 0,
{
}

/// Law: every port of the range occurs in it once, so a scan attempts each
/// port of `[start, end)` exactly once.
pub proof fn lemma_range_ports_distinct(start: u16, end: u16)
    ensures
        port_range(start, end).no_duplicates(),
{
    assert forall|i: int, j: int|
        0 <= i < port_range(start, end).len() && 0 <= j < port_range(start, end).len() && i
            != j implies port_range(start, end)[i] != port_range(start, end)[j] by {
        assert(port_range(start, end)[i] == start + i);
        assert(port_range(start, end)[j] == start + j);
    }
}

/// One attempt unit is owed to each port of `[start, end)`; this lists them.
pub fn ports_to_scan(start: u16, end: u16) -> (r: Vec<u16>)
    ensures
        r@ == port_range(start, end),
{
    let mut r: Vec<u16> = Vec::new();
    let mut p: u16 = start;
    proof {
        assert(r@ =~= port_range(start, start));
    }
    while p < end
        invariant
            start <= p,
            p <= end || p == start,
            r@ == port_range(start, p),
        decreases end - p,
    {
        r.push(p);
        proof {
            assert(r@ =~= port_range(start, (p + 1) as u16));
        }
        p = p + 1;
    }
    proof {
        if start >= end {
            assert(r@ =~= port_range(start, end));
        }
    }
    r
}

} // verus!
