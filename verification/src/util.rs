//! Choosing local ports for the nodes of a topology.
//!
//! Ports are taken from the half-open range `FIRST_PORT..END_PORT`. Whether a
//! port is free is found out by the caller, who tries to bind it and lets go
//! of it again, and is handed in as a table with one entry per port of the
//! range, in ascending order.

use vstd::prelude::*;

verus! {

/// The first port that is considered.
pub const FIRST_PORT: u16 = 8000;

/// One past the last port that is considered.
pub const END_PORT: u16 = 12000;

/// How many ports are considered.
pub open spec fn range_len() -> nat {
    (END_PORT - FIRST_PORT) as nat
}

/// How many entries of a probe table are looked at: those within the range.
pub open spec fn probed(available: Seq<bool>) -> nat {
    if available.len() <= range_len() {
        available.len()
    } else {
        range_len()
    }
}

/// The free ports among the first `k` ports of the range, in ascending order.
pub open spec fn free_ports_upto(available: Seq<bool>, k: nat) -> Seq<u16>
    recommends
        k <= probed(available),
    decreases k,
{
    if k == 0 {
        Seq::empty()
    } else {
        let before = free_ports_upto(available, (k - 1) as nat);
        if available[k - 1] {
            before.push((FIRST_PORT + k - 1) as u16)
        } else {
            before
        }
    }
}

/// All free ports of the range, in ascending order. An entry that the table
/// lacks counts as a port in use.
pub open spec fn free_ports(available: Seq<bool>) -> Seq<u16> {
    free_ports_upto(available, probed(available))
}

/// Every port listed among the first `k` lies in the range, was reported free,
/// and the listing ascends strictly, so no port occurs twice.
pub proof fn lemma_free_ports_upto(available: Seq<bool>, k: nat)
    requires
        k <= probed(available),
    ensures
        free_ports_upto(available, k).len() <= k,
        forall|i: int|
            0 <= i < free_ports_upto(available, k).len() ==> {
                let p = #[trigger] free_ports_upto(available, k)[i];
                FIRST_PORT <= p < FIRST_PORT + k && available[p - FIRST_PORT]
            },
        forall|i: int, j: int|
            0 <= i < j < free_ports_upto(available, k).len() ==> free_ports_upto(available, k)[i]
                < free_ports_upto(available, k)[j],
    decreases k,
{
    if k > 0 {
        lemma_free_ports_upto(available, (k - 1) as nat);
    }
}

/// Looking at more ports only appends to the listing.
pub proof fn lemma_free_ports_grow(available: Seq<bool>, k: nat, m: nat)
    requires
        k <= m <= probed(available),
    ensures
        free_ports_upto(available, k).len() <= free_ports_upto(available, m).len(),
        free_ports_upto(available, k) =~= free_ports_upto(available, m).take(
            free_ports_upto(available, k).len() as int,
        ),
    decreases m,
{
    if k < m {
        lemma_free_ports_grow(available, k, (m - 1) as nat);
    }
}

/// Picks the `n` lowest free ports of the range.
///
/// Returns `None` when the range holds fewer than `n` free ports. The ports
/// come out in ascending order, so none is returned twice.
pub fn get_available_ports(n: u16, available: &Vec<bool>) -> (ports: Option<Vec<u16>>)
    ensures
        ports is Some <==> n <= free_ports(available@).len(),
        ports matches Some(v) ==> v@ == free_ports(available@).take(n as int),
        ports matches Some(v) ==> forall|i: int, j: int| 0 <= i < j < v.len() ==> v[i] < v[j],
        ports matches Some(v) ==> forall|i: int|
            0 <= i < v.len() ==> FIRST_PORT <= #[trigger] v[i] < END_PORT && available[v[i]
                - FIRST_PORT],
{
    let limit: usize = if available.len() <= (END_PORT - FIRST_PORT) as usize {
        available.len()
    } else {
        (END_PORT - FIRST_PORT) as usize
    };
    let mut found: Vec<u16> = Vec::new();
    let mut k: usize = 0;
    while k < limit && found.len() < n as usize
        invariant
            k <= limit,
            limit == probed(available@),
            found@ == free_ports_upto(available@, k as nat),
            found.len() <= n,
        decreases limit - k,
    {
        if available[k] {
            found.push(FIRST_PORT + k as u16);
        }
        k += 1;
    }
    proof {
        lemma_free_ports_grow(available@, k as nat, limit as nat);
        lemma_free_ports_upto(available@, k as nat);
    }
    if found.len() == n as usize {
        Some(found)
    } else {
        None
    }
}

} // verus!
