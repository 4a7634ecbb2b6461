//! The hypercube: which nodes exist, where they listen and who neighbours whom.

use crate::address::{loopback, IpAddr, SocketAddr};
use crate::bits::{
    adjacent, flip, flip_bit, is_label, lemma_adjacent_symmetric, lemma_flip_distinct,
    lemma_flip_is_label, lemma_flip_one_bit, lemma_node_count_is_shift, node_count, MAX_DIMENSION,
};
use crate::identity::Identity;
use crate::util::{free_ports, get_available_ports, lemma_free_ports_upto, probed};
use std::collections::HashMap;
use vstd::arithmetic::power2::{lemma2_to64, lemma_pow2_strictly_increases};
use vstd::pervasive::unreached;
use vstd::prelude::*;
use vstd::std_specs::hash::*;

verus! {

broadcast use group_hash_axioms;

/// Why a topology could not be built.
#[derive(Clone, Copy, Debug, PartialEq, Eq, Structural)]
pub enum TopologyError {
    /// Fewer free addresses were found than the topology has nodes.
    InsufficientAddresses,
}

/// A hypercube of dimension `d`: `2^d` nodes, each with `d` neighbours.
#[derive(Debug)]
pub struct Hypercube {
    /// Connections between nodes: for each label, the identities of its
    /// neighbours, by flipped bit.
    graph: HashMap<u16, Vec<Identity>>,
    /// Map from node label to identity.
    addrs: HashMap<u16, Identity>,
    /// Dimension of the hypercube.
    d: u16,
    /// Process ids of the running nodes, once they were started.
    pids: Option<Vec<u32>>,
}

/// What a hypercube is, as mathematics.
pub struct HypercubeView {
    /// The dimension.
    pub d: u16,
    /// The identity of each label, by label.
    pub registry: Seq<Identity>,
    /// The neighbours of each label, by label and then by flipped bit.
    pub adjacency: Seq<Seq<Identity>>,
    /// The process ids of the running nodes, by label, once they were started.
    pub pids: Option<Seq<u32>>,
}

impl HypercubeView {
    /// The invariant of a topology: one identity per label, no two at the same
    /// address, and for each label and each bit below the dimension the
    /// identity of the label that differs in that bit.
    pub open spec fn wf(self) -> bool {
        &&& self.d <= MAX_DIMENSION
        &&& self.registry.len() == node_count(self.d)
        &&& self.adjacency.len() == node_count(self.d)
        &&& forall|i: int| 0 <= i < self.registry.len() ==> (#[trigger] self.registry[i]).id == i
        &&& forall|i: int, j: int|
            0 <= i < j < self.registry.len() ==> (#[trigger] self.registry[i]).address != (
            #[trigger] self.registry[j]).address
        &&& forall|i: int|
            0 <= i < self.adjacency.len() ==> (#[trigger] self.adjacency[i]).len() == self.d
        &&& forall|i: int, k: int|
            0 <= i < self.adjacency.len() && 0 <= k < self.d ==> #[trigger] self.adjacency[i][k]
                == self.registry[flip(i as u16, k as u16) as int]
        &&& self.pids matches Some(p) ==> p.len() == node_count(self.d)
    }

    /// The labels of the neighbours of `label`, in the order of the flipped bit.
    pub open spec fn neighbor_ids(self, label: int) -> Seq<u16> {
        Seq::new(self.adjacency[label].len(), |k: int| self.adjacency[label][k].id)
    }

    /// The set of labels that neighbour `label`.
    pub open spec fn neighbor_set(self, label: int) -> Set<u16> {
        self.neighbor_ids(label).to_set()
    }
}

impl View for Hypercube {
    type V = HypercubeView;

    closed spec fn view(&self) -> HypercubeView {
        HypercubeView {
            d: self.d,
            registry: Seq::new(node_count(self.d), |i: int| self.addrs@[i as u16]),
            adjacency: Seq::new(node_count(self.d), |i: int| self.graph@[i as u16]@),
            pids: match self.pids {
                Some(p) => Some(p@),
                None => None,
            },
        }
    }
}

/// Every label has exactly `d` neighbours, all of them labels of the
/// topology, none of them the label itself, and each differs from it in
/// exactly one bit: the `k`-th neighbour in bit `k`.
pub proof fn lemma_topology_regular(cube: HypercubeView, label: u16)
    requires
        cube.wf(),
        is_label(cube.d, label as int),
    ensures
        cube.neighbor_set(label as int).finite(),
        cube.neighbor_set(label as int).len() == cube.d,
        cube.neighbor_ids(label as int).no_duplicates(),
        forall|k: int|
            0 <= k < cube.d ==> {
                let id = #[trigger] cube.neighbor_ids(label as int)[k];
                &&& is_label(cube.d, id as int)
                &&& id != label
                &&& label ^ id == 1u16 << (k as u16)
            },
{
    let ids = cube.neighbor_ids(label as int);
    assert forall|k: int| 0 <= k < cube.d implies {
        let id = #[trigger] ids[k];
        &&& id == flip(label, k as u16)
        &&& is_label(cube.d, id as int)
        &&& id != label
        &&& label ^ id == 1u16 << (k as u16)
    } by {
        lemma_flip_is_label(cube.d, label, k as u16);
        lemma_flip_one_bit(label, k as u16);
    }
    assert forall|j: int, k: int| 0 <= j < ids.len() && 0 <= k < ids.len() && j != k implies ids[j]
        != ids[k] by {
        lemma_flip_distinct(label, j as u16, k as u16);
    }
    ids.unique_seq_to_set();
}

/// The neighbours of a label are the labels that differ from it in exactly
/// one bit below the dimension.
pub proof fn lemma_neighbors_are_adjacent(cube: HypercubeView, a: u16, b: u16)
    requires
        cube.wf(),
        is_label(cube.d, a as int),
    ensures
        cube.neighbor_set(a as int).contains(b) <==> adjacent(cube.d, a, b),
{
    let ids = cube.neighbor_ids(a as int);
    assert forall|k: int| 0 <= k < cube.d implies #[trigger] ids[k] == flip(a, k as u16) by {
        lemma_flip_is_label(cube.d, a, k as u16);
    }
    if ids.to_set().contains(b) {
        let k = choose|k: int| 0 <= k < ids.len() && ids[k] == b;
        assert(b == flip(a, k as u16));
    }
    if adjacent(cube.d, a, b) {
        let k = choose|k: u16| k < cube.d && b == #[trigger] flip(a, k);
        assert(ids[k as int] == b);
    }
}

/// Neighbourhood is symmetric: `b` neighbours `a` exactly when `a` neighbours
/// `b`.
pub proof fn lemma_topology_symmetric(cube: HypercubeView, a: u16, b: u16)
    requires
        cube.wf(),
        is_label(cube.d, a as int),
        is_label(cube.d, b as int),
    ensures
        cube.neighbor_set(a as int).contains(b) <==> cube.neighbor_set(b as int).contains(a),
{
    lemma_neighbors_are_adjacent(cube, a, b);
    lemma_neighbors_are_adjacent(cube, b, a);
    lemma_adjacent_symmetric(cube.d, a, b);
}

/// The identity that a new topology gives to `label`: loopback, at the
/// `label`-th of the free ports.
pub open spec fn assigned(available: Seq<bool>, label: int) -> Identity {
    Identity {
        id: label as u16,
        address: SocketAddr { ip: loopback(), port: free_ports(available)[label] },
    }
}

impl Hypercube {
    /// The invariant that every topology keeps.
    #[verifier::type_invariant]
    pub open spec fn wf(&self) -> bool {
        self@.wf() && self.keyed()
    }

    /// Whether the maps hold an entry for each label and for nothing else.
    pub closed spec fn keyed(&self) -> bool {
        &&& forall|label: u16|
            #[trigger] self.addrs@.contains_key(label) <==> is_label(self.d, label as int)
        &&& forall|label: u16|
            #[trigger] self.graph@.contains_key(label) <==> is_label(self.d, label as int)
    }

    /// Makes a hypercube of dimension `d` on the lowest free local ports.
    ///
    /// `available` says for each port of the scanned range whether it was found
    /// free. Label `i` gets the `i`-th free port on the loopback address. Fails
    /// when the range holds fewer than `2^d` free ports.
    pub fn new(d: u16, available: &Vec<bool>) -> (r: Result<Hypercube, TopologyError>)
        ensures
            r is Ok <==> node_count(d) <= free_ports(available@).len(),
            r matches Ok(cube) ==> {
                &&& cube.wf()
                &&& cube@.d == d
                &&& cube@.pids is None
                &&& forall|i: int|
                    0 <= i < node_count(d) ==> #[trigger] cube@.registry[i] == assigned(
                        available@,
                        i,
                    )
            },
            r matches Err(e) ==> e == TopologyError::InsufficientAddresses,
    {
        proof {
            lemma_free_ports_upto(available@, probed(available@));
        }
        if d > MAX_DIMENSION {
            proof {
                lemma2_to64();
                lemma_pow2_strictly_increases(15, d as nat);
            }
            return Err(TopologyError::InsufficientAddresses);
        }
        proof {
            lemma_node_count_is_shift(d);
        }
        let n: u16 = 1u16 << d;
        let ports = match get_available_ports(n, available) {
            Some(ports) => ports,
            None => {
                return Err(TopologyError::InsufficientAddresses);
            },
        };
        let mut addrs: HashMap<u16, Identity> = HashMap::new();
        let mut i: u16 = 0;
        while i < n
            invariant
                i <= n,
                n == node_count(d),
                n <= free_ports(available@).len(),
                ports@ == free_ports(available@).take(n as int),
                forall|label: u16| #[trigger] addrs@.contains_key(label) <==> label < i,
                forall|label: u16|
                    label < i ==> #[trigger] addrs@[label] == assigned(available@, label as int),
            decreases n - i,
        {
            let address = SocketAddr::new(IpAddr::localhost(), ports[i as usize]);
            addrs.insert(i, Identity::new(i, address));
            i += 1;
        }
        let mut graph: HashMap<u16, Vec<Identity>> = HashMap::new();
        let mut i: u16 = 0;
        while i < n
            invariant
                i <= n,
                d <= MAX_DIMENSION,
                n == node_count(d),
                forall|label: u16| #[trigger] addrs@.contains_key(label) <==> label < n,
                forall|label: u16| #[trigger] graph@.contains_key(label) <==> label < i,
                forall|label: u16| label < i ==> (#[trigger] graph@[label]).len() == d,
                forall|label: u16, k: int|
                    label < i && 0 <= k < d ==> #[trigger] graph@[label][k] == addrs@[flip(
                        label,
                        k as u16,
                    )],
            decreases n - i,
        {
            let mut row: Vec<Identity> = Vec::new();
            let mut k: u16 = 0;
            while k < d
                invariant
                    k <= d,
                    d <= MAX_DIMENSION,
                    i < n,
                    n == node_count(d),
                    forall|label: u16| #[trigger] addrs@.contains_key(label) <==> label < n,
                    row.len() == k,
                    forall|m: int| 0 <= m < k ==> #[trigger] row[m] == addrs@[flip(i, m as u16)],
                decreases d - k,
            {
                let id = flip_bit(i, k);
                proof {
                    lemma_flip_is_label(d, i, k);
                }
                match addrs.get(&id) {
                    Some(neighbor) => row.push(*neighbor),
                    None => unreached(),
                }
                k += 1;
            }
            graph.insert(i, row);
            i += 1;
        }
        proof {
            assert forall|a: u16, b: u16| a < b < n implies (#[trigger] addrs@[a]).address != (
            #[trigger] addrs@[b]).address by {
                assert(free_ports(available@)[a as int] < free_ports(available@)[b as int]);
            }
            assert forall|a: u16, k: u16| a < n && k < d implies #[trigger] flip(a, k) < n by {
                lemma_flip_is_label(d, a, k);
            }
        }
        Ok(Hypercube { graph, addrs, d, pids: None })
    }

    /// The dimension of the hypercube.
    pub fn dimension(&self) -> (d: u16)
        ensures
            d == self@.d,
    {
        self.d
    }

    /// The number of nodes of the hypercube.
    pub fn len(&self) -> (n: usize)
        ensures
            self.wf(),
            n == node_count(self@.d),
    {
        proof {
            use_type_invariant(self);
            lemma_node_count_is_shift(self.d);
        }
        (1u16 << self.d) as usize
    }

    /// The identity that carries `label`, if the topology has that label.
    pub fn identity(&self, label: u16) -> (identity: Option<Identity>)
        ensures
            self.wf(),
            identity is Some <==> is_label(self@.d, label as int),
            identity matches Some(found) ==> found == self@.registry[label as int],
    {
        proof {
            use_type_invariant(self);
        }
        match self.addrs.get(&label) {
            Some(identity) => Some(*identity),
            None => None,
        }
    }

    /// The neighbours of `label`, by flipped bit, if the topology has that
    /// label.
    pub fn neighbors(&self, label: u16) -> (neighbors: Option<&Vec<Identity>>)
        ensures
            self.wf(),
            neighbors is Some <==> is_label(self@.d, label as int),
            neighbors matches Some(found) ==> found@ == self@.adjacency[label as int],
    {
        proof {
            use_type_invariant(self);
        }
        self.graph.get(&label)
    }

    /// Records the process ids of the nodes, by label, once they were started.
    ///
    /// Takes them only if there is one for each node; says whether it did.
    pub fn start(&mut self, pids: Vec<u32>) -> (taken: bool)
        ensures
            final(self).wf(),
            taken <==> pids@.len() == node_count(old(self)@.d),
            taken ==> final(self)@ == (HypercubeView { pids: Some(pids@), ..old(self)@ }),
            !taken ==> final(self)@ == old(self)@,
    {
        proof {
            use_type_invariant(&*self);
            lemma_node_count_is_shift(self.d);
        }
        if pids.len() == (1u16 << self.d) as usize {
            self.pids = Some(pids);
            true
        } else {
            false
        }
    }

    /// The process ids of the nodes, by label, if the nodes were started.
    pub fn pids(&self) -> (pids: Option<&Vec<u32>>)
        ensures
            pids is Some <==> self@.pids is Some,
            pids matches Some(found) ==> self@.pids == Some(found@),
    {
        self.pids.as_ref()
    }
}

} // verus!
