use hypernet::address::{IpAddr, SocketAddr};
use hypernet::identity::Identity;
use hypernet::topology::{Hypercube, TopologyError};
use hypernet::util::get_available_ports;
use std::collections::hash_map::DefaultHasher;
use std::collections::{HashMap, HashSet};
use std::hash::{Hash, Hasher};

fn all_free() -> Vec<bool> {
    vec![true; 4000]
}

fn neighbor_sets(cube: &Hypercube, n: u16) -> HashMap<u16, HashSet<u16>> {
    (0..n)
        .map(|k| (k, cube.neighbors(k).unwrap().iter().map(|a| a.id).collect::<HashSet<u16>>()))
        .collect()
}

#[test]
fn test_new() {
    let cube: Hypercube = Hypercube::new(3, &all_free()).unwrap();

    println!("{cube:#?}");

    let m: HashMap<u16, HashSet<u16>> = neighbor_sets(&cube, 8);
    assert_eq!(
        m,
        HashMap::from([
            (0b000, HashSet::from([0b001, 0b010, 0b100])),
            (0b001, HashSet::from([0b000, 0b011, 0b101])),
            (0b010, HashSet::from([0b011, 0b000, 0b110])),
            (0b011, HashSet::from([0b010, 0b001, 0b111])),
            (0b100, HashSet::from([0b101, 0b110, 0b000])),
            (0b101, HashSet::from([0b100, 0b111, 0b001])),
            (0b110, HashSet::from([0b111, 0b100, 0b010])),
            (0b111, HashSet::from([0b110, 0b101, 0b011])),
        ])
    );
}

#[test]
fn every_label_has_d_neighbors_one_bit_away() {
    for d in 0..=6u16 {
        let cube = Hypercube::new(d, &all_free()).unwrap();
        let n = 1u16 << d;
        assert_eq!(cube.len(), n as usize);
        assert_eq!(cube.dimension(), d);
        for label in 0..n {
            let neighbors = cube.neighbors(label).unwrap();
            assert_eq!(neighbors.len(), d as usize);
            let ids: HashSet<u16> = neighbors.iter().map(|a| a.id).collect();
            assert_eq!(ids.len(), d as usize);
            for (k, neighbor) in neighbors.iter().enumerate() {
                assert!(neighbor.id < n);
                assert_eq!(neighbor.id ^ label, 1 << k);
                assert_eq!((neighbor.id ^ label).count_ones(), 1);
                assert_eq!(neighbor.address, cube.identity(neighbor.id).unwrap().address);
            }
        }
        assert!(cube.neighbors(n).is_none());
        assert!(cube.identity(n).is_none());
    }
}

#[test]
fn neighborhood_is_symmetric() {
    let cube = Hypercube::new(4, &all_free()).unwrap();
    let m = neighbor_sets(&cube, 16);
    for a in 0..16u16 {
        for b in 0..16u16 {
            assert_eq!(m[&a].contains(&b), m[&b].contains(&a));
        }
    }
}

#[test]
fn dimension_zero_is_a_single_node() {
    let cube = Hypercube::new(0, &all_free()).unwrap();
    assert_eq!(cube.len(), 1);
    assert!(cube.neighbors(0).unwrap().is_empty());
    assert_eq!(cube.identity(0).unwrap().address, SocketAddr::new(IpAddr::localhost(), 8000));
}

#[test]
fn labels_get_the_lowest_free_ports_on_loopback() {
    let mut available = vec![false; 4000];
    for offset in [3usize, 4, 10, 11, 500, 3999] {
        available[offset] = true;
    }
    let cube = Hypercube::new(2, &available).unwrap();
    let ports: Vec<u16> = (0..4).map(|i| cube.identity(i).unwrap().address.port).collect();
    assert_eq!(ports, vec![8003, 8004, 8010, 8011]);
    for i in 0..4u16 {
        let identity = cube.identity(i).unwrap();
        assert_eq!(identity.id, i);
        assert_eq!(identity.address.ip, IpAddr::from_octets(127, 0, 0, 1));
    }
    assert!(cube.pids().is_none());
}

#[test]
fn too_few_free_ports_fail_the_topology() {
    let mut available = vec![false; 4000];
    for offset in 0..7usize {
        available[offset] = true;
    }
    assert_eq!(Hypercube::new(3, &available).unwrap_err(), TopologyError::InsufficientAddresses);
    available[3999] = true;
    assert!(Hypercube::new(3, &available).is_ok());
    assert_eq!(Hypercube::new(12, &all_free()).unwrap_err(), TopologyError::InsufficientAddresses);
    assert_eq!(Hypercube::new(16, &all_free()).unwrap_err(), TopologyError::InsufficientAddresses);
    assert_eq!(
        Hypercube::new(u16::MAX, &all_free()).unwrap_err(),
        TopologyError::InsufficientAddresses
    );
    assert!(Hypercube::new(11, &all_free()).is_ok());
}

#[test]
fn available_ports_are_the_lowest_free_ones() {
    let available = vec![true, false, true, true, false, true];
    assert_eq!(get_available_ports(0, &available), Some(vec![]));
    assert_eq!(get_available_ports(1, &available), Some(vec![8000]));
    assert_eq!(get_available_ports(3, &available), Some(vec![8000, 8002, 8003]));
    assert_eq!(get_available_ports(4, &available), Some(vec![8000, 8002, 8003, 8005]));
    assert_eq!(get_available_ports(5, &available), None);
}

#[test]
fn available_ports_end_with_the_range() {
    let mut available = vec![false; 5000];
    available[3999] = true;
    available[4000] = true;
    available[4999] = true;
    assert_eq!(get_available_ports(1, &available), Some(vec![11999]));
    assert_eq!(get_available_ports(2, &available), None);
    assert_eq!(get_available_ports(1, &vec![]), None);
    assert_eq!(get_available_ports(0, &vec![]), Some(vec![]));
    let all = get_available_ports(4000, &all_free()).unwrap();
    assert_eq!(all.len(), 4000);
    assert_eq!(all[0], 8000);
    assert_eq!(all[3999], 11999);
    assert!(all.windows(2).all(|w| w[0] < w[1]));
    assert_eq!(get_available_ports(4001, &vec![true; 5000]), None);
}

#[test]
fn started_nodes_are_recorded() {
    let mut cube = Hypercube::new(2, &all_free()).unwrap();
    assert!(!cube.start(vec![11, 12, 13]));
    assert!(cube.pids().is_none());
    assert!(cube.start(vec![11, 12, 13, 14]));
    assert_eq!(cube.pids(), Some(&vec![11, 12, 13, 14]));
    assert!(!cube.start(vec![]));
    assert_eq!(cube.pids(), Some(&vec![11, 12, 13, 14]));
}

fn hash_of(identity: &Identity) -> u64 {
    let mut hasher = DefaultHasher::new();
    identity.hash(&mut hasher);
    hasher.finish()
}

#[test]
fn identities_are_told_apart_by_label_alone() {
    let here = Identity::new(5, SocketAddr::new(IpAddr::localhost(), 8000));
    let there = Identity::new(5, SocketAddr::new(IpAddr::from_octets(10, 0, 0, 1), 9000));
    let other = Identity::new(6, SocketAddr::new(IpAddr::localhost(), 8000));
    assert_eq!(here, there);
    assert_ne!(here, other);
    assert_eq!(hash_of(&here), hash_of(&there));
    assert_eq!(hash_of(&here), {
        let mut hasher = DefaultHasher::new();
        5u16.hash(&mut hasher);
        hasher.finish()
    });
    let set: HashSet<Identity> = HashSet::from([here, there, other]);
    assert_eq!(set.len(), 2);
}
