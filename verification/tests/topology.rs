use netsim::device::{Device, DeviceType, IPAddrKind, NetError};
use netsim::graph::{connect_bidirectional, perform_connections, Graph};
use netsim::query::{can_talk, dir_conn_to, find_ip_kind, rm_device};
use netsim::registry::Registry;

fn dev(name: &str, dtype: &str, kind: &str, value: &str) -> Device {
    Device::new(vec![name, dtype, kind, value]).expect("valid device description")
}

fn s(x: &str) -> String {
    x.to_owned()
}

fn names(v: &[&str]) -> Vec<String> {
    v.iter().map(|x| s(x)).collect()
}

/// The five-device chain Desk1 - Switch1 - Router1 - Switch2 - Desk3.
fn scenario() -> (Registry, Graph) {
    let mut reg = Registry::new();
    let d1 = dev("Desk1", "Desktop", "V6", "..1");
    let s1 = dev("Switch1", "Switch", "V6", "..2");
    let r1 = dev("Router1", "Router", "V4", "1.1.1.1");
    let s2 = dev("Switch2", "Switch", "V6", "..3");
    let d3 = dev("Desk3", "Desktop", "V6", "..4");
    reg.register(d1.duplicate());
    reg.register(s1.duplicate());
    reg.register(r1.duplicate());
    reg.register(s2.duplicate());
    reg.register(d3.duplicate());
    let mut declared = Graph::new();
    perform_connections(&d1, names(&["Switch1"]), &mut declared);
    perform_connections(&r1, names(&["Switch1", "Switch2"]), &mut declared);
    perform_connections(&s2, names(&["Desk3"]), &mut declared);
    let graph = connect_bidirectional(&declared, &reg);
    (reg, graph)
}

#[test]
fn scenario_direct_connections() {
    let (reg, graph) = scenario();
    assert_eq!(
        dir_conn_to(&s("Router1"), &reg, &graph),
        Ok(names(&["Switch1", "Switch2"]))
    );
    assert_eq!(
        dir_conn_to(&s("Switch1"), &reg, &graph),
        Ok(names(&["Desk1", "Router1"]))
    );
    assert_eq!(
        dir_conn_to(&s("Switch2"), &reg, &graph),
        Ok(names(&["Desk3", "Router1"]))
    );
    assert_eq!(dir_conn_to(&s("Desk3"), &reg, &graph), Ok(names(&["Switch2"])));
}

#[test]
fn scenario_path() {
    let (reg, graph) = scenario();
    assert_eq!(
        can_talk(&s("Desk1"), &s("Desk3"), &reg, &graph),
        Ok(names(&["Desk1", "Switch1", "Router1", "Switch2", "Desk3"]))
    );
}

#[test]
fn scenario_removal_breaks_path() {
    let (mut reg, mut graph) = scenario();
    assert_eq!(rm_device(&s("Switch2"), &mut reg, &mut graph), Ok(true));
    assert_eq!(
        can_talk(&s("Desk1"), &s("Desk3"), &reg, &graph),
        Ok(Vec::<String>::new())
    );
    assert_eq!(
        reg.lookup(&s("Switch2")).unwrap_err(),
        NetError::NotFound
    );
    // No adjacency list still mentions the removed device.
    for name in ["Desk1", "Switch1", "Router1", "Desk3"] {
        let adj = dir_conn_to(&s(name), &reg, &graph).unwrap();
        assert!(!adj.contains(&s("Switch2")));
    }
}

#[test]
fn graph_is_symmetric() {
    let (reg, graph) = scenario();
    let all = ["Desk1", "Switch1", "Router1", "Switch2", "Desk3"];
    for a in all {
        let adj_a = dir_conn_to(&s(a), &reg, &graph).unwrap();
        for b in all {
            let adj_b = dir_conn_to(&s(b), &reg, &graph).unwrap();
            assert_eq!(adj_a.contains(&s(b)), adj_b.contains(&s(a)));
        }
    }
}

#[test]
fn filter_partitions_registry() {
    let (reg, _) = scenario();
    let v4 = find_ip_kind(&IPAddrKind::V4(0, 0, 0, 0), &reg);
    let v6 = find_ip_kind(&IPAddrKind::V6(s("")), &reg);
    assert_eq!(v4, names(&["Router1"]));
    assert_eq!(v6, names(&["Desk1", "Switch1", "Switch2", "Desk3"]));
    assert_eq!(v4.len() + v6.len(), 5);
    for n in &v4 {
        assert!(!v6.contains(n));
    }
}

#[test]
fn filter_is_by_variant_not_value() {
    let (reg, _) = scenario();
    // Any V4 value filters the same set.
    assert_eq!(
        find_ip_kind(&IPAddrKind::V4(9, 9, 9, 9), &reg),
        find_ip_kind(&IPAddrKind::V4(0, 0, 0, 0), &reg)
    );
    assert_eq!(
        find_ip_kind(&IPAddrKind::V6(s("anything")), &reg),
        find_ip_kind(&IPAddrKind::V6(s("")), &reg)
    );
}

#[test]
fn self_path_is_zero_hops() {
    let (reg, graph) = scenario();
    assert_eq!(
        can_talk(&s("Desk1"), &s("Desk1"), &reg, &graph),
        Ok(names(&["Desk1"]))
    );
}

#[test]
fn unreachable_in_both_directions() {
    // Two disjoint components: A - B and C - D.
    let mut reg = Registry::new();
    let a = dev("A", "Desktop", "V6", "::1");
    let b = dev("B", "Switch", "V6", "::2");
    let c = dev("C", "Desktop", "V6", "::3");
    let d = dev("D", "Switch", "V6", "::4");
    reg.register(a.duplicate());
    reg.register(b.duplicate());
    reg.register(c.duplicate());
    reg.register(d.duplicate());
    let mut declared = Graph::new();
    perform_connections(&a, names(&["B"]), &mut declared);
    perform_connections(&c, names(&["D"]), &mut declared);
    let graph = connect_bidirectional(&declared, &reg);
    assert_eq!(can_talk(&s("A"), &s("B"), &reg, &graph), Ok(names(&["A", "B"])));
    assert_eq!(can_talk(&s("A"), &s("C"), &reg, &graph), Ok(Vec::<String>::new()));
    assert_eq!(can_talk(&s("C"), &s("A"), &reg, &graph), Ok(Vec::<String>::new()));
    assert_eq!(can_talk(&s("D"), &s("B"), &reg, &graph), Ok(Vec::<String>::new()));
}

#[test]
fn path_on_cycle_terminates() {
    // A triangle plus a tail: the visited set stops the cycle.
    let mut reg = Registry::new();
    let a = dev("A", "Router", "V4", "10.0.0.1");
    let b = dev("B", "Router", "V4", "10.0.0.2");
    let c = dev("C", "Router", "V4", "10.0.0.3");
    let d = dev("D", "Desktop", "V6", "::d");
    reg.register(a.duplicate());
    reg.register(b.duplicate());
    reg.register(c.duplicate());
    reg.register(d.duplicate());
    let mut declared = Graph::new();
    perform_connections(&a, names(&["B", "C"]), &mut declared);
    perform_connections(&b, names(&["C"]), &mut declared);
    perform_connections(&c, names(&["D"]), &mut declared);
    let graph = connect_bidirectional(&declared, &reg);
    let path = can_talk(&s("A"), &s("D"), &reg, &graph).unwrap();
    assert_eq!(path.first(), Some(&s("A")));
    assert_eq!(path.last(), Some(&s("D")));
    // Consecutive elements are adjacent and nothing repeats.
    for w in path.windows(2) {
        let adj = dir_conn_to(&w[0], &reg, &graph).unwrap();
        assert!(adj.contains(&w[1]));
    }
    for (i, x) in path.iter().enumerate() {
        for y in &path[i + 1..] {
            assert_ne!(x, y);
        }
    }
}

#[test]
fn queries_report_not_found() {
    let (mut reg, mut graph) = scenario();
    assert_eq!(
        dir_conn_to(&s("Ghost"), &reg, &graph),
        Err(NetError::NotFound)
    );
    assert_eq!(
        can_talk(&s("Ghost"), &s("Desk1"), &reg, &graph),
        Err(NetError::NotFound)
    );
    assert_eq!(
        can_talk(&s("Desk1"), &s("Ghost"), &reg, &graph),
        Err(NetError::NotFound)
    );
    assert_eq!(
        rm_device(&s("Ghost"), &mut reg, &mut graph),
        Err(NetError::NotFound)
    );
    assert_eq!(reg.lookup(&s("Ghost")).unwrap_err(), NetError::NotFound);
    assert_eq!(reg.remove(&s("Ghost")).unwrap_err(), NetError::NotFound);
}

#[test]
fn registered_device_without_graph_entry_is_inconsistent() {
    let mut reg = Registry::new();
    reg.register(dev("Lone", "Desktop", "V6", "::9"));
    reg.register(dev("Other", "Desktop", "V6", "::a"));
    let graph = Graph::new();
    assert_eq!(
        dir_conn_to(&s("Lone"), &reg, &graph),
        Err(NetError::GraphInconsistent)
    );
    assert_eq!(
        can_talk(&s("Lone"), &s("Other"), &reg, &graph),
        Err(NetError::GraphInconsistent)
    );
}

#[test]
fn isolated_device_has_empty_entry() {
    let mut reg = Registry::new();
    let a = dev("A", "Desktop", "V6", "::1");
    let b = dev("B", "Desktop", "V6", "::2");
    reg.register(a.duplicate());
    reg.register(b.duplicate());
    let declared = Graph::new();
    let graph = connect_bidirectional(&declared, &reg);
    assert_eq!(dir_conn_to(&s("A"), &reg, &graph), Ok(Vec::<String>::new()));
    assert_eq!(dir_conn_to(&s("B"), &reg, &graph), Ok(Vec::<String>::new()));
}

#[test]
fn register_overwrites_same_name() {
    let mut reg = Registry::new();
    reg.register(dev("A", "Desktop", "V6", "::1"));
    reg.register(dev("A", "Router", "V4", "9.9.9.9"));
    let got = reg.lookup(&s("A")).unwrap();
    assert_eq!(got.dtype, DeviceType::Router);
    assert!(matches!(got.addr, IPAddrKind::V4(9, 9, 9, 9)));
    let v4 = find_ip_kind(&IPAddrKind::V4(0, 0, 0, 0), &reg);
    assert_eq!(v4, names(&["A"]));
}

#[test]
fn parse_valid_devices() {
    let d = dev("Router9", "Router", "V4", "192.168.0.255");
    assert_eq!(d.name, s("Router9"));
    assert_eq!(d.dtype, DeviceType::Router);
    assert!(matches!(d.addr, IPAddrKind::V4(192, 168, 0, 255)));
    let d6 = dev("Host", "Desktop", "V6", "2001:0db8::7334");
    assert!(matches!(d6.addr, IPAddrKind::V6(ref v) if v.as_str() == "2001:0db8::7334"));
    let z = dev("Zero", "Switch", "V4", "0.0.0.0");
    assert!(matches!(z.addr, IPAddrKind::V4(0, 0, 0, 0)));
}

#[test]
fn parse_rejects_malformed_input() {
    assert_eq!(
        Device::new(vec!["X", "Toaster", "V4", "1.2.3.4"]).unwrap_err(),
        NetError::ParseError
    );
    assert_eq!(
        Device::new(vec!["X", "Desktop", "V5", "1.2.3.4"]).unwrap_err(),
        NetError::ParseError
    );
    assert_eq!(
        Device::new(vec!["X", "Desktop", "V4"]).unwrap_err(),
        NetError::ParseError
    );
    assert_eq!(
        Device::new(vec!["X", "Desktop", "V4", "1.2.3.4", "extra"]).unwrap_err(),
        NetError::ParseError
    );
}

#[test]
fn evaluate_ipkind_accepts_and_rejects() {
    assert!(matches!(
        Device::evaluate_ipkind("V4", "1.2.3.4"),
        Ok(IPAddrKind::V4(1, 2, 3, 4))
    ));
    assert!(matches!(
        Device::evaluate_ipkind("V4", "255.255.255.255"),
        Ok(IPAddrKind::V4(255, 255, 255, 255))
    ));
    assert!(matches!(
        Device::evaluate_ipkind("V4", "007.8.9.10"),
        Ok(IPAddrKind::V4(7, 8, 9, 10))
    ));
    assert!(matches!(
        Device::evaluate_ipkind("V6", ""),
        Ok(IPAddrKind::V6(ref v)) if v.is_empty()
    ));
    for bad in [
        "1.2.3", "1.2.3.4.5", "256.1.1.1", "1.2.3.999", "a.b.c.d", "1..2.3", ".1.2.3",
        "1.2.3.", "", "1,2,3,4", "1.2.3.-4",
    ] {
        assert_eq!(
            Device::evaluate_ipkind("V4", bad).unwrap_err(),
            NetError::ParseError,
            "expected ParseError for {bad:?}"
        );
    }
    assert_eq!(
        Device::evaluate_ipkind("V5", "1.2.3.4").unwrap_err(),
        NetError::ParseError
    );
}

#[test]
fn removal_keeps_the_rest_intact() {
    let (mut reg, mut graph) = scenario();
    assert_eq!(rm_device(&s("Router1"), &mut reg, &mut graph), Ok(true));
    // The remaining devices keep their entries, scrubbed of Router1.
    assert_eq!(dir_conn_to(&s("Switch1"), &reg, &graph), Ok(names(&["Desk1"])));
    assert_eq!(dir_conn_to(&s("Switch2"), &reg, &graph), Ok(names(&["Desk3"])));
    // Symmetry survives the repair.
    let all = ["Desk1", "Switch1", "Switch2", "Desk3"];
    for a in all {
        let adj_a = dir_conn_to(&s(a), &reg, &graph).unwrap();
        for b in all {
            let adj_b = dir_conn_to(&s(b), &reg, &graph).unwrap();
            assert_eq!(adj_a.contains(&s(b)), adj_b.contains(&s(a)));
        }
    }
    // Each side of the broken chain still talks internally.
    assert_eq!(
        can_talk(&s("Desk1"), &s("Switch1"), &reg, &graph),
        Ok(names(&["Desk1", "Switch1"]))
    );
    assert_eq!(
        can_talk(&s("Desk3"), &s("Switch2"), &reg, &graph),
        Ok(names(&["Desk3", "Switch2"]))
    );
    assert_eq!(
        can_talk(&s("Desk1"), &s("Desk3"), &reg, &graph),
        Ok(Vec::<String>::new())
    );
}

#[test]
fn duplicate_edge_declarations_are_kept() {
    let mut reg = Registry::new();
    let a = dev("A", "Desktop", "V6", "::1");
    let b = dev("B", "Desktop", "V6", "::2");
    reg.register(a.duplicate());
    reg.register(b.duplicate());
    let mut declared = Graph::new();
    perform_connections(&a, names(&["B", "B"]), &mut declared);
    let graph = connect_bidirectional(&declared, &reg);
    assert_eq!(dir_conn_to(&s("A"), &reg, &graph), Ok(names(&["B", "B"])));
    assert_eq!(dir_conn_to(&s("B"), &reg, &graph), Ok(names(&["A", "A"])));
}

#[test]
fn redeclaration_overwrites_edge_list() {
    let mut reg = Registry::new();
    let a = dev("A", "Desktop", "V6", "::1");
    let b = dev("B", "Desktop", "V6", "::2");
    let c = dev("C", "Desktop", "V6", "::3");
    reg.register(a.duplicate());
    reg.register(b.duplicate());
    reg.register(c.duplicate());
    let mut declared = Graph::new();
    perform_connections(&a, names(&["B"]), &mut declared);
    perform_connections(&a, names(&["C"]), &mut declared);
    let graph = connect_bidirectional(&declared, &reg);
    assert_eq!(dir_conn_to(&s("A"), &reg, &graph), Ok(names(&["C"])));
    assert_eq!(dir_conn_to(&s("B"), &reg, &graph), Ok(Vec::<String>::new()));
    assert_eq!(dir_conn_to(&s("C"), &reg, &graph), Ok(names(&["A"])));
}

#[test]
fn first_found_path_wins_over_shorter_one() {
    // A declares [B, D]: the search dives into B's subtree first and
    // returns A-B-C-D even though the direct edge A-D exists.
    let mut reg = Registry::new();
    let a = dev("A", "Router", "V4", "10.1.0.1");
    let b = dev("B", "Switch", "V6", "::b");
    let c = dev("C", "Switch", "V6", "::c");
    let d = dev("D", "Desktop", "V6", "::d");
    reg.register(a.duplicate());
    reg.register(b.duplicate());
    reg.register(c.duplicate());
    reg.register(d.duplicate());
    let mut declared = Graph::new();
    perform_connections(&a, names(&["B", "D"]), &mut declared);
    perform_connections(&b, names(&["C"]), &mut declared);
    perform_connections(&c, names(&["D"]), &mut declared);
    let graph = connect_bidirectional(&declared, &reg);
    assert_eq!(
        can_talk(&s("A"), &s("D"), &reg, &graph),
        Ok(names(&["A", "B", "C", "D"]))
    );
}
