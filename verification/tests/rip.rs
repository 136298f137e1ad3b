use netlabs::rip::{config_settled, topology_from_text, ConfigError};
use netlabs::rip::{
    ConfigElement, ConfigEntry, DistanceVector, DistanceVectorEntry, FieldValue, Graph, Node, Topology, TopologyError,
    UpdateQueue, INFINITE_HOPS, NONE_NODE,
};

fn channel(from: &str, to: &str) -> ConfigElement {
    ConfigElement::Table(vec![
        ("from".to_string(), FieldValue::Text(from.to_string())),
        ("to".to_string(), FieldValue::Text(to.to_string())),
    ])
}

fn config(hosts: &[&str], channels: Vec<ConfigElement>) -> Vec<(String, ConfigEntry)> {
    vec![
        (
            "hosts".to_string(),
            ConfigEntry::Array(hosts.iter().map(|h| ConfigElement::Text(h.to_string())).collect()),
        ),
        ("channels".to_string(), ConfigEntry::Array(channels)),
    ]
}

#[test]
fn initial_entry_is_direct_or_unreachable() {
    assert_eq!(DistanceVectorEntry::initial((3, true)), DistanceVectorEntry { next: 3, hops: 1 });
    assert_eq!(
        DistanceVectorEntry::initial((3, false)),
        DistanceVectorEntry { next: NONE_NODE, hops: INFINITE_HOPS }
    );
}

#[test]
fn vector_from_row() {
    let dv = DistanceVector::from_adjacence_row(vec![false, true]);
    assert_eq!(dv.0[0].hops, INFINITE_HOPS);
    assert_eq!(dv.0[1], DistanceVectorEntry { next: 1, hops: 1 });
}

#[test]
fn node_relaxes_against_neighbor() {
    let mut a = Node::from_adjacence_row(vec![false, true, false]);
    let mut b = Node::from_adjacence_row(vec![true, false, true]);
    assert!(a.has_updates);
    let dv_b = b.take_distance_vector();
    assert!(!b.has_updates);
    let _ = a.take_distance_vector();
    assert!(a.accept_distance_vector(1, &dv_b));
    assert_eq!(a.dv.0[2], DistanceVectorEntry { next: 1, hops: 2 });
    // nothing new the second time
    let _ = a.take_distance_vector();
    assert!(!a.accept_distance_vector(1, &dv_b));
}

#[test]
fn queue_serves_every_node_once() {
    let mut q = UpdateQueue::new_full(3);
    q.add(1);
    let mut seen = Vec::new();
    while let Some(x) = q.take() {
        seen.push(x);
    }
    seen.sort();
    assert_eq!(seen, vec![0, 1, 2]);
    q.add(2);
    assert_eq!(q.take(), Some(2));
    assert_eq!(q.take(), None);
}

#[test]
fn topology_from_config() {
    let table = config(&["a", "b", "c"], vec![channel("a", "b"), channel("b", "c")]);
    assert!(Topology::from_toml(&table).is_ok());
}

#[test]
fn topology_errors() {
    let no_hosts = vec![("channels".to_string(), ConfigEntry::Array(vec![]))];
    assert_eq!(Topology::from_toml(&no_hosts).err(), Some(TopologyError::NoHosts));
    let hosts_not_array = vec![("hosts".to_string(), ConfigEntry::Other)];
    assert_eq!(Topology::from_toml(&hosts_not_array).err(), Some(TopologyError::HostsNotArray));
    let no_channels = vec![("hosts".to_string(), ConfigEntry::Array(vec![ConfigElement::Text("a".to_string())]))];
    assert_eq!(Topology::from_toml(&no_channels).err(), Some(TopologyError::NoChannels));
    let unknown = config(&["a", "b"], vec![channel("a", "z")]);
    assert_eq!(Topology::from_toml(&unknown).err(), Some(TopologyError::UnknownTo));
    let unknown_from = config(&["a", "b"], vec![channel("q", "a")]);
    assert_eq!(Topology::from_toml(&unknown_from).err(), Some(TopologyError::UnknownFrom));
    let not_table = config(&["a"], vec![ConfigElement::Text("a".to_string())]);
    assert_eq!(Topology::from_toml(&not_table).err(), Some(TopologyError::ChannelNotTable));
    let host_not_string = vec![
        ("hosts".to_string(), ConfigEntry::Array(vec![ConfigElement::Other])),
        ("channels".to_string(), ConfigEntry::Array(vec![])),
    ];
    assert_eq!(Topology::from_toml(&host_not_string).err(), Some(TopologyError::HostNotString));
    let no_from = config(&["a"], vec![ConfigElement::Table(vec![("to".to_string(), FieldValue::Text("a".to_string()))])]);
    assert_eq!(Topology::from_toml(&no_from).err(), Some(TopologyError::NoFrom));
    let to_not_string = config(
        &["a"],
        vec![ConfigElement::Table(vec![
            ("from".to_string(), FieldValue::Text("a".to_string())),
            ("to".to_string(), FieldValue::Other),
        ])],
    );
    assert_eq!(Topology::from_toml(&to_not_string).err(), Some(TopologyError::ToNotString));
}

#[test]
fn line_network_converges_to_shortest_routes() {
    let table = config(&["a", "b", "c", "d"], vec![channel("a", "b"), channel("b", "c"), channel("c", "d")]);
    let topology = Topology::from_toml(&table).ok().unwrap();
    let mut graph = Graph::from_graph(topology);
    assert_eq!(graph.node_count(), 4);
    assert_eq!(graph.name(0), Some("a".to_string()));
    assert_eq!(graph.name(3), Some("d".to_string()));
    assert_eq!(graph.name(4), None);
    assert_eq!(graph.route_entry(0, 3).hops, INFINITE_HOPS);
    let mut steps = 0;
    while graph.step().is_some() {
        steps += 1;
        assert!(steps < 1000);
    }
    assert_eq!(graph.route_entry(0, 3), DistanceVectorEntry { next: 1, hops: 3 });
    assert_eq!(graph.route_entry(3, 0), DistanceVectorEntry { next: 2, hops: 3 });
    assert_eq!(graph.route_entry(1, 3), DistanceVectorEntry { next: 2, hops: 2 });
}

#[test]
fn disconnected_host_stays_unreachable() {
    let table = config(&["a", "b", "c"], vec![channel("a", "b")]);
    let mut graph = Graph::from_graph(Topology::from_toml(&table).ok().unwrap());
    while graph.step().is_some() {}
    assert_eq!(graph.route_entry(0, 1), DistanceVectorEntry { next: 1, hops: 1 });
    assert_eq!(graph.route_entry(0, 2), DistanceVectorEntry { next: NONE_NODE, hops: INFINITE_HOPS });
}

#[test]
fn run_announces_until_stable() {
    let table = config(&["a", "b", "c"], vec![channel("a", "b"), channel("b", "c"), channel("a", "c")]);
    let mut graph = Graph::from_graph(Topology::from_toml(&table).ok().unwrap());
    let announced = graph.run();
    assert!(announced.len() >= 3);
    assert!(announced.iter().all(|x| *x < 3));
    assert!(graph.step().is_none());
    assert_eq!(graph.route_entry(0, 2), DistanceVectorEntry { next: 2, hops: 1 });
    assert_eq!(graph.route_entry(2, 1), DistanceVectorEntry { next: 1, hops: 1 });
}

#[test]
fn channel_errors() {
    let channels_not_array = vec![
        ("hosts".to_string(), ConfigEntry::Array(vec![ConfigElement::Text("a".to_string())])),
        ("channels".to_string(), ConfigEntry::Other),
    ];
    assert_eq!(Topology::from_toml(&channels_not_array).err(), Some(TopologyError::ChannelsNotArray));
    let from_not_string = config(
        &["a"],
        vec![ConfigElement::Table(vec![
            ("from".to_string(), FieldValue::Other),
            ("to".to_string(), FieldValue::Text("a".to_string())),
        ])],
    );
    assert_eq!(Topology::from_toml(&from_not_string).err(), Some(TopologyError::FromNotString));
    let no_to = config(&["a"], vec![ConfigElement::Table(vec![("from".to_string(), FieldValue::Text("a".to_string()))])]);
    assert_eq!(Topology::from_toml(&no_to).err(), Some(TopologyError::NoTo));
    // the first faulty channel decides
    let first = config(&["a", "b"], vec![channel("a", "b"), channel("x", "a"), channel("a", "y")]);
    assert_eq!(Topology::from_toml(&first).err(), Some(TopologyError::UnknownFrom));
}

#[test]
fn topology_from_configuration_text() {
    let text = "hosts = [\"a\", \"b\", \"c\"]\nchannels = [{ from = \"a\", to = \"b\" }, { from = \"b\", to = \"c\" }]\n";
    let topology = topology_from_text(text).unwrap().ok().unwrap();
    let mut graph = Graph::from_graph(topology);
    graph.run();
    assert_eq!(graph.route_entry(0, 2), DistanceVectorEntry { next: 1, hops: 2 });
    assert_eq!(topology_from_text("hosts = [").unwrap().err(), Some(ConfigError::NotToml));
    assert_eq!(
        topology_from_text("hosts = [\"a\"]\n").unwrap().err(),
        Some(ConfigError::Topology(TopologyError::NoChannels))
    );
    // a host named twice leaves an index past the network
    let twice = "hosts = [\"a\", \"a\", \"b\"]\nchannels = [{ from = \"b\", to = \"a\" }]\n";
    assert!(topology_from_text(twice).is_none());
    assert!(!config_settled(&config(&["a", "a", "b"], vec![channel("b", "a")])));
    assert!(config_settled(&config(&["a", "a", "b"], vec![channel("a", "z")])));
    assert!(config_settled(&config(&["a", "b"], vec![channel("a", "b")])));
}

#[test]
fn run_finds_shortest_routes_in_a_ring() {
    let hosts = ["h0", "h1", "h2", "h3", "h4", "h5"];
    let mut channels = Vec::new();
    for i in 0..6 {
        channels.push(channel(hosts[i], hosts[(i + 1) % 6]));
    }
    let mut graph = Graph::from_graph(Topology::from_toml(&config(&hosts, channels)).ok().unwrap());
    let announced = graph.run();
    assert!(announced.len() <= 6 + 15 * 36);
    for u in 0..6usize {
        for t in 0..6usize {
            if u == t {
                continue;
            }
            let d = std::cmp::min((u + 6 - t) % 6, (t + 6 - u) % 6);
            let e = graph.route_entry(u, t);
            assert_eq!(e.hops, d, "route {u} -> {t}");
            let nd = std::cmp::min((e.next + 6 - t) % 6, (t + 6 - e.next) % 6);
            assert_eq!(nd + 1, d, "next hop of {u} -> {t}");
        }
    }
}

#[test]
fn repeated_host_is_named_at_its_last_position() {
    let table = config(&["a", "a", "b"], vec![]);
    assert!(config_settled(&table));
    let graph = Graph::from_graph(Topology::from_toml(&table).ok().unwrap());
    assert_eq!(graph.name(0), None);
    assert_eq!(graph.name(1), Some("a".to_string()));
    assert_eq!(graph.name(2), Some("b".to_string()));
    assert_eq!(graph.name(3), None);
}
