use fnec::network::network_ports;

#[test]
fn no_networks_have_no_ports() {
    assert!(network_ports(&Vec::new()).is_empty());
}

#[test]
fn ports_are_distinct_and_ascending() {
    let ends = vec![(7, 3), (3, 12), (7, 7), (0, 12)];
    assert_eq!(network_ports(&ends), vec![0, 3, 7, 12]);
}

#[test]
fn a_one_port_network_has_one_port() {
    assert_eq!(network_ports(&vec![(5, 5)]), vec![5]);
}
