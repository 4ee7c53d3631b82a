//! Tests of the mesh engine: registry operations, routing, forwarding,
//! handover, and end-to-end constellation scenarios.

use rustsat::mesh::MeshNetwork;
use rustsat::node::{NetworkNode, NodeType, OrbitalPosition};
use rustsat::packet::NetworkPacket;
use rustsat::routing::RouteError;

fn pos(lat_mdeg: i32, lon_mdeg: i32, alt_m: u32) -> OrbitalPosition {
    OrbitalPosition {
        lat_mdeg,
        lon_mdeg,
        alt_m,
        vel_x_mps: 0,
        vel_y_mps: 0,
        vel_z_mps: 0,
    }
}

#[test]
fn test_network_creation() {
    let network = MeshNetwork::new();
    assert_eq!(network.node_count(), 0);
    assert_eq!(network.ground_station_count(), 0);
}

#[test]
fn test_node_addition() {
    let mut network = MeshNetwork::new();
    let position = OrbitalPosition {
        lat_mdeg: 0,
        lon_mdeg: 0,
        alt_m: 400_000,
        vel_x_mps: 7660,
        vel_y_mps: 0,
        vel_z_mps: 0,
    };
    let node = NetworkNode::new_cubesat(1, position);
    network.add_node(node);
    assert_eq!(network.node_count(), 1);
    assert!(network.contains_node(1));
}

#[test]
fn test_ground_station_creation() {
    // Berlin
    let gs = NetworkNode::new_ground_station(100, 52_500, 13_400);
    assert_eq!(gs.node_type, NodeType::GroundStation);
    assert_eq!(gs.communication_range_m, 5_000_000);
    assert_eq!(gs.battery_millis, 1000);
}

#[test]
fn test_routing_initialization() {
    let mut network = MeshNetwork::new();
    let pos1 = OrbitalPosition {
        lat_mdeg: 0,
        lon_mdeg: 0,
        alt_m: 400_000,
        vel_x_mps: 7660,
        vel_y_mps: 0,
        vel_z_mps: 0,
    };
    let pos2 = OrbitalPosition {
        lat_mdeg: 500,
        lon_mdeg: 500,
        alt_m: 400_000,
        vel_x_mps: 7660,
        vel_y_mps: 0,
        vel_z_mps: 0,
    };
    network.add_node(NetworkNode::new_cubesat(1, pos1));
    network.add_node(NetworkNode::new_cubesat(2, pos2));
    assert!(network.initialize_routing().is_ok());
}

#[test]
fn neighbor_discovery_is_symmetric() {
    let mut network = MeshNetwork::new();
    network.add_node(NetworkNode::new_cubesat(1, pos(0, 0, 400_000)));
    network.add_node(NetworkNode::new_cubesat(2, pos(500, 500, 400_000)));
    network.add_node(NetworkNode::new_cubesat(3, pos(0, 90_000, 400_000)));
    network.initialize_routing().unwrap();
    // 1 and 2 are ~85 km apart, node 3 sits a quarter turn away.
    for a in 0..network.nodes.len() {
        for b in 0..network.nodes.len() {
            let id_a = network.nodes[a].node_id;
            let id_b = network.nodes[b].node_id;
            let a_sees_b = network.nodes[a].neighbors.contains(&id_b);
            let b_sees_a = network.nodes[b].neighbors.contains(&id_a);
            assert_eq!(a_sees_b, b_sees_a);
        }
    }
    assert!(network.nodes[0].neighbors.contains(&2));
    assert!(!network.nodes[0].neighbors.contains(&3));
}

#[test]
fn find_route_to_self_is_empty() {
    let mut network = MeshNetwork::new();
    network.add_node(NetworkNode::new_cubesat(1, pos(0, 0, 400_000)));
    network.initialize_routing().unwrap();
    assert_eq!(network.find_optimal_route(1, 1).unwrap(), Vec::<u32>::new());
    // Even an unknown id routes trivially to itself.
    assert_eq!(network.find_optimal_route(77, 77).unwrap(), Vec::<u32>::new());
}

#[test]
fn unreachable_destination_drops_packet() {
    let mut network = MeshNetwork::new();
    network.add_node(NetworkNode::new_cubesat(1, pos(0, 0, 400_000)));
    // An isolated node with no neighbours.
    network.add_node(NetworkNode::new_cubesat(9, pos(0, 180_000, 400_000)));
    network.initialize_routing().unwrap();
    let delivered = network.route_message(1, 9, b"ping");
    assert!(!delivered);
    assert_eq!(network.get_statistics().packets_dropped, 1);
    assert_eq!(network.get_statistics().packets_routed, 0);
}

#[test]
fn removing_node_purges_routing_entries() {
    let mut network = MeshNetwork::new();
    network.add_node(NetworkNode::new_cubesat(1, pos(0, 0, 400_000)));
    network.add_node(NetworkNode::new_cubesat(2, pos(500, 500, 400_000)));
    network.add_node(NetworkNode::new_cubesat(3, pos(1000, 1000, 400_000)));
    network.initialize_routing().unwrap();
    assert!(!network.routing_table.entries.is_empty());
    network.remove_node(2).unwrap();
    for e in &network.routing_table.entries {
        assert_ne!(e.destination, 2);
        assert_ne!(e.next_hop, 2);
    }
    assert!(!network.contains_node(2));
}

#[test]
fn remove_unknown_node_is_not_found() {
    let mut network = MeshNetwork::new();
    assert_eq!(network.remove_node(5), Err(RouteError::NotFound));
}

#[test]
fn update_position_of_unknown_node_is_not_found() {
    let mut network = MeshNetwork::new();
    assert_eq!(
        network.update_node_position(5, pos(0, 0, 0)),
        Err(RouteError::NotFound)
    );
}

#[test]
fn update_position_moves_the_node() {
    let mut network = MeshNetwork::new();
    network.add_node(NetworkNode::new_cubesat(1, pos(0, 0, 400_000)));
    network
        .update_node_position(1, pos(10_000, 20_000, 500_000))
        .unwrap();
    assert_eq!(network.nodes[0].position.lat_mdeg, 10_000);
    assert_eq!(network.nodes[0].position.lon_mdeg, 20_000);
    assert_eq!(network.nodes[0].position.alt_m, 500_000);
}

#[test]
fn constellation_delivers_to_ground_station() {
    // 5 satellites at 400 km altitude, spaced in latitude/longitude,
    // with 1500 km range, plus one ground station in Berlin.
    let mut network = MeshNetwork::new();
    let sats = [
        (1u32, 50_000, 10_000),
        (2, 51_000, 11_000),
        (3, 52_000, 12_000),
        (4, 52_500, 13_000),
        (5, 53_000, 13_400),
    ];
    for (id, lat, lon) in sats {
        let mut sat = NetworkNode::new_cubesat(id, pos(lat, lon, 400_000));
        sat.communication_range_m = 1_500_000;
        network.add_node(sat);
    }
    network.add_node(NetworkNode::new_ground_station(100, 52_500, 13_400));
    network.initialize_routing().unwrap();
    let delivered = network.route_message(1, 100, b"hi");
    assert!(delivered);
    assert_eq!(network.get_statistics().packets_routed, 1);
}

#[test]
fn nodes_beyond_any_range_have_no_route() {
    // Two nodes more than 20 000 km apart, beyond any configured range.
    let mut network = MeshNetwork::new();
    network.add_node(NetworkNode::new_cubesat(1, pos(0, 0, 4_000_000)));
    network.add_node(NetworkNode::new_cubesat(2, pos(0, 180_000, 4_000_000)));
    network.initialize_routing().unwrap();
    assert_eq!(network.find_optimal_route(1, 2), Err(RouteError::NoRoute));
    assert!(!network.route_message(1, 2, b"hi"));
}

#[test]
fn handover_selects_the_only_station_in_range() {
    let mut network = MeshNetwork::new();
    network.add_node(NetworkNode::new_cubesat(1, pos(0, 0, 400_000)));
    network.add_node(NetworkNode::new_ground_station(10, 1_000, 0));
    // A station far beyond its 5000 km range.
    network.add_node(NetworkNode::new_ground_station(20, 60_000, 0));
    let chosen = network.handle_ground_station_handover(1).unwrap();
    assert_eq!(chosen, Some(10));
    assert_eq!(network.get_statistics().handovers_completed, 1);
}

#[test]
fn handover_prefers_strictly_higher_signal_quality() {
    let mut network = MeshNetwork::new();
    network.add_node(NetworkNode::new_cubesat(1, pos(0, 0, 400_000)));
    network.add_node(NetworkNode::new_ground_station(10, 1_000, 0));
    // Closer, so strictly better signal, despite the higher id.
    network.add_node(NetworkNode::new_ground_station(30, 500, 0));
    let chosen = network.handle_ground_station_handover(1).unwrap();
    assert_eq!(chosen, Some(30));
}

#[test]
fn handover_for_unknown_node_is_not_found() {
    let mut network = MeshNetwork::new();
    assert_eq!(
        network.handle_ground_station_handover(1),
        Err(RouteError::NotFound)
    );
}

#[test]
fn handover_for_ground_station_is_invalid_node() {
    let mut network = MeshNetwork::new();
    network.add_node(NetworkNode::new_ground_station(10, 0, 0));
    assert_eq!(
        network.handle_ground_station_handover(10),
        Err(RouteError::InvalidNode)
    );
}

#[test]
fn long_relay_chain_exceeds_ttl() {
    // A synthetic chain of more than 32 relay hops exhausts the packet's
    // hop budget and is counted as dropped.
    let mut network = MeshNetwork::new();
    let packet = NetworkPacket {
        packet_id: 7,
        source: 0,
        destination: 33,
        next_hop: 0,
        ttl: 32,
        priority: 1,
        timestamp_ms: 0,
        payload: b"hi".to_vec(),
        route_history: vec![0],
    };
    let route: Vec<u32> = (1..=33).collect();
    let outcome = network.forward_packet(packet, &route);
    assert_eq!(outcome, Err(RouteError::TtlExceeded));
    assert_eq!(network.get_statistics().packets_dropped, 1);
}

#[test]
fn short_route_forwards_within_ttl() {
    let mut network = MeshNetwork::new();
    let packet = NetworkPacket {
        packet_id: 7,
        source: 0,
        destination: 3,
        next_hop: 0,
        ttl: 32,
        priority: 1,
        timestamp_ms: 0,
        payload: b"hi".to_vec(),
        route_history: vec![0],
    };
    let route: Vec<u32> = vec![1, 2, 3];
    assert!(network.forward_packet(packet, &route).is_ok());
    assert_eq!(network.get_statistics().packets_dropped, 0);
}

#[test]
fn one_hop_delivery_updates_average_hop_count() {
    let mut network = MeshNetwork::new();
    network.add_node(NetworkNode::new_cubesat(1, pos(0, 0, 400_000)));
    network.add_node(NetworkNode::new_cubesat(2, pos(500, 500, 400_000)));
    network.initialize_routing().unwrap();
    assert!(network.route_message(1, 2, b"hi"));
    let stats = network.get_statistics();
    assert_eq!(stats.packets_routed, 1);
    assert_eq!(stats.total_hops, 1);
    assert_eq!(stats.average_hop_count_millis(), 1000);
    assert!(stats.total_latency_ns > 0);
}

#[test]
fn seeded_entries_start_with_one_hop_reliability() {
    let mut network = MeshNetwork::new();
    network.add_node(NetworkNode::new_cubesat(1, pos(0, 0, 400_000)));
    network.add_node(NetworkNode::new_cubesat(2, pos(500, 500, 400_000)));
    network.initialize_routing().unwrap();
    assert_eq!(network.routing_table.entries.len(), 2);
    for e in &network.routing_table.entries {
        assert_eq!(e.hop_count, 1);
        assert_eq!(e.reliability_millis, 900);
    }
}

#[test]
fn simulation_step_drains_satellite_batteries() {
    let mut network = MeshNetwork::new();
    network.add_node(NetworkNode::new_cubesat(1, pos(0, 0, 400_000)));
    network.add_node(NetworkNode::new_ground_station(100, 0, 0));
    network.initialize_routing().unwrap();
    network.simulate_network_step(250).unwrap();
    assert_eq!(network.nodes[0].battery_millis, 750);
    // Ground stations stay fully powered.
    assert_eq!(network.nodes[1].battery_millis, 1000);
    network.simulate_network_step(2_000).unwrap();
    assert_eq!(network.nodes[0].battery_millis, 0);
}

#[test]
fn link_cost_of_unknown_node_is_infinite() {
    let network = MeshNetwork::new();
    assert_eq!(
        network.calculate_link_cost(1, 2),
        rustsat::routing::INFINITE_COST
    );
}

#[test]
fn link_cost_matches_the_model() {
    // A quarter turn apart at 400 km altitude: 9 575 640 m, so
    // 9575 km, full batteries, no reliability entry, same node type:
    // 9575 * 1000 * 1000 * 2.
    let mut network = MeshNetwork::new();
    let mut a = NetworkNode::new_cubesat(1, pos(0, 0, 400_000));
    let mut b = NetworkNode::new_cubesat(2, pos(0, 90_000, 400_000));
    a.communication_range_m = 1_000_000_000;
    b.communication_range_m = 1_000_000_000;
    network.add_node(a);
    network.add_node(b);
    assert_eq!(network.calculate_link_cost(1, 2), 19_150_000_000);
}

#[test]
fn adding_a_known_id_replaces_the_record() {
    let mut network = MeshNetwork::new();
    network.add_node(NetworkNode::new_cubesat(1, pos(0, 0, 400_000)));
    network.add_node(NetworkNode::new_cubesat(1, pos(5_000, 5_000, 500_000)));
    assert_eq!(network.node_count(), 1);
    assert_eq!(network.nodes[0].position.alt_m, 500_000);
    // Replacing a satellite with a ground station moves it between sets.
    network.add_node(NetworkNode::new_ground_station(1, 0, 0));
    assert_eq!(network.node_count(), 1);
    assert_eq!(network.ground_station_count(), 1);
}

#[test]
fn message_to_self_is_not_delivered() {
    let mut network = MeshNetwork::new();
    network.add_node(NetworkNode::new_cubesat(1, pos(0, 0, 400_000)));
    network.initialize_routing().unwrap();
    assert!(!network.route_message(1, 1, b"hi"));
    assert_eq!(network.get_statistics().packets_dropped, 1);
}

#[test]
fn route_finder_avoids_battery_poor_relays() {
    // Two two-hop routes connect 1 and 4; the relay on one of them has
    // a nearly empty battery, which prices its links far higher, so the
    // healthy relay must be chosen.
    let mut network = MeshNetwork::new();
    let mut a = NetworkNode::new_cubesat(1, pos(0, 0, 400_000));
    a.communication_range_m = 150_000;
    let mut weak = NetworkNode::new_cubesat(2, pos(0, 900, 400_000));
    weak.battery_millis = 100;
    let healthy = NetworkNode::new_cubesat(3, pos(0, 1_100, 400_000));
    let mut d = NetworkNode::new_cubesat(4, pos(0, 2_000, 400_000));
    d.communication_range_m = 150_000;
    network.add_node(a);
    network.add_node(weak);
    network.add_node(healthy);
    network.add_node(d);
    network.initialize_routing().unwrap();
    assert_eq!(network.find_optimal_route(1, 4).unwrap(), vec![3, 4]);
}

#[test]
fn equal_cost_routes_resolve_to_the_lowest_id() {
    // Relays 2 and 3 sit at the same position, so both two-hop routes
    // cost exactly the same; the lower id must win.
    let mut network = MeshNetwork::new();
    let mut a = NetworkNode::new_cubesat(1, pos(0, 0, 400_000));
    a.communication_range_m = 150_000;
    network.add_node(a);
    network.add_node(NetworkNode::new_cubesat(2, pos(1_000, 0, 400_000)));
    network.add_node(NetworkNode::new_cubesat(3, pos(1_000, 0, 400_000)));
    let mut d = NetworkNode::new_cubesat(4, pos(2_000, 0, 400_000));
    d.communication_range_m = 150_000;
    network.add_node(d);
    network.initialize_routing().unwrap();
    assert_eq!(network.find_optimal_route(1, 4).unwrap(), vec![2, 4]);
}

#[test]
fn route_of_exactly_ttl_hops_is_delivered() {
    // The budget reaches zero exactly on arrival: that is a delivery,
    // not a TTL failure.
    let mut network = MeshNetwork::new();
    let packet = NetworkPacket {
        packet_id: 7,
        source: 0,
        destination: 32,
        next_hop: 0,
        ttl: 32,
        priority: 1,
        timestamp_ms: 0,
        payload: b"hi".to_vec(),
        route_history: vec![0],
    };
    let route: Vec<u32> = (1..=32).collect();
    assert!(network.forward_packet(packet, &route).is_ok());
    assert_eq!(network.get_statistics().packets_dropped, 0);
}
