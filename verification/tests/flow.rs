use rolling_stock::flow::{FlowArc, FlowNetwork, Step};

/// What flows into a node less what flows out of it.
fn excess(arcs: &Vec<FlowArc>, v: usize) -> i64 {
    let mut e = 0i64;
    for a in arcs.iter() {
        if a.to == v {
            e += a.flow as i64;
        }
        if a.from == v {
            e -= a.flow as i64;
        }
    }
    e
}

#[test]
fn flow_runs_along_the_cheapest_way() {
    // 0 is the source and 1 the sink; the way over 2 is worth more than the way over 3
    let mut flow = FlowNetwork::new(4);
    let a = flow.add_arc(0, 2, 1, -5);
    let b = flow.add_arc(2, 1, 1, 0);
    let c = flow.add_arc(0, 3, 2, -1);
    let d = flow.add_arc(3, 1, 2, 0);
    let e = flow.add_arc(0, 1, 9, 4);
    assert_eq!((a, b, c, d, e), (0, 1, 2, 3, 4));
    assert_eq!(flow.send_while_cheaper(0, 1, 2), 2);
    let flows: Vec<u64> = flow.arcs().iter().map(|x| x.flow).collect();
    assert_eq!(flows, vec![1, 1, 1, 1, 0]);
    // one more unit is cheaper still, another would cost
    assert_eq!(flow.send_while_cheaper(0, 1, 9), 1);
    let flows: Vec<u64> = flow.arcs().iter().map(|x| x.flow).collect();
    assert_eq!(flows, vec![1, 1, 2, 2, 0]);
    assert_eq!(flow.flowing_out_of(0), Some(0));
    assert_eq!(flow.flowing_out_of(1), None);
    flow.take_unit(0);
    assert_eq!(flow.flowing_out_of(0), Some(2));
    assert_eq!(flow.nodes(), 4);
}

#[test]
fn flow_is_taken_back_where_that_is_cheaper() {
    // the first unit takes 0-2-3-1; the second is cheapest over 0-3, back
    // over 3-2 and on over 2-1
    let mut flow = FlowNetwork::new(4);
    flow.add_arc(0, 2, 1, -10);
    flow.add_arc(2, 3, 1, -10);
    flow.add_arc(3, 1, 1, -10);
    flow.add_arc(0, 3, 1, -1);
    flow.add_arc(2, 1, 1, -1);
    assert_eq!(flow.send_while_cheaper(0, 1, 9), 1);
    let flows: Vec<u64> = flow.arcs().iter().map(|x| x.flow).collect();
    assert_eq!(flows, vec![1, 1, 1, 0, 0]);
}

#[test]
fn nothing_is_lost_between_source_and_sink() {
    let mut flow = FlowNetwork::new(5);
    flow.add_arc(0, 2, 2, -3);
    flow.add_arc(2, 3, 1, -3);
    flow.add_arc(2, 4, 1, -1);
    flow.add_arc(3, 1, 1, 0);
    flow.add_arc(4, 1, 1, 0);
    flow.add_arc(4, 4, 1, 1);
    let units = flow.send_while_cheaper(0, 1, 9);
    assert_eq!(units, 2);
    assert_eq!(excess(flow.arcs(), 0), -2);
    assert_eq!(excess(flow.arcs(), 1), 2);
    for v in 2..5 {
        assert_eq!(excess(flow.arcs(), v), 0);
    }
    // from a node to itself nothing is sent
    assert_eq!(flow.send_while_cheaper(2, 2, 9), 0);
    // no unit beyond the limit
    let mut flow = FlowNetwork::new(2);
    flow.add_arc(0, 1, 7, -1);
    assert_eq!(flow.send_while_cheaper(0, 1, 3), 3);
    assert_eq!(flow.arcs()[0].flow, 3);
}

fn two_ways() -> FlowNetwork {
    let mut flow = FlowNetwork::new(4);
    flow.add_arc(0, 2, 1, -5);
    flow.add_arc(2, 1, 1, 0);
    flow.add_arc(0, 3, 2, -1);
    flow.add_arc(3, 1, 2, 0);
    flow.add_arc(0, 1, 9, 4);
    flow
}

#[test]
fn the_search_finds_the_cheapest_way_to_every_node() {
    let flow = two_ways();
    let (reached, dist, last) = flow.cheapest_ways(0, 4);
    assert_eq!(reached, vec![true, true, true, true]);
    assert_eq!(dist, vec![0, -5, -5, -1]);
    assert_eq!(last[1], Step { arc: 1, forward: true });
    assert_eq!(last[2], Step { arc: 0, forward: true });
    assert_eq!(last[3], Step { arc: 2, forward: true });
    // without a round nothing but the source is reached
    let (reached, dist, _) = flow.cheapest_ways(0, 0);
    assert_eq!(reached, vec![true, false, false, false]);
    assert_eq!(dist, vec![0, 0, 0, 0]);
    // from the sink nothing is reached but over arcs with flow
    let (reached, _, _) = flow.cheapest_ways(1, 4);
    assert_eq!(reached, vec![false, true, false, false]);
}

#[test]
fn a_unit_goes_the_way_that_the_last_steps_name() {
    let mut flow = two_ways();
    let (reached, _, last) = flow.cheapest_ways(0, 4);
    assert!(flow.send_unit(0, 1, &reached, &last));
    let flows: Vec<u64> = flow.arcs().iter().map(|x| x.flow).collect();
    assert_eq!(flows, vec![1, 1, 0, 0, 0]);
    // the same way has no room for a second unit
    assert!(!flow.send_unit(0, 1, &reached, &last));
    let flows: Vec<u64> = flow.arcs().iter().map(|x| x.flow).collect();
    assert_eq!(flows, vec![1, 1, 0, 0, 0]);
    // against the flow a unit goes back
    let back = vec![Step { arc: 0, forward: true }, Step { arc: 0, forward: true }, Step { arc: 1, forward: false }, Step { arc: 0, forward: true }];
    let mut other = two_ways();
    assert!(other.send_unit(0, 1, &reached, &last));
    assert!(other.send_unit(1, 2, &vec![true, true, true, true], &back));
    let flows: Vec<u64> = other.arcs().iter().map(|x| x.flow).collect();
    assert_eq!(flows, vec![1, 0, 0, 0, 0]);
    // nothing is sent from a node to itself, to a node that is not reached,
    // or where the last steps lead in a circle
    assert!(!flow.send_unit(0, 0, &reached, &last));
    assert!(!flow.send_unit(0, 1, &vec![true, false, true, true], &last));
    let mut circle = FlowNetwork::new(3);
    circle.add_arc(2, 1, 1, 0);
    circle.add_arc(1, 2, 1, 0);
    let round = vec![Step { arc: 0, forward: true }, Step { arc: 0, forward: true }, Step { arc: 1, forward: true }];
    assert!(!circle.send_unit(0, 1, &vec![true, true, true], &round));
    assert_eq!(circle.arcs()[0].flow, 0);
}
