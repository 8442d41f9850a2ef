use nucleon::addr::SocketAddr;
use nucleon::backend::{GetBackend, RoundRobinBackend};

#[test]
fn test_rrb_backend() {
    let backends_str = vec!["127.0.0.1:6000".to_string(), "127.0.0.1:6001".to_string()];
    let mut rrb = RoundRobinBackend::new(backends_str).unwrap();
    assert_eq!(2, rrb.backends().len());

    let first_socket_addr = rrb.get().unwrap();
    let second_socket_addr = rrb.get().unwrap();
    let third_socket_addr = rrb.get().unwrap();
    let fourth_socket_addr = rrb.get().unwrap();
    assert_eq!(first_socket_addr, third_socket_addr);
    assert_eq!(second_socket_addr, fourth_socket_addr);
    assert!(first_socket_addr != second_socket_addr);
}

#[test]
fn test_empty_rrb_backend() {
    let backends_str = vec![];
    let mut rrb = RoundRobinBackend::new(backends_str).unwrap();
    assert_eq!(0, rrb.backends().len());
    assert!(rrb.get().is_none());
}

#[test]
fn test_add_to_rrb_backend() {
    let mut rrb = RoundRobinBackend::new(vec![]).unwrap();
    assert!(rrb.get().is_none());
    assert!(rrb.add("327.0.0.1:6000").is_err());
    assert!(rrb.get().is_none());
    assert!(rrb.add("127.0.0.1:6000").is_ok());
    assert!(rrb.get().is_some());
}

#[test]
fn test_remove_from_rrb_backend() {
    let backends_str = vec!["127.0.0.1:6000".to_string(), "127.0.0.1:6001".to_string()];
    let mut rrb = RoundRobinBackend::new(backends_str).unwrap();
    assert!(rrb.remove("327.0.0.1:6000").is_err());
    assert_eq!(2, rrb.backends().len());
    assert!(rrb.remove("127.0.0.1:6000").is_ok());
    assert_eq!(1, rrb.backends().len());
    assert!(rrb.remove("127.0.0.1:6000").is_ok());
    assert_eq!(1, rrb.backends().len());
}

#[test]
fn addresses_are_parsed() {
    assert_eq!(
        Ok(SocketAddr::V4 { octets: 0x0a000003, port: 80 }),
        SocketAddr::from_str("10.0.0.3:80")
    );
    assert_eq!(
        Ok(SocketAddr::V6 { segments: 1, port: 443, flowinfo: 0, scope_id: 0 }),
        SocketAddr::from_str("[::1]:443")
    );
    assert!(SocketAddr::from_str("10.0.0.3").is_err());
}

fn local(port: u16) -> SocketAddr {
    SocketAddr::V4 { octets: 0x7f000001, port }
}

#[test]
fn one_bad_address_refuses_all() {
    let backends_str = vec!["127.0.0.1:6000".to_string(), "327.0.0.1:6000".to_string()];
    assert!(RoundRobinBackend::new(backends_str).is_err());
}

#[test]
fn servers_take_turns() {
    let mut rrb = RoundRobinBackend::from_addrs(vec![local(1), local(2), local(3)]);
    let used: Vec<SocketAddr> = (0..7).map(|_| rrb.get().unwrap()).collect();
    assert_eq!(
        vec![local(2), local(3), local(1), local(2), local(3), local(1), local(2)],
        used
    );
}

#[test]
fn an_added_server_gets_its_turn() {
    let mut rrb = RoundRobinBackend::from_addrs(vec![local(1)]);
    assert_eq!(Some(local(1)), rrb.get());
    rrb.add_addr(local(2));
    assert_eq!(Some(local(2)), rrb.get());
    assert_eq!(Some(local(1)), rrb.get());
}

#[test]
fn a_server_may_be_added_twice_and_is_removed_at_once() {
    let mut rrb = RoundRobinBackend::from_addrs(vec![local(1), local(2)]);
    assert!(rrb.add("127.0.0.1:1").is_ok());
    assert_eq!(&vec![local(1), local(2), local(1)], rrb.backends());
    rrb.remove_addr(local(1));
    assert_eq!(&vec![local(2)], rrb.backends());
    rrb.remove_addr(local(2));
    assert!(rrb.get().is_none());
}

#[test]
fn a_removal_shifts_the_turn() {
    let mut rrb = RoundRobinBackend::from_addrs(vec![local(1), local(2), local(3), local(4)]);
    for port in [2, 3, 4] {
        assert_eq!(Some(local(port)), rrb.get());
    }
    // the position that was used last lies behind the servers that are left
    rrb.remove_addr(local(3));
    rrb.remove_addr(local(4));
    assert_eq!(Some(local(1)), rrb.get());
    assert_eq!(Some(local(2)), rrb.get());
}

#[test]
fn removal_undoes_an_addition() {
    let mut rrb = RoundRobinBackend::from_addrs(vec![local(1), local(2)]);
    rrb.add_addr(local(3));
    rrb.remove_addr(local(3));
    assert_eq!(&vec![local(1), local(2)], rrb.backends());
    assert_eq!(Some(local(2)), rrb.get());
}

#[test]
fn one_missing_address_refuses_all() {
    let rrb = RoundRobinBackend::from_parsed(vec![Some(local(1)), Some(local(2))]).unwrap();
    assert_eq!(&vec![local(1), local(2)], rrb.backends());
    assert!(RoundRobinBackend::from_parsed(vec![Some(local(1)), None]).is_err());
    assert!(RoundRobinBackend::from_parsed(vec![]).is_ok());
}

#[test]
fn a_removed_server_is_not_used_until_it_is_added_again() {
    let mut rrb = RoundRobinBackend::from_addrs(vec![local(1), local(2), local(3)]);
    rrb.remove_addr(local(2));
    rrb.add_addr(local(4));
    for _ in 0..6 {
        assert_ne!(Some(local(2)), rrb.get());
    }
    rrb.remove_addr(local(1));
    rrb.add_addr(local(5));
    let used: Vec<SocketAddr> = (0..3).map(|_| rrb.get().unwrap()).collect();
    assert!(!used.contains(&local(2)));
    for port in [3, 4, 5] {
        assert!(used.contains(&local(port)));
    }
    rrb.add_addr(local(2));
    let used: Vec<SocketAddr> = (0..4).map(|_| rrb.get().unwrap()).collect();
    assert!(used.contains(&local(2)));
}
