use hvm_compiler::net::{Addr, NodeData, Port, VarData, WireId};

fn port(primary: bool, vanilla: bool, lazy: bool, node: u64, p: u64, label: u64) -> Port {
    Port { is_primary: primary, is_vanilla: vanilla, is_lazy: lazy, target: Addr { node, port: p }, label }
}

#[test]
fn get_tuple_3_picks_middle_for_ports_zero_and_one() {
    let a = port(true, false, false, 1, 0, 0);
    let b = port(false, true, false, 2, 0, 0);
    let c = port(false, false, true, 3, 0, 0);
    let mut t = (a, b, c);
    let r = Addr { node: 9, port: 0 }.get_tuple_3(&mut t).unwrap();
    assert_eq!(*r, b);
    r.label = 42;
    assert_eq!(t.1.label, 42);
    assert_eq!(t.0, a);
    assert_eq!(t.2, c);
    let r = Addr { node: 9, port: 1 }.get_tuple_3(&mut t).unwrap();
    assert_eq!(r.label, 42);
}

#[test]
fn get_tuple_3_picks_last_for_port_two() {
    let a = port(true, false, false, 1, 0, 0);
    let b = port(false, true, false, 2, 0, 0);
    let c = port(false, false, true, 3, 0, 0);
    let mut t = (a, b, c);
    let r = Addr { node: 0, port: 2 }.get_tuple_3(&mut t).unwrap();
    assert_eq!(*r, c);
    r.is_primary = true;
    assert!(t.2.is_primary);
    assert_eq!(t.1, b);
}

#[test]
fn get_tuple_2_picks_by_auxiliary_port() {
    let a = port(true, false, false, 1, 0, 0);
    let b = port(false, true, false, 2, 0, 0);
    let mut t = (a, b);
    assert_eq!(*Addr { node: 0, port: 1 }.get_tuple_2(&mut t), a);
    assert_eq!(*Addr { node: 0, port: 2 }.get_tuple_2(&mut t), b);
    Addr { node: 0, port: 2 }.get_tuple_2(&mut t).label = 5;
    assert_eq!(t, (a, Port { label: 5, ..b }));
}

#[test]
fn to_bits_packs_flags_node_and_label() {
    let p = port(true, true, true, 5, 2, 3);
    assert_eq!(p.to_bits(), 1 + 2 + 4 + 8 + (5 << 4) + (3 << 48));
    // the lazy flag is not encoded
    assert_eq!(port(true, true, false, 5, 2, 3).to_bits(), p.to_bits());
    assert_eq!(port(false, false, false, 0, 0, 0).to_bits(), 0);
    assert_eq!(port(false, false, false, 0, 1, 0).to_bits(), 0);
    assert_eq!(port(true, false, false, 7, 0, 0).to_bits(), 1 + 7 * 16);
}

#[test]
fn to_bits_drops_bits_shifted_out() {
    // the label keeps only its low 16 bits, the node its low 60 bits
    assert_eq!(port(false, false, false, 0, 0, 0x1_0001).to_bits(), 1 << 48);
    assert_eq!(port(false, false, false, 1 << 60, 0, 0).to_bits(), 0);
}

#[test]
fn bits_fit_tells_when_to_bits_stays_in_range() {
    assert!(port(true, true, true, 5, 2, 3).bits_fit());
    let big = port(true, false, false, 0x0FFF_FFFF_FFFF_FFFF, 0, 0xFFFF);
    assert!(!big.bits_fit());
    let edge = port(false, false, false, 0x0000_0FFF_FFFF_FFFF, 0, 0xFFFF);
    assert!(edge.bits_fit());
    assert_eq!(edge.to_bits(), u64::MAX - 15);
}

#[test]
fn addr_to_string_is_node_dot_port() {
    assert_eq!(Addr { node: 12, port: 2 }.to_string(), "12.2");
    assert_eq!(Addr { node: 0, port: 0 }.to_string(), "0.0");
    assert_eq!(Addr { node: u64::MAX, port: 1 }.to_string(), "18446744073709551615.1");
}

#[test]
fn port_to_string_lists_flags_label_and_target() {
    assert_eq!(port(true, true, false, 12, 0, 3).to_string(), "Port { IV#3 -> 12.0 }");
    assert_eq!(port(false, false, true, 1, 2, 255).to_string(), "Port { L#255 -> 1.2 }");
    assert_eq!(Port::default().to_string(), "Port { #0 -> 0.0 }");
}

#[test]
fn defaults_are_blank() {
    assert_eq!(Addr::default(), Addr { node: 0, port: 0 });
    assert_eq!(Port::default(), port(false, false, false, 0, 0, 0));
    assert_eq!(
        VarData::default(),
        VarData { binder_count: 0, to_binder: None, user_count: 0, to_user: None }
    );
}

#[test]
fn node_data_holds_wires() {
    let n = NodeData { primary: true, vanilla: true, lazy: false, label: 1, p0: WireId(0), p1: WireId(1), p2: WireId(2) };
    assert_eq!(n.p1, WireId(1));
    assert_ne!(n.p0, n.p2);
}
