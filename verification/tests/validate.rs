use safety_net::error::Error;
use safety_net::logic::Logic;
use safety_net::netlist::{Gate, GateNetlist, Netlist};

fn and_gate() -> Gate {
    Gate::new_logical("AND".into(), vec!["A".into(), "B".into()], "Y".into())
}

#[test]
fn no_outputs_is_reported() {
    let mut netlist: GateNetlist = Netlist::new("empty".into());
    assert!(matches!(netlist.verify(), Err(Error::NoOutputs)));
    let a = netlist.insert_input("a".into());
    netlist
        .insert_gate(and_gate(), "inst_0".into(), &[a, a])
        .unwrap();
    assert!(matches!(netlist.verify(), Err(Error::NoOutputs)));
    assert_eq!(Error::NoOutputs.message(), "No outputs in netlist");
}

#[test]
fn repeated_instance_names_come_before_missing_outputs() {
    let mut netlist: GateNetlist = Netlist::new("order".into());
    let a = netlist.insert_input("a".into());
    netlist
        .insert_gate(and_gate(), "twin".into(), &[a, a])
        .unwrap();
    netlist
        .insert_gate(and_gate(), "twin".into(), &[a, a])
        .unwrap();
    match netlist.verify() {
        Err(Error::NonuniqueInsts(names)) => assert_eq!(names, vec!["twin".into()]),
        other => panic!("unexpected result {:?}", other),
    }
}

#[test]
fn repeated_output_names_come_first() {
    let mut netlist: GateNetlist = Netlist::new("order".into());
    let a = netlist.insert_input("a".into());
    let b = netlist.insert_input("b".into());
    netlist
        .insert_gate(and_gate(), "twin".into(), &[a, a])
        .unwrap();
    netlist
        .insert_gate(and_gate(), "twin".into(), &[a, a])
        .unwrap();
    netlist.expose_with_name(a, "y".into());
    netlist.expose_with_name(b, "z".into());
    netlist.expose_with_name(b, "y".into());
    netlist.expose_with_name(a, "y".into());
    let error = netlist.verify().unwrap_err();
    match &error {
        Error::NonuniqueNets(nets) => assert_eq!(nets, &vec!["y".into(), "y".into()]),
        other => panic!("unexpected error {:?}", other),
    }
    assert_eq!(error.message(), "Non-unique nets: [y, y]");
}

#[test]
fn verify_leaves_the_netlist_alone() {
    let mut netlist: GateNetlist = Netlist::new("same".into());
    let a = netlist.insert_input("a".into());
    let inst = netlist
        .insert_gate(and_gate(), "inst_0".into(), &[a, a])
        .unwrap();
    netlist.expose_instance_with_name(inst, "y".into()).unwrap();
    let before = netlist.to_verilog().unwrap();
    assert!(netlist.verify().is_ok());
    assert!(netlist.verify().is_ok());
    assert_eq!(netlist.to_verilog().unwrap(), before);
}

#[test]
fn exposing_an_input_under_its_own_name_needs_an_alias() {
    let mut netlist: GateNetlist = Netlist::new("alias".into());
    let a = netlist.insert_input("a".into());
    let error = netlist.expose_net(a).unwrap_err();
    match &error {
        Error::InputNeedsAlias(net) => assert_eq!(net, &"a".into()),
        other => panic!("unexpected error {:?}", other),
    }
    assert_eq!(
        error.message(),
        "Input net a needs an alias to be an output"
    );
    assert_eq!(netlist.output_count(), 0);
    let inst = netlist
        .insert_gate(and_gate(), "inst_0".into(), &[a, a])
        .unwrap();
    let out = netlist.get_output(inst, 0);
    assert_eq!(netlist.expose_net(out).unwrap(), out);
    assert_eq!(netlist.get_exposed(0).get_name(), &"inst_0_Y".into());
}

#[test]
fn exposing_an_instance_needs_exactly_one_output() {
    let mut netlist: GateNetlist = Netlist::new("ambiguous".into());
    let a = netlist.insert_input("a".into());
    let dup = Gate::new_logical_multi(
        "DUP".into(),
        vec!["I".into()],
        vec!["O0".into(), "O1".into()],
    );
    let inst = netlist.insert_gate(dup, "dup".into(), &[a]).unwrap();
    assert!(matches!(
        netlist.expose_instance_with_name(inst, "y".into()),
        Err(Error::ArgumentMismatch(1, 2))
    ));
    assert_eq!(netlist.output_count(), 0);
}

#[test]
fn constants_of_values_that_are_not_definite_are_refused() {
    let mut netlist: GateNetlist = Netlist::new("consts".into());
    for value in [Logic::X, Logic::Z] {
        let error = netlist.insert_constant(value, "c".into()).unwrap_err();
        assert_eq!(
            error.message(),
            format!(
                "Error in the instantiable interface: Instantiable type does not support \
                 constant value {}",
                value.as_str()
            )
        );
    }
    assert_eq!(netlist.slot_count(), 0);
    assert!(netlist.insert_constant(Logic::False, "c".into()).is_ok());
    assert_eq!(netlist.slot_count(), 1);
}

#[test]
fn handles_of_removed_objects_are_found_out() {
    let mut netlist: GateNetlist = Netlist::new("stale".into());
    let a = netlist.insert_input("a".into());
    let gone = netlist
        .insert_gate(and_gate(), "gone".into(), &[a, a])
        .unwrap();
    let gone_out = netlist.get_output(gone, 0);
    netlist.expose_with_name(a, "y".into());
    assert!(netlist.clean());
    assert!(!netlist.is_net(gone_out));
    assert!(!netlist.is_object(gone));
    assert!(!netlist.is_instance(gone));
    match netlist.insert_gate(and_gate(), "next".into(), &[gone_out, a]) {
        Err(Error::DanglingReference(nets)) => assert_eq!(nets, vec!["net_1_0".into()]),
        other => panic!("unexpected result {:?}", other),
    }
    match netlist.insert_gate(and_gate(), "next".into(), &[gone_out]) {
        Err(Error::ArgumentMismatch(2, 1)) => {}
        other => panic!("unexpected result {:?}", other),
    }
    assert_eq!(netlist.slot_count(), 2);
    match netlist.expose_net(gone_out) {
        Err(Error::NetNotFound(net)) => assert_eq!(net, "net_1_0".into()),
        other => panic!("unexpected result {:?}", other),
    }
    assert!(matches!(
        netlist.expose_instance_with_name(gone, "z".into()),
        Err(Error::ArgumentMismatch(1, 0))
    ));
    assert_eq!(netlist.output_count(), 1);
    assert!(netlist.get_instance_type(gone).is_none());
    assert!(netlist.get_instance_name(gone).is_none());
    assert!(netlist.get_instance_type_mut(gone).is_none());
    assert!(netlist.find_input(gone, &"A".into()).is_none());
    assert_eq!(
        Error::DanglingReference(vec!["p".into(), "q".into()]).message(),
        "Attempted to create a dangling reference to nets [p, q]"
    );
    assert_eq!(
        Error::NetNotFound("n".into()).message(),
        "Expected to find net n in netlist"
    );
    assert_eq!(
        Error::NonuniqueInsts(vec!["i".into()]).message(),
        "Non-unique instances: [i]"
    );
}
