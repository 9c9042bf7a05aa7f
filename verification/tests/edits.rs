use safety_net::error::Error;
use safety_net::netlist::{DrivenNet, Gate, GateNetlist, Netlist, NetRef};

fn check_verilog_eq(left: &str, right: &str) {
    let left_lines = left.lines().map(|x| x.trim()).filter(|x| !x.is_empty());
    let right_lines = right.lines().map(|x| x.trim()).filter(|x| !x.is_empty());
    for (left_line, right_line) in left_lines.zip(right_lines) {
        assert_eq!(left_line.trim(), right_line.trim());
    }
}

fn and_gate() -> Gate {
    Gate::new_logical("AND".into(), vec!["A".into(), "B".into()], "Y".into())
}

fn or_gate() -> Gate {
    Gate::new_logical("OR".into(), vec!["A".into(), "B".into()], "Y".into())
}

fn two_out_gate() -> Gate {
    Gate::new_logical_multi(
        "DUP".into(),
        vec!["I".into()],
        vec!["O0".into(), "O1".into()],
    )
}

fn get_simple_example() -> GateNetlist {
    let mut netlist = Netlist::new("example".to_string());

    let a = netlist.insert_input("a".into());
    let b = netlist.insert_input("b".into());

    let instance = netlist
        .insert_gate(and_gate(), "inst_0".into(), &[a, b])
        .unwrap();

    netlist
        .expose_instance_with_name(instance, "y".into())
        .unwrap();

    netlist
}

#[test]
fn test_clean() {
    let mut netlist = get_simple_example();
    assert!(netlist.verify().is_ok());
    assert!(!netlist.clean());
    let inputs: Vec<_> = netlist.inputs();
    assert_eq!(inputs.len(), 2);
    let _new_cell = netlist
        .insert_gate(and_gate(), "inst_1".into(), &inputs)
        .unwrap();
    assert!(netlist.verify().is_ok());
    assert_eq!(netlist.objects().len(), 4);
    assert!(netlist.clean());
    assert_eq!(netlist.objects().len(), 3);
    assert!(!netlist.clean());
}

#[test]
fn test_replace() {
    let mut netlist = get_simple_example();
    let input = netlist.inputs()[0];
    let inverter = Gate::new_logical("INV".into(), vec!["I".into()], "O".into());
    let inverted = netlist
        .insert_gate(inverter, "inst_0".into(), std::slice::from_ref(&input))
        .unwrap();
    let inverted_out = netlist.get_output(inverted, 0);
    assert!(netlist.replace_net_uses(input, &inverted_out).is_ok());
    check_verilog_eq(
        &netlist.to_verilog().unwrap(),
        "module example (
           a,
           b,
           y
         );
           input a;
           wire a;
           input b;
           wire b;
           output y;
           wire y;
           wire inst_0_Y;
           wire inst_0_O;
           AND inst_0 (
             .A(inst_0_O),
             .B(b),
             .Y(inst_0_Y)
           );
           INV inst_0 (
             .I(inst_0_O),
             .O(inst_0_O)
           );
           assign y = inst_0_Y;
         endmodule\n",
    );
}

#[test]
fn test_replace2() {
    let mut netlist = get_simple_example();
    let input = netlist.inputs()[0];
    let inverter = Gate::new_logical("INV".into(), vec!["I".into()], "O".into());
    let inverted = netlist.insert_gate_disconnected(inverter, "inst_0".into());
    let inverted_out = netlist.get_output(inverted, 0);
    assert!(netlist.replace_net_uses(input, &inverted_out).is_err());
    let port = netlist.find_input(inverted, &"I".into()).unwrap();
    netlist.connect(port, input);
    check_verilog_eq(
        &netlist.to_verilog().unwrap(),
        "module example (
           a,
           b,
           y
         );
           input a;
           wire a;
           input b;
           wire b;
           output y;
           wire y;
           wire inst_0_Y;
           wire inst_0_O;
           AND inst_0 (
             .A(a),
             .B(b),
             .Y(inst_0_Y)
           );
           INV inst_0 (
             .I(a),
             .O(inst_0_O)
           );
           assign y = inst_0_Y;
         endmodule\n",
    );
}

#[test]
fn test_replace_single_single() {
    let mut netlist: GateNetlist = Netlist::new("example".into());
    let a = netlist.insert_input("a".into());
    let b = netlist.insert_input("b".into());
    let and_inst = netlist
        .insert_gate(and_gate(), "and_0".into(), &[a, b])
        .unwrap();
    let and_out = netlist.get_output(and_inst, 0);
    let or_inst = netlist
        .insert_gate(or_gate(), "or_0".into(), &[a, and_out])
        .unwrap();
    let or_out = netlist.get_output(or_inst, 0);
    assert!(netlist.replace_net_uses(and_out, &or_out).is_ok());
    netlist.expose_with_name(or_out, "y".into());
    assert!(netlist.verify().is_ok());
    check_verilog_eq(
        &netlist.to_verilog().unwrap(),
        "module example (
            a,
            b,
            y
          );
            input a;
            wire a;
            input b;
            wire b;
            output y;
            wire y;
            wire and_0_Y;
            wire or_0_Y;
            AND and_0 (
              .A(a),
              .B(b),
              .Y(and_0_Y)
            );
            OR or_0 (
              .A(a),
              .B(or_0_Y),
              .Y(or_0_Y)
            );
            assign y = or_0_Y;
          endmodule",
    );
}

#[test]
fn test_replace_single_multiple() {
    let mut netlist: GateNetlist = Netlist::new("example".into());
    let a = netlist.insert_input("a".into());
    let b = netlist.insert_input("b".into());

    let and_inst = netlist
        .insert_gate(and_gate(), "and_0".into(), &[a, b])
        .unwrap();

    let dup = netlist
        .insert_gate(two_out_gate(), "dup0".into(), &[a])
        .unwrap();

    let dup_out1 = netlist.get_output(dup, 1);
    netlist.expose_with_name(dup_out1, "y".into());

    let and_out = netlist.get_output(and_inst, 0);
    netlist.replace_net_uses(dup_out1, &and_out).unwrap();
    assert!(netlist.verify().is_ok());
    check_verilog_eq(
        &netlist.to_verilog().unwrap(),
        "module example (
          a,
          b,
          y
        );
          input a;
          wire a;
          input b;
          wire b;
          output y;
          wire y;
          wire and_0_Y;
          wire dup0_O0;
          wire dup0_O1;
          AND and_0 (
            .A(a),
            .B(b),
            .Y(and_0_Y)
          );
          DUP dup0 (
            .I(a),
            .O0(dup0_O0),
            .O1(dup0_O1)
          );
          assign y = and_0_Y;
        endmodule",
    );
}

#[test]
fn test_replace_multiple_single() {
    let mut netlist: GateNetlist = Netlist::new("example".into());
    let a = netlist.insert_input("a".into());
    let b = netlist.insert_input("b".into());

    let and_inst = netlist
        .insert_gate(and_gate(), "and_0".into(), &[a, b])
        .unwrap();

    let dup = netlist
        .insert_gate(two_out_gate(), "dup0".into(), &[a])
        .unwrap();

    let and_out = netlist.get_output(and_inst, 0);
    netlist.expose_with_name(and_out, "y".into());

    let dup_out0 = netlist.get_output(dup, 0);
    netlist.replace_net_uses(and_out, &dup_out0).unwrap();
    assert!(netlist.verify().is_ok());
    check_verilog_eq(
        &netlist.to_verilog().unwrap(),
        "module example (
          a,
          b,
          y
          );
          input a;
          wire a;
          input b;
          wire b;
          output y;
          wire y;
          wire and_0_Y;
          wire dup0_O0;
          wire dup0_O1;
          AND and_0 (
            .A(a),
            .B(b),
            .Y(and_0_Y)
          );
          DUP dup0 (
            .I(a),
            .O0(dup0_O0),
            .O1(dup0_O1)
          );
          assign y = dup0_O0;
        endmodule",
    );
}

#[test]
fn test_replace_multiple_multiple() {
    let mut netlist: GateNetlist = Netlist::new("example".into());
    let a = netlist.insert_input("a".into());

    let dup2 = netlist
        .insert_gate(two_out_gate(), "dup2".into(), &[a])
        .unwrap();

    let dup2_out1 = netlist.get_output(dup2, 1);
    netlist.expose_with_name(dup2_out1, "y".into());
    let dup2_out0 = netlist.get_output(dup2, 0);

    netlist.replace_net_uses(dup2_out1, &dup2_out0).unwrap();
    assert!(netlist.verify().is_ok());
    check_verilog_eq(
        &netlist.to_verilog().unwrap(),
        "module example (
            a,
            y
            );
            input a;
            wire a;
            output y;
            wire y;
            wire dup2_O0;
            wire dup2_O1;
            DUP dup2 (
              .I(a),
              .O0(dup2_O0),
              .O1(dup2_O1)
            );
            assign y = dup2_O0;
          endmodule",
    );
}

#[test]
fn arity_is_checked_before_anything_is_inserted() {
    let mut netlist: GateNetlist = Netlist::new("arity".into());
    let a = netlist.insert_input("a".into());
    let b = netlist.insert_input("b".into());
    for operands in [vec![], vec![a], vec![a, b, a]] {
        match netlist.insert_gate(and_gate(), "inst".into(), &operands) {
            Err(Error::ArgumentMismatch(expected, got)) => {
                assert_eq!(expected, 2);
                assert_eq!(got, operands.len());
            }
            other => panic!("unexpected result {:?}", other),
        }
        assert_eq!(netlist.objects().len(), 2);
        assert_eq!(netlist.slot_count(), 2);
    }
    let inst = netlist.insert_gate(and_gate(), "inst".into(), &[a, b]);
    assert_eq!(inst.unwrap(), NetRef { object: 2 });
    assert_eq!(
        Error::ArgumentMismatch(2, 3).message(),
        "Expected 2 arguments, got 3"
    );
}

#[test]
fn clean_keeps_inputs_and_what_outputs_depend_on() {
    let mut netlist: GateNetlist = Netlist::new("chain".into());
    let a = netlist.insert_input("a".into());
    let unused = netlist.insert_input("unused".into());
    let first = netlist
        .insert_gate(and_gate(), "first".into(), &[a, a])
        .unwrap();
    let first_out = netlist.get_output(first, 0);
    let second = netlist
        .insert_gate(or_gate(), "second".into(), &[first_out, a])
        .unwrap();
    let second_out = netlist.get_output(second, 0);
    let dead = netlist
        .insert_gate(or_gate(), "dead".into(), &[second_out, unused])
        .unwrap();
    let dead_out = netlist.get_output(dead, 0);
    let deader = netlist
        .insert_gate(and_gate(), "deader".into(), &[dead_out, dead_out])
        .unwrap();
    netlist.expose_with_name(second_out, "y".into());
    assert!(netlist.clean());
    assert_eq!(
        netlist.objects(),
        vec![
            NetRef { object: 0 },
            NetRef { object: 1 },
            NetRef { object: 2 },
            NetRef { object: 3 }
        ]
    );
    assert!(!netlist.is_object(dead));
    assert!(!netlist.is_object(deader));
    assert!(!netlist.is_net(dead_out));
    assert!(netlist.is_net(second_out));
    assert!(netlist.is_net(unused));
    assert_eq!(netlist.slot_count(), 6);
    assert!(!netlist.clean());
    assert_eq!(netlist.inputs(), vec![a, unused]);
    assert!(netlist.verify().is_ok());
}

#[test]
fn clean_removes_a_loop_that_no_output_depends_on() {
    let mut netlist: GateNetlist = Netlist::new("latch".into());
    let a = netlist.insert_input("a".into());
    let left = netlist.insert_gate_disconnected(and_gate(), "left".into());
    let right = netlist.insert_gate_disconnected(and_gate(), "right".into());
    let left_out = netlist.get_output(left, 0);
    let right_out = netlist.get_output(right, 0);
    let port = netlist.get_input(left, 0);
    netlist.connect(port, a);
    let port = netlist.get_input(left, 1);
    netlist.connect(port, right_out);
    let port = netlist.get_input(right, 0);
    netlist.connect(port, a);
    let port = netlist.get_input(right, 1);
    netlist.connect(port, left_out);
    netlist.expose_with_name(a, "y".into());
    assert!(netlist.clean());
    assert_eq!(netlist.objects(), vec![NetRef { object: 0 }]);
    assert!(!netlist.clean());
}

#[test]
fn clean_without_outputs_removes_every_instance() {
    let mut netlist: GateNetlist = Netlist::new("none".into());
    let a = netlist.insert_input("a".into());
    netlist
        .insert_gate(and_gate(), "inst".into(), &[a, a])
        .unwrap();
    assert!(netlist.clean());
    assert_eq!(netlist.objects(), vec![NetRef { object: 0 }]);
    assert!(!netlist.clean());
}

#[test]
fn replacement_moves_every_use_and_clean_removes_the_old_driver() {
    let mut netlist: GateNetlist = Netlist::new("fanout".into());
    let a = netlist.insert_input("a".into());
    let b = netlist.insert_input("b".into());
    let x_inst = netlist
        .insert_gate(and_gate(), "x".into(), &[a, b])
        .unwrap();
    let x = netlist.get_output(x_inst, 0);
    let y_inst = netlist.insert_gate(or_gate(), "y".into(), &[a, b]).unwrap();
    let y = netlist.get_output(y_inst, 0);
    let user0 = netlist
        .insert_gate(and_gate(), "u0".into(), &[x, x])
        .unwrap();
    let user1 = netlist.insert_gate(or_gate(), "u1".into(), &[b, x]).unwrap();
    let out0 = netlist.get_output(user0, 0);
    let out1 = netlist.get_output(user1, 0);
    netlist.expose_with_name(out0, "o0".into());
    netlist.expose_with_name(out1, "o1".into());
    netlist.expose_with_name(x, "o2".into());
    netlist.replace_net_uses(x, &y).unwrap();
    for (instance, expected) in [(user0, [y, y]), (user1, [b, y])] {
        for (index, net) in expected.iter().enumerate() {
            let port = netlist.get_input(instance, index);
            assert_eq!(netlist.get_driver(port), Some(*net));
        }
    }
    assert_eq!(netlist.get_exposed(2).get_driver(), y);
    assert!(netlist.is_object(x_inst));
    assert!(netlist.clean());
    assert!(!netlist.is_object(x_inst));
    assert!(netlist.is_object(y_inst));
    assert!(!netlist.clean());
}

#[test]
fn replacement_leaves_a_driver_with_other_uses() {
    let mut netlist: GateNetlist = Netlist::new("fanout".into());
    let a = netlist.insert_input("a".into());
    let dup = netlist
        .insert_gate(two_out_gate(), "dup".into(), &[a])
        .unwrap();
    let first = netlist.get_output(dup, 0);
    let second = netlist.get_output(dup, 1);
    netlist.expose_with_name(first, "p".into());
    netlist.expose_with_name(second, "q".into());
    netlist.replace_net_uses(first, &a).unwrap();
    assert_eq!(netlist.get_exposed(0).get_driver(), a);
    assert_eq!(netlist.get_exposed(1).get_driver(), second);
    assert!(!netlist.clean());
    assert!(netlist.is_object(dup));
}

#[test]
fn replacement_by_a_signal_that_is_not_driven_changes_nothing() {
    let mut netlist: GateNetlist = Netlist::new("staged".into());
    let a = netlist.insert_input("a".into());
    let staged = netlist.insert_gate_disconnected(and_gate(), "staged".into());
    let staged_out = netlist.get_output(staged, 0);
    netlist.expose_with_name(a, "y".into());
    let port = netlist.get_input(staged, 1);
    netlist.connect(port, a);
    match netlist.replace_net_uses(a, &staged_out) {
        Err(Error::DanglingReference(ports)) => assert_eq!(ports, vec!["A".into()]),
        other => panic!("unexpected result {:?}", other),
    }
    assert_eq!(netlist.get_exposed(0).get_driver(), a);
    assert_eq!(netlist.get_driver(port), Some(a));
    assert_eq!(netlist.disconnect(port), Some(a));
    assert_eq!(netlist.get_driver(port), None);
}

#[test]
fn checked_replacement_reports_handles_that_name_nothing() {
    let mut netlist: GateNetlist = Netlist::new("checked".into());
    let a = netlist.insert_input("a".into());
    let gone = netlist
        .insert_gate(and_gate(), "gone".into(), &[a, a])
        .unwrap();
    let gone_out = netlist.get_output(gone, 0);
    netlist.expose_with_name(a, "y".into());
    assert!(netlist.clean());
    match netlist.replace_net_uses_driven(gone_out, &a) {
        Err(Error::NetNotFound(net)) => assert_eq!(net, "net_1_0".into()),
        other => panic!("unexpected result {:?}", other),
    }
    let nowhere = DrivenNet { object: 7, port: 3 };
    match netlist.replace_net_uses_driven(a, &nowhere) {
        Err(Error::NetNotFound(net)) => assert_eq!(net, "net_7_3".into()),
        other => panic!("unexpected result {:?}", other),
    }
    assert!(netlist.replace_net_uses_driven(a, &a).is_ok());
    assert_eq!(netlist.get_exposed(0).get_driver(), a);
}
