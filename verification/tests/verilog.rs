use safety_net::error::Error;
use safety_net::logic;
use safety_net::netlist::{Gate, GateNetlist, Netlist, NetRef};

fn assert_verilog_eq(left: &str, right: &str) {
    let left_lines = left.lines().map(|x| x.trim()).filter(|x| !x.is_empty());
    let right_lines = right.lines().map(|x| x.trim()).filter(|x| !x.is_empty());
    for (left_line, right_line) in left_lines.zip(right_lines) {
        assert_eq!(left_line.trim(), right_line.trim());
    }
}

fn and_gate() -> Gate {
    Gate::new_logical("AND".into(), vec!["A".into(), "B".into()], "Y".into())
}

fn get_simple_example() -> GateNetlist {
    let mut netlist = Netlist::new("example".to_string());

    let a = netlist.insert_input("a".into());
    let b = netlist.insert_input("b".into());

    let instance = netlist
        .insert_gate(and_gate(), "inst_0".into(), &[a, b])
        .unwrap();

    netlist
        .expose_instance_with_name(instance, "y".into())
        .unwrap();

    netlist
}

#[test]
fn min_module() {
    let mut netlist = GateNetlist::new("min_module".to_string());
    let a = netlist.insert_input("a".into());
    netlist.expose_with_name(a, "y".into());
    assert!(netlist.verify().is_ok());
    assert_verilog_eq(
        &netlist.to_verilog().unwrap(),
        "module min_module (
           a,
           y
         );
           input a;
           wire a;
           output y;
           wire y;
           assign y = a;
         endmodule\n",
    );
}

#[test]
fn test_netlist_first() {
    let mut netlist = GateNetlist::new("min_module".to_string());
    let a = netlist.insert_input("a".into());
    netlist.expose_with_name(a, "y".into());
    let a_too = netlist.last().unwrap();
    let also_a = netlist.first().unwrap();
    assert_eq!(a_too, also_a);
    assert_eq!(NetRef { object: a.object }, also_a);
}

#[test]
fn test_netlist_find() {
    let mut netlist = GateNetlist::new("min_module".to_string());
    let a = netlist.insert_input("a".into());
    netlist.expose_with_name(a, "y".into());
    assert!(netlist.find_net(&"a".into()).is_some());
    assert!(netlist.find_net(&"b".into()).is_none());
}

#[test]
fn simple_gate_module() {
    let netlist = get_simple_example();
    assert!(netlist.verify().is_ok());
    assert_verilog_eq(
        &netlist.to_verilog().unwrap(),
        "module example (
           a,
           b,
           y
         );
           input a;
           wire a;
           input b;
           wire b;
           output y;
           wire y;
           wire inst_0_Y;
           AND inst_0 (
             .A(a),
             .B(b),
             .Y(inst_0_Y)
           );
           assign y = inst_0_Y;
         endmodule\n",
    );
}

#[test]
fn dont_touch_gate() {
    let mut netlist = get_simple_example();
    assert!(netlist.verify().is_ok());
    let gate = netlist.last().unwrap();
    netlist.set_attribute(gate, "dont_touch".to_string());
    assert_verilog_eq(
        &netlist.to_verilog().unwrap(),
        "module example (
           a,
           b,
           y
         );
           input a;
           wire a;
           input b;
           wire b;
           output y;
           wire y;
           wire inst_0_Y;
           (* dont_touch *)
           AND inst_0 (
             .A(a),
             .B(b),
             .Y(inst_0_Y)
           );
           assign y = inst_0_Y;
         endmodule\n",
    );
}

#[test]
fn simple_gate_attribute() {
    let mut netlist = get_simple_example();
    assert!(netlist.verify().is_ok());
    let gate = netlist.last().unwrap();
    netlist.insert_attribute(gate, "dont_touch".to_string(), "true".to_string());
    netlist.clear_attribute(gate, &"dont_touch".to_string());
    assert_verilog_eq(
        &netlist.to_verilog().unwrap(),
        "module example (
           a,
           b,
           y
         );
           input a;
           wire a;
           input b;
           wire b;
           output y;
           wire y;
           wire inst_0_Y;
           AND inst_0 (
             .A(a),
             .B(b),
             .Y(inst_0_Y)
           );
           assign y = inst_0_Y;
         endmodule\n",
    );
}

#[test]
fn constant_output() {
    let mut netlist: GateNetlist = Netlist::new("top".to_string());
    let vdd = netlist.insert_constant(logic::Logic::True, "unemitted".into());
    assert!(vdd.is_ok());
    let vdd = vdd.unwrap();
    netlist.expose_with_name(vdd, "y".into());
    assert_verilog_eq(
        &netlist.to_verilog().unwrap(),
        "module top (
           y
         );
           output y;
           wire y;
           assign y = 1'b1;
         endmodule\n",
    );
}

#[test]
fn constant_driver() {
    let mut netlist: GateNetlist = Netlist::new("top".to_string());
    let vdd = netlist.insert_constant(logic::Logic::True, "unemitted".into());
    assert!(vdd.is_ok());
    let vdd = vdd.unwrap();
    let not_gate = Gate::new_logical("NOT".into(), vec!["A".into()], "Y".into());
    let gnd = netlist.insert_gate(not_gate, "inst_0".into(), &[vdd]);
    assert!(gnd.is_ok());
    let gnd = gnd.unwrap();
    netlist.expose_instance_with_name(gnd, "y".into()).unwrap();
    assert_verilog_eq(
        &netlist.to_verilog().unwrap(),
        "module top (
           y
         );
           output y;
           wire y;
           wire inst_0_Y;
           NOT inst_0 (
             .A(1'b1),
             .Y(inst_0_Y)
           );
           assign y = inst_0_Y;\n",
    );
}

#[test]
fn exact_text_of_the_simple_example() {
    let netlist = get_simple_example();
    assert_eq!(
        netlist.to_verilog().unwrap(),
        "module example (\n  a,\n  b,\n  y\n);\n  input a;\n  wire a;\n  input b;\n  wire b;\n  \
         output y;\n  wire y;\n  wire inst_0_Y;\n  AND inst_0 (\n    .A(a),\n    .B(b),\n    \
         .Y(inst_0_Y)\n  );\n  assign y = inst_0_Y;\nendmodule\n"
    );
}

#[test]
fn exact_text_of_a_constant_output() {
    let mut netlist: GateNetlist = Netlist::new("top".to_string());
    let gnd = netlist
        .insert_constant(logic::Logic::False, "low".into())
        .unwrap();
    netlist.expose_with_name(gnd, "y".into());
    assert_eq!(
        netlist.to_verilog().unwrap(),
        "module top (\n  y\n);\n  output y;\n  wire y;\n  assign y = 1'b0;\nendmodule\n"
    );
}

#[test]
fn empty_module() {
    let netlist: GateNetlist = Netlist::new("nothing".to_string());
    assert_eq!(
        netlist.to_verilog().unwrap(),
        "module nothing (\n);\nendmodule\n"
    );
}

#[test]
fn attributes_are_written_before_their_instance() {
    let mut netlist = get_simple_example();
    let gate = netlist.last().unwrap();
    let plain = netlist.to_verilog().unwrap();
    netlist.set_attribute(gate, "dont_touch".to_string());
    netlist.insert_attribute(gate, "loc".to_string(), "X0Y0".to_string());
    let text = netlist.to_verilog().unwrap();
    assert_eq!(text.matches("(* dont_touch *)").count(), 1);
    assert!(text.contains("  (* dont_touch *)\n  (* loc = X0Y0 *)\n  AND inst_0 (\n"));
    let previous = netlist.clear_attribute(gate, &"loc".to_string());
    assert_eq!(previous, Some(Some("X0Y0".to_string())));
    let previous = netlist.clear_attribute(gate, &"dont_touch".to_string());
    assert_eq!(previous, Some(None));
    assert_eq!(netlist.clear_attribute(gate, &"dont_touch".to_string()), None);
    assert_eq!(netlist.to_verilog().unwrap(), plain);
}

#[test]
fn attribute_value_is_replaced_in_place() {
    let mut netlist = get_simple_example();
    let gate = netlist.last().unwrap();
    assert_eq!(
        netlist.insert_attribute(gate, "a".to_string(), "1".to_string()),
        None
    );
    netlist.set_attribute(gate, "b".to_string());
    assert_eq!(
        netlist.insert_attribute(gate, "a".to_string(), "2".to_string()),
        Some(Some("1".to_string()))
    );
    let text = netlist.to_verilog().unwrap();
    assert!(text.contains("  (* a = 2 *)\n  (* b *)\n  AND inst_0 (\n"));
}

#[test]
fn undriven_port_is_an_emission_error() {
    let mut netlist: GateNetlist = Netlist::new("staged".to_string());
    let a = netlist.insert_input("a".into());
    let gate = netlist.insert_gate_disconnected(and_gate(), "inst_0".into());
    netlist.expose_instance_with_name(gate, "y".into()).unwrap();
    match netlist.to_verilog() {
        Err(Error::NetNotFound(port)) => assert_eq!(port, "A".into()),
        other => panic!("unexpected result {:?}", other),
    }
    let port_a = netlist.find_input(gate, &"A".into()).unwrap();
    netlist.connect(port_a, a);
    match netlist.to_verilog() {
        Err(Error::NetNotFound(port)) => assert_eq!(port, "B".into()),
        other => panic!("unexpected result {:?}", other),
    }
    let port_b = netlist.get_input(gate, 1);
    netlist.connect(port_b, a);
    assert!(netlist.to_verilog().unwrap().contains("    .B(a),\n"));
}

#[test]
fn escaped_bus_inputs_are_written_with_the_marker() {
    let mut netlist: GateNetlist = Netlist::new("bus".to_string());
    let bits = netlist.insert_input_escaped_logic_bus("d".to_string(), 2);
    assert_eq!(bits.len(), 2);
    netlist.expose_with_name(bits[1], "y".into());
    assert_eq!(
        netlist.to_verilog().unwrap(),
        "module bus (\n  \\d[0],\n  \\d[1],\n  y\n);\n  input \\d[0];\n  wire \\d[0];\n  input \
         \\d[1];\n  wire \\d[1];\n  output y;\n  wire y;\n  assign y = \\d[1];\nendmodule\n"
    );
}
