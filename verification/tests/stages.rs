use bitvec::vec::BitVec;
use safety_net::attribute::Parameter;
use safety_net::circuit::{Identifier, Instantiable, Net};
use safety_net::logic::Logic;
use safety_net::netlist::Gate;
use safety_net::netlist::Netlist;

fn and_gate() -> Gate {
    Gate::new_logical("AND".into(), vec!["A".into(), "B".into()], "Y".into())
}

fn or_gate() -> Gate {
    Gate::new_logical("OR".into(), vec!["A".into(), "B".into()], "Y".into())
}

fn not_gate() -> Gate {
    Gate::new_logical("NOT".into(), vec!["A".into()], "Y".into())
}

#[test]
fn test_stage_1() {
    let mut netlist = Netlist::new("example".to_string());
    let a = netlist.insert_input("a".into());
    let b = netlist.insert_input("b".into());
    let c = netlist.insert_input("c".into());
    let instance = netlist
        .insert_gate(and_gate(), "inst_0".into(), &[a, b])
        .unwrap();
    let and_out = netlist.get_output(instance, 0);
    let not_instance = netlist
        .insert_gate(not_gate(), "inst_1".into(), &[and_out])
        .unwrap();
    let not_out = netlist.get_output(not_instance, 0);
    let final_instance = netlist
        .insert_gate(or_gate(), "inst_3".into(), &[c, not_out])
        .unwrap();
    netlist
        .expose_instance_with_name(final_instance, "y".into())
        .unwrap();
    netlist
        .expose_instance_with_name(not_instance, "n".into())
        .unwrap();
}

#[test]
fn test_stage_2() {
    let mut netlist = Netlist::new("stage2".into());

    // input
    let a = netlist.insert_input("a".into());

    // not gate
    let n_instance = netlist
        .insert_gate(not_gate(), "inst_0".into(), &[a])
        .unwrap();
    let n_out = netlist.get_output(n_instance, 0);

    // constant 1
    let vdd = netlist
        .insert_constant(Logic::True, "const1".into())
        .unwrap();

    // and gate: (NOT a) & 1
    let and_instance = netlist
        .insert_gate(and_gate(), "inst_1".into(), &[n_out, vdd])
        .unwrap();
    netlist.set_attribute(and_instance, "dont_touch".into());
    // expose output
    netlist
        .expose_instance_with_name(and_instance, "y".into())
        .unwrap();

    // optional: check / print
    assert!(netlist.verify().is_ok());
    println!("{}", netlist.to_verilog().unwrap());
}

#[test]
fn test_stage_3() {
    let mut netlist = Netlist::new("stage3".into());
    let bus = netlist.insert_input_escaped_logic_bus("input_bus".to_string(), 4);
    let bit0 = bus[0];
    let n_instance = netlist
        .insert_gate(not_gate(), "inst_0".into(), &[bit0])
        .unwrap();
    let _n_out = netlist.get_output(n_instance, 0);
    netlist
        .expose_instance_with_name(n_instance, "y".into())
        .unwrap();
    println!("{}", netlist.to_verilog().unwrap());
}

// A lookup table as a cell of its own

#[derive(Debug, Clone)]
struct Lut {
    lookup_table: BitVec,
    id: Identifier,
    inputs: Vec<Net>,
    output: Net,
}

impl Lut {
    fn new(k: usize, lookup_table: usize) -> Self {
        let mut bv: BitVec<usize, _> = BitVec::from_element(lookup_table);
        bv.truncate(1 << k);
        Lut {
            lookup_table: bv,
            id: Identifier::new(format!("LUT{k}")),
            inputs: (0..k)
                .map(|i| Net::new_logic(Identifier::new(format!("I{i}"))))
                .collect(),
            output: Net::new_logic("O".into()),
        }
    }

    fn invert(&mut self) {
        self.lookup_table = !self.lookup_table.clone();
    }

    fn bits(&self) -> Vec<bool> {
        self.lookup_table.iter().map(|bit| *bit).collect()
    }
}

impl Instantiable for Lut {
    fn get_name(&self) -> &Identifier {
        &self.id
    }

    fn get_input_ports(&self) -> Vec<Net> {
        self.inputs.clone()
    }

    fn get_output_ports(&self) -> Vec<Net> {
        vec![self.output.clone()]
    }

    fn has_parameter(&self, id: &Identifier) -> bool {
        *id == Identifier::new("INIT".to_string())
    }

    fn get_parameter(&self, id: &Identifier) -> Option<Parameter> {
        if self.has_parameter(id) {
            Some(Parameter::BitVec(self.bits()))
        } else {
            None
        }
    }

    fn set_parameter(&mut self, id: &Identifier, val: Parameter) -> Option<Parameter> {
        if !self.has_parameter(id) {
            return None;
        }

        let old = Some(Parameter::BitVec(self.bits()));

        if let Parameter::BitVec(bv) = val {
            self.lookup_table = bv.into_iter().collect();
        } else {
            panic!("Invalid parameter type for INIT");
        }

        old
    }

    fn parameters(&self) -> Vec<(Identifier, Parameter)> {
        vec![(
            Identifier::new("INIT".to_string()),
            Parameter::BitVec(self.bits()),
        )]
    }

    fn from_constant(val: Logic) -> Option<Self> {
        match val {
            Logic::True => Some(Self {
                lookup_table: BitVec::from_element(1),
                id: "VDD".into(),
                inputs: vec![],
                output: "Y".into(),
            }),
            Logic::False => Some(Self {
                lookup_table: BitVec::from_element(0),
                id: "GND".into(),
                inputs: vec![],
                output: "Y".into(),
            }),
            _ => None,
        }
    }

    fn get_constant(&self) -> Option<Logic> {
        match self.id.emit_name().as_str() {
            "VDD" => Some(Logic::True),
            "GND" => Some(Logic::False),
            _ => None,
        }
    }

    fn is_seq(&self) -> bool {
        false
    }
}

#[test]
fn test_stage_4() {
    let mut netlist: Netlist<Lut> = Netlist::new("example".to_string());

    // Add the the two inputs
    let a = netlist.insert_input("a".into());
    let b = netlist.insert_input("b".into());
    let instance = netlist
        .insert_gate(Lut::new(2, 7), "inst_0".into(), &[a, b])
        .unwrap();

    // Let's make it an AND gate by inverting the lookup table
    netlist.get_instance_type_mut(instance).unwrap().invert();

    // Make this LUT an output
    netlist
        .expose_instance_with_name(instance, "y".into())
        .unwrap();
    println!("{}", netlist.to_verilog().unwrap());
}

#[test]
fn replace_input_with_constant() {
    let mut netlist = Netlist::new("demo".into());

    // input a, input b
    let a = netlist.insert_input("a".into());
    let b = netlist.insert_input("b".into());

    // AND gate
    let and_inst = netlist
        .insert_gate(and_gate(), "inst_0".into(), &[a, b])
        .unwrap();

    // constant 1
    let vdd = netlist
        .insert_constant(Logic::True, "const1".into())
        .unwrap();

    // The handles are checked when the call is made
    netlist.replace_net_uses_driven(a, &vdd).unwrap();

    netlist
        .expose_instance_with_name(and_inst, "y".into())
        .unwrap();
    assert!(netlist.verify().is_ok());
    println!("{}", netlist.to_verilog().unwrap());
}

#[test]
fn lookup_table_is_changed_in_place() {
    let mut netlist: Netlist<Lut> = Netlist::new("example".to_string());
    let a = netlist.insert_input("a".into());
    let b = netlist.insert_input("b".into());
    let instance = netlist
        .insert_gate(Lut::new(2, 7), "inst_0".into(), &[a, b])
        .unwrap();
    let init: Identifier = "INIT".into();
    let before = netlist
        .get_instance_type(instance)
        .unwrap()
        .get_parameter(&init);
    assert_eq!(
        before,
        Some(Parameter::BitVec(vec![true, true, true, false]))
    );
    netlist.get_instance_type_mut(instance).unwrap().invert();
    let after = netlist
        .get_instance_type(instance)
        .unwrap()
        .get_parameter(&init);
    assert_eq!(
        after,
        Some(Parameter::BitVec(vec![false, false, false, true]))
    );
    assert_eq!(after.unwrap().render(), "4'b1000");
    assert!(netlist.get_instance_type_mut(a_handle(a.object)).is_none());
    assert_eq!(
        netlist.get_instance_name(instance),
        Some(&Identifier::from("inst_0"))
    );
    netlist
        .expose_instance_with_name(instance, "y".into())
        .unwrap();
    assert!(netlist
        .to_verilog()
        .unwrap()
        .contains("  LUT2 inst_0 (\n    .I0(a),\n    .I1(b),\n    .O(inst_0_O)\n  );\n"));
}

fn a_handle(object: usize) -> safety_net::netlist::NetRef {
    safety_net::netlist::NetRef { object }
}

#[test]
fn constant_lookup_tables_are_not_written() {
    let mut netlist: Netlist<Lut> = Netlist::new("consts".to_string());
    let gnd = netlist.insert_constant(Logic::False, "zero".into()).unwrap();
    let lut = netlist
        .insert_gate(Lut::new(1, 1), "buf".into(), &[gnd])
        .unwrap();
    netlist.expose_instance_with_name(lut, "y".into()).unwrap();
    assert_eq!(
        netlist.to_verilog().unwrap(),
        "module consts (\n  y\n);\n  output y;\n  wire y;\n  wire buf_O;\n  LUT1 buf (\n    \
         .I0(1'b0),\n    .O(buf_O)\n  );\n  assign y = buf_O;\nendmodule\n"
    );
}

#[test]
fn parameters_are_written_by_value() {
    assert_eq!(Parameter::Integer(0).render(), "0");
    assert_eq!(Parameter::Integer(1234567890).render(), "1234567890");
    assert_eq!(
        Parameter::Integer(u64::MAX).render(),
        "18446744073709551615"
    );
    assert_eq!(Parameter::BitVec(vec![]).render(), "0'b");
    assert_eq!(
        Parameter::BitVec(vec![true, false, false]).render(),
        "3'b001"
    );
    assert_eq!(Parameter::Logic(Logic::Z).render(), "1'bz");
    assert_eq!(Parameter::from_bool(true), Parameter::Logic(Logic::True));
    assert_ne!(Parameter::Integer(1), Parameter::Logic(Logic::True));
    assert_ne!(
        Parameter::BitVec(vec![true]),
        Parameter::BitVec(vec![true, false])
    );
    assert_eq!(
        Parameter::BitVec(vec![true, false]).clone(),
        Parameter::BitVec(vec![true, false])
    );
}
