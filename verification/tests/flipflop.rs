use bitvec::vec::BitVec;
use safety_net::{
    attribute::Parameter,
    circuit::{Identifier, Instantiable, Net},
    error::Error,
    logic::Logic,
    netlist::{Gate, NetRef, Netlist},
};
use std::str::FromStr;

#[derive(Debug, Clone)]
struct Lut {
    lookup_table: BitVec,
    id: Identifier,
    inputs: Vec<Net>,
    output: Net,
}

impl Lut {
    fn new(k: usize, lookup_table: usize) -> Self {
        let mut bv: BitVec<usize, _> = BitVec::from_element(lookup_table);
        bv.truncate(1 << k);
        Lut {
            lookup_table: bv,
            id: Identifier::new(format!("LUT{k}")),
            inputs: (0..k)
                .map(|i| Net::new_logic(Identifier::new(format!("I{i}"))))
                .collect(),
            output: Net::new_logic("O".into()),
        }
    }

    fn bits(&self) -> Vec<bool> {
        self.lookup_table.iter().map(|bit| *bit).collect()
    }
}

impl Instantiable for Lut {
    fn get_name(&self) -> &Identifier {
        &self.id
    }

    fn get_input_ports(&self) -> Vec<Net> {
        self.inputs.clone()
    }

    fn get_output_ports(&self) -> Vec<Net> {
        vec![self.output.clone()]
    }

    fn has_parameter(&self, id: &Identifier) -> bool {
        *id == Identifier::new("INIT".to_string())
    }

    fn get_parameter(&self, id: &Identifier) -> Option<Parameter> {
        if self.has_parameter(id) {
            Some(Parameter::BitVec(self.bits()))
        } else {
            None
        }
    }

    fn set_parameter(&mut self, id: &Identifier, val: Parameter) -> Option<Parameter> {
        if !self.has_parameter(id) {
            return None;
        }

        let old = Some(Parameter::BitVec(self.bits()));

        if let Parameter::BitVec(bv) = val {
            self.lookup_table = bv.into_iter().collect();
        } else {
            panic!("Invalid parameter type for INIT");
        }

        old
    }

    fn parameters(&self) -> Vec<(Identifier, Parameter)> {
        vec![(
            Identifier::new("INIT".to_string()),
            Parameter::BitVec(self.bits()),
        )]
    }

    fn from_constant(val: Logic) -> Option<Self> {
        match val {
            Logic::True => Some(Self {
                lookup_table: BitVec::from_element(1),
                id: "VDD".into(),
                inputs: vec![],
                output: "Y".into(),
            }),
            Logic::False => Some(Self {
                lookup_table: BitVec::from_element(0),
                id: "GND".into(),
                inputs: vec![],
                output: "Y".into(),
            }),
            _ => None,
        }
    }

    fn get_constant(&self) -> Option<Logic> {
        match self.id.emit_name().as_str() {
            "VDD" => Some(Logic::True),
            "GND" => Some(Logic::False),
            _ => None,
        }
    }

    fn is_seq(&self) -> bool {
        false
    }
}

#[derive(Debug, Clone, PartialEq, Eq, Copy)]
enum FlopVariant {
    Fdre,
    Fdse,
    Fdpe,
    #[allow(dead_code)]
    Fdce,
}

#[derive(Debug, Clone)]
/// A flip-flop in a digital circuit
struct FlipFlop {
    id: Identifier,
    variant: FlopVariant,
    init_value: Logic,
    q: Net,
    c: Net,
    ce: Net,
    reset: Net,
    d: Net,
}

impl FlipFlop {
    fn new(id: Identifier, variant: FlopVariant, init_value: Logic) -> Self {
        let q = Net::new_logic("Q".into());
        let c = Net::new_logic("C".into());
        let ce = Net::new_logic("CE".into());
        let reset = Net::new_logic(match variant {
            FlopVariant::Fdre => "R".into(),
            FlopVariant::Fdse => "S".into(),
            FlopVariant::Fdpe => "PRE".into(),
            FlopVariant::Fdce => "CLR".into(),
        });
        let d = Net::new_logic("D".into());
        FlipFlop {
            id,
            variant,
            init_value,
            q,
            c,
            ce,
            reset,
            d,
        }
    }

    fn get_variant(&self) -> FlopVariant {
        self.variant
    }
}

impl Instantiable for FlipFlop {
    fn get_name(&self) -> &Identifier {
        &self.id
    }

    fn get_input_ports(&self) -> Vec<Net> {
        vec![
            self.c.clone(),
            self.ce.clone(),
            self.reset.clone(),
            self.d.clone(),
        ]
    }

    fn get_output_ports(&self) -> Vec<Net> {
        vec![self.q.clone()]
    }

    fn has_parameter(&self, id: &Identifier) -> bool {
        *id == Identifier::new("INIT".to_string())
    }

    fn get_parameter(&self, id: &Identifier) -> Option<Parameter> {
        if self.has_parameter(id) {
            Some(Parameter::Logic(self.init_value))
        } else {
            None
        }
    }

    fn set_parameter(&mut self, id: &Identifier, val: Parameter) -> Option<Parameter> {
        if !self.has_parameter(id) {
            return None;
        }

        let old = Some(Parameter::Logic(self.init_value));

        if let Parameter::Logic(l) = val {
            self.init_value = l;
        } else {
            panic!("Invalid type for INIT parameter: {}", val.render());
        }

        old
    }

    fn parameters(&self) -> Vec<(Identifier, Parameter)> {
        vec![(
            Identifier::new("INIT".to_string()),
            Parameter::Logic(self.init_value),
        )]
    }

    fn from_constant(_val: Logic) -> Option<Self> {
        None
    }

    fn get_constant(&self) -> Option<Logic> {
        None
    }

    fn is_seq(&self) -> bool {
        true
    }
}

#[derive(Debug, Clone)]
enum Cell {
    Lut(Lut),
    FlipFlop(FlipFlop),
    Gate(Gate),
}

impl Instantiable for Cell {
    fn get_name(&self) -> &Identifier {
        match self {
            Cell::Lut(lut) => lut.get_name(),
            Cell::FlipFlop(ff) => ff.get_name(),
            Cell::Gate(gate) => gate.get_name(),
        }
    }

    fn get_input_ports(&self) -> Vec<Net> {
        match self {
            Cell::Lut(lut) => lut.get_input_ports(),
            Cell::FlipFlop(ff) => ff.get_input_ports(),
            Cell::Gate(gate) => gate.get_input_ports(),
        }
    }

    fn get_output_ports(&self) -> Vec<Net> {
        match self {
            Cell::Lut(lut) => lut.get_output_ports(),
            Cell::FlipFlop(ff) => ff.get_output_ports(),
            Cell::Gate(gate) => gate.get_output_ports(),
        }
    }

    fn has_parameter(&self, id: &Identifier) -> bool {
        match self {
            Cell::Lut(lut) => lut.has_parameter(id),
            Cell::FlipFlop(ff) => ff.has_parameter(id),
            Cell::Gate(gate) => gate.has_parameter(id),
        }
    }

    fn get_parameter(&self, id: &Identifier) -> Option<Parameter> {
        match self {
            Cell::Lut(lut) => lut.get_parameter(id),
            Cell::FlipFlop(ff) => ff.get_parameter(id),
            Cell::Gate(gate) => gate.get_parameter(id),
        }
    }

    fn set_parameter(&mut self, id: &Identifier, val: Parameter) -> Option<Parameter> {
        match self {
            Cell::Lut(lut) => lut.set_parameter(id, val),
            Cell::FlipFlop(ff) => ff.set_parameter(id, val),
            Cell::Gate(gate) => gate.set_parameter(id, val),
        }
    }

    fn parameters(&self) -> Vec<(Identifier, Parameter)> {
        match self {
            Cell::Lut(lut) => lut.parameters(),
            Cell::FlipFlop(ff) => ff.parameters(),
            Cell::Gate(gate) => gate.parameters(),
        }
    }

    fn from_constant(val: Logic) -> Option<Self> {
        if (val == Logic::True) || (val == Logic::False) {
            Lut::from_constant(val).map(Cell::Lut)
        } else {
            None
        }
    }

    fn get_constant(&self) -> Option<Logic> {
        match self {
            Cell::Lut(lut) => lut.get_constant(),
            Cell::FlipFlop(ff) => ff.get_constant(),
            Cell::Gate(gate) => gate.get_constant(),
        }
    }

    fn is_seq(&self) -> bool {
        match self {
            Cell::Lut(lut) => lut.is_seq(),
            Cell::FlipFlop(ff) => ff.is_seq(),
            Cell::Gate(gate) => gate.is_seq(),
        }
    }
}

#[test]
fn cell_test() {
    let lut = Lut::new(4, 0xAAAA);
    let ff = FlipFlop::new(
        "flipflop".into(),
        FlopVariant::Fdse,
        Logic::from_str("1'b0").unwrap(),
    );
    let gate = Gate::new_logical("AND".into(), vec!["A".into(), "B".into()], "Y".into());
    let mut cell_lut = Cell::Lut(lut.clone());
    let mut cell_ff = Cell::FlipFlop(ff.clone());
    let cell_gate = Cell::Gate(gate.clone());

    // get_name tests
    assert_eq!(lut.get_name(), cell_lut.get_name());
    assert_eq!(ff.get_name(), cell_ff.get_name());
    assert_eq!(gate.get_name(), cell_gate.get_name());

    // get_input_ports and get_output_ports tests
    let cell_lut_inputs: Vec<_> = cell_lut.get_input_ports().into_iter().collect();
    let lut_inputs: Vec<_> = lut.get_input_ports().into_iter().collect();
    assert_eq!(cell_lut_inputs, lut_inputs);
    let cell_lut_outputs: Vec<_> = cell_lut.get_output_ports().into_iter().collect();
    let lut_outputs: Vec<_> = lut.get_output_ports().into_iter().collect();
    assert_eq!(cell_lut_outputs, lut_outputs);
    let cell_ff_inputs: Vec<_> = cell_ff.get_input_ports().into_iter().collect();
    let ff_inputs: Vec<_> = ff.get_input_ports().into_iter().collect();
    assert_eq!(cell_ff_inputs, ff_inputs);
    let cell_ff_outputs: Vec<_> = cell_ff.get_output_ports().into_iter().collect();
    let ff_outputs: Vec<_> = ff.get_output_ports().into_iter().collect();
    assert_eq!(cell_ff_outputs, ff_outputs);
    let cell_gate_inputs: Vec<_> = cell_gate.get_input_ports().into_iter().collect();
    let gate_inputs: Vec<_> = gate.get_input_ports().into_iter().collect();
    assert_eq!(cell_gate_inputs, gate_inputs);
    let cell_gate_outputs: Vec<_> = cell_gate.get_output_ports().into_iter().collect();
    let gate_outputs: Vec<_> = gate.get_output_ports().into_iter().collect();
    assert_eq!(cell_gate_outputs, gate_outputs);

    // get_parameter and set_parameter tests
    let new_bv: BitVec = BitVec::from_element(0x5555);
    let old_lut_param = cell_lut.set_parameter(
        &"INIT".into(),
        Parameter::BitVec(new_bv.iter().map(|bit| *bit).collect()),
    );
    if let Some(Parameter::BitVec(bv)) = old_lut_param {
        for i in 0..15 {
            assert_eq!(bv[i], (i % 2 == 1));
        }
    } else {
        panic!("Expected BitVec parameter");
    }
    let lut_param = cell_lut.get_parameter(&"INIT".into());
    if let Some(Parameter::BitVec(bv)) = lut_param {
        for i in 0..15 {
            assert_eq!(bv[i], (i % 2 == 0));
        }
    } else {
        panic!("Expected BitVec parameter");
    }
    let old_ff_param = cell_ff.set_parameter(&"INIT".into(), Parameter::from_bool(true));
    assert_eq!(old_ff_param, Some(Parameter::from_bool(false)));
    let ff_param = cell_ff.get_parameter(&"INIT".into());
    assert_eq!(ff_param, Some(Parameter::from_bool(true)));

    // parameters tests
    let lut_params: Vec<_> = cell_lut.parameters();
    assert_eq!(lut_params[0].0, Identifier::new("INIT".to_string()));
    let ff_params: Vec<_> = cell_ff.parameters();
    assert_eq!(ff_params[0].0, Identifier::new("INIT".to_string()));

    // from_constant and get_constant tests
    let vdd = Cell::from_constant(Logic::True).unwrap();
    assert_eq!(vdd.get_constant(), Some(Logic::True));
    let gnd = Cell::from_constant(Logic::False).unwrap();
    assert_eq!(gnd.get_constant(), Some(Logic::False));
    assert!(cell_ff.get_constant().is_none());
    assert!(cell_gate.get_constant().is_none());

    // is_seq tests
    assert!(!cell_lut.is_seq());
    assert!(cell_ff.is_seq());
    assert!(!cell_gate.is_seq());
}

#[test]
fn insert_cell_test() {
    let mut netlist = Netlist::new("test_netlist".to_string());

    let clk = netlist.insert_input("clk".into());
    let ce = netlist.insert_input("ce".into());
    let preset = netlist.insert_input("pre".into());
    let d = netlist.insert_input("d".into());
    let flipflop = FlipFlop::new(
        "flipflop".into(),
        FlopVariant::Fdpe,
        Logic::from_str("1'bx").unwrap(),
    );

    let instance = netlist
        .insert_gate(
            Cell::FlipFlop(flipflop),
            "ff1".into(),
            &[clk, ce, preset, d],
        )
        .unwrap();

    netlist
        .expose_instance_with_name(instance, "q".into())
        .unwrap();
    assert!(netlist.verify().is_ok());
}

#[test]
fn flipflop_test() {
    let mut ff = FlipFlop::new(
        "flipflop".into(),
        FlopVariant::Fdre,
        Logic::from_str("1'b0").unwrap(),
    );
    assert_eq!(ff.get_name(), &"flipflop".into());
    assert_eq!(ff.get_variant(), FlopVariant::Fdre);
    let input_ports: Vec<_> = ff.get_input_ports().into_iter().collect();
    assert_eq!(input_ports[0], Net::new_logic("C".into()));
    assert_eq!(input_ports[1], Net::new_logic("CE".into()));
    assert_eq!(input_ports[2], Net::new_logic("R".into()));
    assert_eq!(input_ports[3], Net::new_logic("D".into()));
    let output_ports: Vec<_> = ff.get_output_ports().into_iter().collect();
    assert_eq!(output_ports[0], Net::new_logic("Q".into()));
    let params: Vec<_> = ff.parameters();
    assert_eq!(params[0].0, Identifier::new("INIT".to_string()));
    assert_eq!(
        ff.set_parameter(
            &"INIT".into(),
            Parameter::Logic(Logic::from_str("1'b1").unwrap())
        ),
        Some(Parameter::Logic(Logic::from_str("1'b0").unwrap()))
    );
    assert_eq!(
        ff.get_parameter(&"INIT".into()),
        Some(Parameter::Logic(Logic::from_str("1'b1").unwrap()))
    );
    assert!(ff.is_seq());
}

fn nand_gate() -> Cell {
    Cell::Gate(Gate::new_logical(
        "NAND".into(),
        vec!["A".into(), "B".into()],
        "Y".into(),
    ))
}

fn register(name: &str) -> Cell {
    Cell::FlipFlop(FlipFlop::new(name.into(), FlopVariant::Fdre, Logic::False))
}

#[test]
fn a_latch_of_gates_passes_the_checks_and_has_no_order() {
    let mut netlist: Netlist<Cell> = Netlist::new("latch".to_string());
    let set = netlist.insert_input("s".into());
    let reset = netlist.insert_input("r".into());
    let upper = netlist.insert_gate_disconnected(nand_gate(), "upper".into());
    let lower = netlist.insert_gate_disconnected(nand_gate(), "lower".into());
    let q = netlist.get_output(upper, 0);
    let q_n = netlist.get_output(lower, 0);
    let port = netlist.get_input(upper, 0);
    netlist.connect(port, set);
    let port = netlist.get_input(upper, 1);
    netlist.connect(port, q_n);
    let port = netlist.get_input(lower, 0);
    netlist.connect(port, q);
    let port = netlist.get_input(lower, 1);
    netlist.connect(port, reset);
    let follower = netlist
        .insert_gate(nand_gate(), "follower".into(), &[q, set])
        .unwrap();
    netlist.expose_with_name(q, "q".into());
    assert!(netlist.verify().is_ok());
    assert!(netlist.is_object(follower));
    match netlist.evaluation_order() {
        Err(Error::CycleDetected(nets)) => assert_eq!(
            nets,
            vec!["upper_Y".into(), "lower_Y".into(), "follower_Y".into()]
        ),
        other => panic!("unexpected result {:?}", other),
    }
    assert_eq!(
        netlist.evaluation_order().unwrap_err().message(),
        "Cycles detected along nets [upper_Y, lower_Y, follower_Y]"
    );
    assert!(netlist.clean());
    assert!(!netlist.is_object(follower));
    assert!(netlist.is_object(upper));
    assert!(netlist.is_object(lower));
    match netlist.evaluation_order() {
        Err(Error::CycleDetected(nets)) => {
            assert_eq!(nets, vec!["upper_Y".into(), "lower_Y".into()])
        }
        other => panic!("unexpected result {:?}", other),
    }
    assert!(netlist.verify().is_ok());
}

#[test]
fn a_register_breaks_the_loop() {
    let mut netlist: Netlist<Cell> = Netlist::new("counter".to_string());
    let clk = netlist.insert_input("clk".into());
    let enable = netlist.insert_input("en".into());
    let state = netlist.insert_gate_disconnected(register("FDRE"), "state".into());
    let q = netlist.get_output(state, 0);
    let next = netlist
        .insert_gate(nand_gate(), "next".into(), &[q, enable])
        .unwrap();
    let d = netlist.get_output(next, 0);
    for (index, net) in [clk, enable, enable, d].iter().enumerate() {
        let port = netlist.get_input(state, index);
        netlist.connect(port, *net);
    }
    netlist.expose_with_name(q, "q".into());
    assert!(netlist.verify().is_ok());
    let order = netlist.evaluation_order().unwrap();
    assert_eq!(order.len(), 4);
    let place = |slot: usize| {
        order
            .iter()
            .position(|handle| *handle == NetRef { object: slot })
            .unwrap()
    };
    assert!(place(clk.object) < place(state.object));
    assert!(place(enable.object) < place(next.object));
    assert!(place(next.object) < place(state.object));
    assert!(netlist
        .to_verilog()
        .unwrap()
        .contains("  FDRE state (\n    .C(clk),\n    .CE(en),\n    .R(en),\n    .D(next_Y),\n    .Q(state_Q)\n  );\n"));
}

#[test]
fn evaluation_order_skips_what_was_removed() {
    let mut netlist: Netlist<Cell> = Netlist::new("order".to_string());
    let a = netlist.insert_input("a".into());
    let dead = netlist
        .insert_gate(nand_gate(), "dead".into(), &[a, a])
        .unwrap();
    let used = netlist
        .insert_gate(nand_gate(), "used".into(), &[a, a])
        .unwrap();
    netlist.expose_instance_with_name(used, "y".into()).unwrap();
    assert!(netlist.clean());
    assert!(!netlist.is_object(dead));
    assert_eq!(
        netlist.evaluation_order().unwrap(),
        vec![NetRef { object: 0 }, NetRef { object: 2 }]
    );
}
