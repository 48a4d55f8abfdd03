use evo2::atom::{cat_of, AtomKind, Cat, GateOp};

#[test]
fn gate_truth_tables() {
    // (high, inputs)
    assert!(GateOp::And.eval(3, 3));
    assert!(!GateOp::And.eval(2, 3));
    assert!(!GateOp::And.eval(0, 0));
    assert!(GateOp::Or.eval(1, 4));
    assert!(!GateOp::Or.eval(0, 4));
    assert!(GateOp::Nor.eval(0, 2));
    assert!(GateOp::Nor.eval(0, 0));
    assert!(!GateOp::Nor.eval(1, 2));
    assert!(GateOp::Nand.eval(1, 2));
    assert!(!GateOp::Nand.eval(2, 2));
    assert!(!GateOp::Nand.eval(0, 0));
    assert!(GateOp::Xor.eval(3, 5));
    assert!(!GateOp::Xor.eval(2, 5));
    assert!(GateOp::Xnor.eval(0, 0));
    assert!(GateOp::Xnor.eval(2, 3));
    assert!(!GateOp::Xnor.eval(1, 3));
}

#[test]
fn inverting_gates_complement_their_plain_forms() {
    for inputs in 1..6u32 {
        for high in 0..=inputs {
            assert_eq!(GateOp::Nor.eval(high, inputs), !GateOp::Or.eval(high, inputs));
            assert_eq!(GateOp::Xnor.eval(high, inputs), !GateOp::Xor.eval(high, inputs));
            assert_eq!(GateOp::Nand.eval(high, inputs), !GateOp::And.eval(high, inputs));
        }
    }
}

#[test]
fn interactive_kinds() {
    assert!(AtomKind::Eater.is_interactive());
    assert!(AtomKind::Sensor.is_interactive());
    assert!(!AtomKind::Thruster.is_interactive());
    assert!(!AtomKind::Gate(GateOp::Or).is_interactive());
    assert!(!AtomKind::Food.is_interactive());
}

#[test]
fn categories() {
    assert_eq!(cat_of(AtomKind::Seed), Cat::Conductor);
    assert_eq!(cat_of(AtomKind::Food), Cat::Conductor);
    assert_eq!(cat_of(AtomKind::Conductor), Cat::Conductor);
    assert_eq!(cat_of(AtomKind::Gate(GateOp::Xnor)), Cat::Gate);
    assert_eq!(cat_of(AtomKind::Solar), Cat::Solar);
    assert_eq!(cat_of(AtomKind::Battery), Cat::Battery);
    assert_eq!(cat_of(AtomKind::Thruster), Cat::Thruster);
    assert_eq!(cat_of(AtomKind::Eater), Cat::Eater);
    assert_eq!(cat_of(AtomKind::Sensor), Cat::Sensor);
}

#[test]
fn palette_and_operator_lists() {
    let p = AtomKind::palette();
    assert_eq!(p.len(), 10);
    assert_eq!(p[0], AtomKind::Conductor);
    assert_eq!(p[9], AtomKind::Conductor);
    assert_eq!(p[4], AtomKind::Gate(GateOp::Xor));
    assert!(!p.contains(&AtomKind::Seed));
    assert!(!p.contains(&AtomKind::Food));
    assert_eq!(GateOp::ALL.len(), 6);
    assert_eq!(GateOp::ALL[3], GateOp::Nand);
}
