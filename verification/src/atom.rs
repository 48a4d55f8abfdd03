//! Atom taxonomy: the "elements" a molecule is built from.
//!
//! Each atom occupies one hex cell and has up to six bond sites (one per
//! [`crate::hex_grid::Dir`]). Every kind is orientation-aware via a `facing`
//! direction so the same element can be wired into a circuit many ways.

use vstd::prelude::*;

verus! {

/// Boolean logic operators for gate atoms, generalised to N connected inputs.
#[derive(Copy, Clone, Debug, PartialEq, Eq, Structural)]
pub enum GateOp {
    /// Fires when every connected input is high (at least one input).
    And,
    /// Fires when any input is high.
    Or,
    /// Fires when no input is high (self-powered inverter / oscillator).
    Nor,
    /// Fires unless all inputs are high (at least one input).
    Nand,
    /// Fires when an odd number of inputs are high.
    Xor,
    /// Fires when an even number of inputs are high (includes zero).
    Xnor,
}

impl GateOp {
    /// Whether a gate of this kind fires with `high` of its `inputs` inputs high.
    pub open spec fn fires(self, high: int, inputs: int) -> bool {
        match self {
            GateOp::And => inputs > 0 && high == inputs,
            GateOp::Or => high > 0,
            GateOp::Nor => high == 0,
            GateOp::Nand => inputs > 0 && high < inputs,
            GateOp::Xor => high % 2 == 1,
            GateOp::Xnor => high % 2 == 0,
        }
    }

    /// All six operators.
    pub const ALL: [GateOp; 6] = [
        GateOp::And,
        GateOp::Or,
        GateOp::Nor,
        GateOp::Nand,
        GateOp::Xor,
        GateOp::Xnor,
    ];

    /// True when a gate of this operator, with `inputs` connected inputs of
    /// which `high` carry a signal, drives its output.
    pub fn eval(self, high: u32, inputs: u32) -> (b: bool)
        ensures
            b == self.fires(high as int, inputs as int),
    {
        match self {
            GateOp::And => inputs > 0 && high == inputs,
            GateOp::Or => high > 0,
            GateOp::Nor => high == 0,
            GateOp::Nand => inputs > 0 && high < inputs,
            GateOp::Xor => high % 2 == 1,
            GateOp::Xnor => high % 2 == 0,
        }
    }
}

/// The inverting operators are the complements of their plain forms: `Nor`
/// fires exactly when `Or` does not, `Xnor` exactly when `Xor` does not, and,
/// for a gate with at least one input and no more high inputs than inputs,
/// `Nand` exactly when `And` does not.
pub proof fn lemma_gate_complements(high: nat, inputs: nat)
    ensures
        GateOp::Nor.fires(high as int, inputs as int) == !GateOp::Or.fires(high as int, inputs as int),
        GateOp::Xnor.fires(high as int, inputs as int) == !GateOp::Xor.fires(high as int, inputs as int),
        0 < inputs && high <= inputs ==> GateOp::Nand.fires(high as int, inputs as int)
            == !GateOp::And.fires(high as int, inputs as int),
{
}

/// What each operator means for a gate with `inputs` connected inputs of
/// which `high` are high: `And` fires exactly when there is an input and every
/// input is high, `Or` exactly when some input is high, `Nor` exactly when no
/// input is high, `Nand` exactly when there is an input and not every input is
/// high, `Xor` exactly when an odd number are high and `Xnor` exactly when an
/// even number are high.
pub proof fn lemma_gate_meaning(high: nat, inputs: nat)
    requires
        high <= inputs,
    ensures
        GateOp::And.fires(high as int, inputs as int) <==> (inputs >= 1 && inputs - high == 0),
        GateOp::Or.fires(high as int, inputs as int) <==> high >= 1,
        GateOp::Nor.fires(high as int, inputs as int) <==> high == 0,
        GateOp::Nand.fires(high as int, inputs as int) <==> (inputs >= 1 && inputs - high >= 1),
        GateOp::Xor.fires(high as int, inputs as int) <==> high % 2 == 1,
        GateOp::Xnor.fires(high as int, inputs as int) <==> high % 2 == 0,
{
}

/// `Or`, `Nor`, `Xor` and `Xnor` look only at the high inputs: the same number
/// of high inputs gives the same answer however many inputs are connected.
pub proof fn lemma_gate_counts_only_high(op: GateOp, high: nat, inputs1: nat, inputs2: nat)
    requires
        op == GateOp::Or || op == GateOp::Nor || op == GateOp::Xor || op == GateOp::Xnor,
    ensures
        op.fires(high as int, inputs1 as int) == op.fires(high as int, inputs2 as int),
{
}

/// Raising another input high never switches off an `And` or an `Or` gate,
/// and never switches on a `Nor` or a `Nand` gate; it always flips `Xor` and
/// `Xnor`.
pub proof fn lemma_gate_one_more_high(high: nat, inputs: nat)
    requires
        high < inputs,
    ensures
        GateOp::And.fires(high as int, inputs as int) ==> GateOp::And.fires(high + 1int, inputs as int),
        GateOp::Or.fires(high as int, inputs as int) ==> GateOp::Or.fires(high + 1int, inputs as int),
        GateOp::Nor.fires(high + 1int, inputs as int) ==> GateOp::Nor.fires(high as int, inputs as int),
        GateOp::Nand.fires(high + 1int, inputs as int) ==> GateOp::Nand.fires(high as int, inputs as int),
        GateOp::Xor.fires(high + 1int, inputs as int) == !GateOp::Xor.fires(high as int, inputs as int),
        GateOp::Xnor.fires(high + 1int, inputs as int) == !GateOp::Xnor.fires(high as int, inputs as int),
{
}

/// The kind of an atom. This is the heritable "type gene".
#[derive(Copy, Clone, Debug, PartialEq, Eq, Structural)]
pub enum AtomKind {
    /// The mandatory core of every molecule. Behaves as a conductor hub; if it
    /// is destroyed the whole molecule dies.
    Seed,
    /// Passes/diffuses energy between its bonds (a wire).
    Conductor,
    /// Harvests ambient energy into the pool and radiates a steady power signal.
    Solar,
    /// Boolean logic element (see [`GateOp`]).
    Gate(GateOp),
    /// Stores energy; releases it on the front site while its control (back)
    /// site is held high. Charges from its other sites.
    Battery,
    /// Converts an intake signal into world force along its facing direction,
    /// burning pool as fuel.
    Thruster,
    /// A mouth: consumes a foreign atom it touches, feeding the pool and firing
    /// a bite pulse.
    Eater,
    /// A sense organ: emits a signal proportional to foreign matter ahead.
    Sensor,
    /// Inert free-floating nutrient. Exists to be eaten.
    Food,
}

impl AtomKind {
    /// The palette used for the initial random population's structural atoms,
    /// in order. (`Food` and `Seed` are handled separately; conductors appear
    /// twice to weight them up a touch.)
    pub open spec fn palette_seq() -> Seq<AtomKind> {
        seq![
            AtomKind::Conductor,
            AtomKind::Gate(GateOp::And),
            AtomKind::Gate(GateOp::Or),
            AtomKind::Gate(GateOp::Nor),
            AtomKind::Gate(GateOp::Xor),
            AtomKind::Battery,
            AtomKind::Thruster,
            AtomKind::Eater,
            AtomKind::Sensor,
            AtomKind::Conductor,
        ]
    }

    /// The palette of structural atom kinds (see `palette_seq`).
    pub fn palette() -> (p: [AtomKind; 10])
        ensures
            p@ == AtomKind::palette_seq(),
    {
        let p = [
            AtomKind::Conductor,
            AtomKind::Gate(GateOp::And),
            AtomKind::Gate(GateOp::Or),
            AtomKind::Gate(GateOp::Nor),
            AtomKind::Gate(GateOp::Xor),
            AtomKind::Battery,
            AtomKind::Thruster,
            AtomKind::Eater,
            AtomKind::Sensor,
            AtomKind::Conductor,
        ];
        assert(p@ =~= AtomKind::palette_seq());
        p
    }

    /// Whether this atom actively senses/eats and therefore needs the world's
    /// spatial index during a step.
    pub fn is_interactive(self) -> (b: bool)
        ensures
            b == (self == AtomKind::Eater || self == AtomKind::Sensor),
    {
        match self {
            AtomKind::Eater | AtomKind::Sensor => true,
            _ => false,
        }
    }
}

/// Coarse categories used by the adjacency-preference table of genome growth.
#[derive(Copy, Clone, Debug, PartialEq, Eq, Structural)]
pub enum Cat {
    Conductor,
    Solar,
    Gate,
    Battery,
    Thruster,
    Eater,
    Sensor,
}

/// The growth category of an atom kind: seeds and food count as conductors,
/// every gate operator as a gate, every other kind as its own category.
pub open spec fn category(k: AtomKind) -> Cat {
    match k {
        AtomKind::Conductor | AtomKind::Seed | AtomKind::Food => Cat::Conductor,
        AtomKind::Solar => Cat::Solar,
        AtomKind::Gate(_) => Cat::Gate,
        AtomKind::Battery => Cat::Battery,
        AtomKind::Thruster => Cat::Thruster,
        AtomKind::Eater => Cat::Eater,
        AtomKind::Sensor => Cat::Sensor,
    }
}

/// The growth category of `k`.
pub fn cat_of(k: AtomKind) -> (c: Cat)
    ensures
        c == category(k),
{
    match k {
        AtomKind::Conductor | AtomKind::Seed => Cat::Conductor,
        AtomKind::Solar => Cat::Solar,
        AtomKind::Gate(_) => Cat::Gate,
        AtomKind::Battery => Cat::Battery,
        AtomKind::Thruster => Cat::Thruster,
        AtomKind::Eater => Cat::Eater,
        AtomKind::Sensor => Cat::Sensor,
        AtomKind::Food => Cat::Conductor,
    }
}

} // verus!
