use vstd::prelude::*;

verus! {

pub type EntId = usize;

pub type RelId = usize;

/// A synthesized circuit: entities (wires holding values) and the relations between them.
#[derive(PartialEq, Debug)]
pub struct Netlist {
    /// input ports by name, for feeding values in the simulator
    pub inputs: Vec<(String, EntId)>,
    /// output ports by name, for reading results in the simulator
    pub outputs: Vec<(String, EntId)>,
    pub relations: Vec<Relation>,
    pub ents: Vec<Entity>,
}

impl Netlist {
    /// The empty netlist.
    pub fn new() -> (n: Self)
        ensures
            n.inputs@.len() == 0,
            n.outputs@.len() == 0,
            n.relations@.len() == 0,
            n.ents@.len() == 0,
    {
        Self { inputs: Vec::new(), outputs: Vec::new(), relations: Vec::new(), ents: Vec::new() }
    }
}

/// An instance of a compiled relation: which compiled relation, its delay,
/// the entities it reads and the entity it drives.
#[derive(PartialEq, Debug)]
pub struct Relation {
    pub idx: usize,
    pub delay: usize,
    pub input_ents: Vec<EntId>,
    pub output_ent: EntId,
}

/// A value holder and the relations that read it.
#[derive(PartialEq, Debug)]
pub struct Entity {
    pub val: Option<u64>,
    pub sinks: Vec<RelId>,
}

} // verus!
