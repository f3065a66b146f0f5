//! Where inside a value an error arose.

use vstd::prelude::*;

verus! {

/// One step from a value into one of its parts.
#[derive(Debug, PartialEq, Eq)]
pub enum PathStep {
    /// Into the field of a record with this name.
    Field(String),
    /// Into the element of a list, or the byte of a payload, at this position.
    Index(u64),
    /// Into the key of the map entry at this position.
    MapKey(u64),
    /// Into the value of the map entry at this position.
    MapValue(u64),
}

/// What a `PathStep` holds.
pub ghost enum SpecPathStep {
    Field(Seq<char>),
    Index(u64),
    MapKey(u64),
    MapValue(u64),
}

impl View for PathStep {
    type V = SpecPathStep;

    open spec fn view(&self) -> SpecPathStep {
        match self {
            PathStep::Field(name) => SpecPathStep::Field(name@),
            PathStep::Index(i) => SpecPathStep::Index(*i),
            PathStep::MapKey(i) => SpecPathStep::MapKey(*i),
            PathStep::MapValue(i) => SpecPathStep::MapValue(*i),
        }
    }
}

/// The models of the steps of a path, outermost first.
pub open spec fn path_model(steps: Seq<PathStep>) -> Seq<SpecPathStep> {
    Seq::new(steps.len(), |i: int| steps[i]@)
}

/// Puts `step` in front of `path`, as the new outermost step.
pub fn prepend(path: &mut Vec<PathStep>, step: PathStep)
    ensures
        path_model(final(path)@) == seq![step@] + path_model(old(path)@),
{
    path.insert(0, step);
    assert(path_model(path@) =~= seq![step@] + path_model(old(path)@));
}

} // verus!
