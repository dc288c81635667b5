use vstd::prelude::*;

verus! {

/// The activation applied uniformly to every hidden and output node of a
/// decoded network. Two variants exist; callers select one by name, and
/// every unrecognised name falls back to the logistic sigmoid.
#[derive(Clone, Copy, PartialEq, Eq, Structural, Debug)]
pub enum Activation {
    Sigmoid,
    Tanh,
}

/// The activation selected by a name: exactly the name `tanh` selects the
/// hyperbolic tangent, every other name selects the sigmoid.
pub open spec fn spec_activation_of(name: Seq<char>) -> Activation {
    if name == "tanh"@ {
        Activation::Tanh
    } else {
        Activation::Sigmoid
    }
}

/// Resolves an activation name, defaulting to the sigmoid for every
/// unrecognised name.
pub fn activation_from_name(name: &str) -> (r: Activation)
    ensures
        r == spec_activation_of(name@),
{
    let owned: String = name.to_owned();
    let tanh: String = "tanh".to_owned();
    if owned == tanh {
        Activation::Tanh
    } else {
        Activation::Sigmoid
    }
}

} // verus!
