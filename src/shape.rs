//! The shape of a layered network.
use vstd::prelude::*;

verus! {

/// For each layer, its per-neuron input count and its neuron count: the first
/// layer reads `input_size` values, every later one the previous layer's
/// outputs.
pub fn layer_shapes(input_size: usize, layer_sizes: &Vec<usize>) -> (r: Vec<(usize, usize)>)
    requires
        layer_sizes@.len() > 0,
    ensures
        r@.len() == layer_sizes@.len(),
        r@[0] == (input_size, layer_sizes@[0]),
        forall|i: int|
            1 <= i < r@.len() ==> #[trigger] r@[i] == (layer_sizes@[i - 1], layer_sizes@[i]),
{
    let mut r: Vec<(usize, usize)> = Vec::new();
    r.push((input_size, layer_sizes[0]));
    let mut i: usize = 1;
    while i < layer_sizes.len()
        invariant
            1 <= i <= layer_sizes@.len(),
            r@.len() == i,
            r@[0] == (input_size, layer_sizes@[0]),
            forall|k: int| 1 <= k < i ==> #[trigger] r@[k] == (layer_sizes@[k - 1], layer_sizes@[k]),
        decreases layer_sizes@.len() - i,
    {
        r.push((layer_sizes[i - 1], layer_sizes[i]));
        i += 1;
    }
    r
}

} // verus!
