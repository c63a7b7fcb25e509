//! Scripts for gnuplot that draw the results.

use vstd::prelude::*;
use vstd::string::*;

verus! {

/// The lines of the colour-map script that come before the data file's name.
pub open spec fn color_map_head() -> Seq<char> {
    "set terminal pngcairo  transparent enhanced font \"arial,10\" fontscale 1.0 size 800, 600\nset output 'out.png'\nset title \"Electrical Potential Approximation Based On Laplace Equation\"\nset cblabel \"Potential in kV\"\nset datafile separator comma\nset autoscale xfix\nset autoscale yfix\nplot \""@
}

/// What follows the data file's name in the colour-map script.
pub open spec fn color_map_tail() -> Seq<char> {
    "\" matrix nonuniform with image"@
}

/// The gnuplot script that draws the node values stored as a matrix in `file`
/// as a colour map into `out.png`.
pub fn plot_2d_color_map(file: &str) -> (script: String)
    ensures
        script@ == color_map_head() + file@ + color_map_tail(),
{
    let script = String::from_str(
        "set terminal pngcairo  transparent enhanced font \"arial,10\" fontscale 1.0 size 800, 600\nset output 'out.png'\nset title \"Electrical Potential Approximation Based On Laplace Equation\"\nset cblabel \"Potential in kV\"\nset datafile separator comma\nset autoscale xfix\nset autoscale yfix\nplot \"",
    );
    let script = script.concat(file);
    script.concat("\" matrix nonuniform with image")
}

} // verus!
