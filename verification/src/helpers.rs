use vstd::prelude::*;

verus! {

/// Bounds-safe read of a nested two-dimensional vector: the value at column
/// `x` of row `y`, or `default` whenever either index falls outside the
/// vector.
pub fn pixel_value<T: Copy>(vec: &Vec<Vec<T>>, x: isize, y: isize, default: T) -> (r: T)
    ensures
        r == (if 0 <= y < vec@.len() && 0 <= x < vec@[y as int]@.len() {
            vec@[y as int]@[x as int]
        } else {
            default
        }),
{
    if x < 0 || y < 0 {
        return default;
    }

    let yi = y as usize;
    let xi = x as usize;
    if yi < vec.len() {
        let row = &vec[yi];
        if xi < row.len() {
            row[xi]
        } else {
            default
        }
    } else {
        default
    }
}

} // verus!
