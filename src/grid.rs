use vstd::prelude::*;

verus! {

/// Cell (`row`, `col`) of a grid `width` cells wide lies inside it.
pub proof fn lemma_cell_in_grid(row: int, col: int, width: int, height: int)
    requires
        0 <= row < height,
        0 <= col < width,
    ensures
        0 <= row * width + col < width * height,
        row * width + col < height * width,
{
    assert(0 <= row * width + col < width * height) by (nonlinear_arith)
        requires
            0 <= row < height,
            0 <= col < width,
    ;
    assert(width * height == height * width) by (nonlinear_arith);
}

/// A quotient below a bound.
pub proof fn lemma_div_below(n: int, d: int, m: int)
    requires
        0 <= n < m * d,
        d > 0,
    ensures
        0 <= n / d < m,
{
    vstd::arithmetic::div_mod::lemma_fundamental_div_mod(n, d);
    vstd::arithmetic::div_mod::lemma_mod_pos_bound(n, d);
    vstd::arithmetic::div_mod::lemma_div_pos_is_pos(n, d);
    let q = n / d;
    assert(q < m) by (nonlinear_arith)
        requires
            n == d * q + n % d,
            0 <= n % d,
            n < m * d,
            d > 0,
    ;
}

/// Row and column of a cell of a grid `width` cells wide.
pub proof fn lemma_cell_of_index(k: int, width: int, height: int)
    requires
        0 <= k < width * height,
        0 <= width,
        0 <= height,
    ensures
        width > 0,
        0 <= k / width < height,
        0 <= k % width < width,
        k == (k / width) * width + k % width,
{
    if width == 0 {
        assert(width * height == 0);
    }
    vstd::arithmetic::div_mod::lemma_fundamental_div_mod(k, width);
    vstd::arithmetic::div_mod::lemma_mod_pos_bound(k, width);
    vstd::arithmetic::div_mod::lemma_div_pos_is_pos(k, width);
    let q = k / width;
    assert(q < height) by (nonlinear_arith)
        requires
            k == width * q + k % width,
            0 <= k % width,
            k < width * height,
            width > 0,
    ;
    assert(width * q == q * width) by (nonlinear_arith);
}

} // verus!
