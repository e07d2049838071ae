//! Update rules of cellular automata whose cells evolve by a residue rule: each
//! cell's next value is `residue(value, context)`, where the context sums its
//! neighbours. The residue rule itself (a MOMA ring) is handed in as a function.
use vstd::prelude::*;
use rand::Rng;

verus! {

/// Relies on rand's `Rng::random_range` on the thread-local generator: a value
/// drawn from `0..bound`, which panics on an empty range.
#[verifier::external_body]
fn random_below(bound: u64) -> (r: u64)
    requires
        bound > 0,
    ensures
        r < bound,
{
    rand::rng().random_range(0..bound)
}

/// A random starting state: `len` cells, each drawn from `0..modulus`; the
/// modulus may be 0 only when there are no cells.
pub fn random_state(len: usize, modulus: u64) -> (r: Vec<u64>)
    requires
        len > 0 ==> modulus > 0,
    ensures
        r@.len() == len,
        forall|i: int| 0 <= i < len ==> #[trigger] r@[i] < modulus,
{
    let mut r: Vec<u64> = Vec::new();
    let mut i: usize = 0;
    while i < len
        invariant
            len > 0 ==> modulus > 0,
            i <= len,
            r@.len() == i,
            forall|j: int| 0 <= j < i ==> #[trigger] r@[j] < modulus,
        decreases len - i,
    {
        r.push(random_below(modulus));
        i = i + 1;
    }
    r
}

/// `x` reduced modulo 2^64, as wrapping addition of `u64` leaves it.
pub open spec fn wrap(x: int) -> u64 {
    (x % 0x1_0000_0000_0000_0000) as u64
}

proof fn lemma_wrapping_add(s: int, b: u64)
    requires
        s >= 0,
    ensures
        (wrap(s) as u64).wrapping_add(b) == wrap(s + b),
        0 <= wrap(s) < 0x1_0000_0000_0000_0000,
{
    let m: int = 0x1_0000_0000_0000_0000;
    vstd::arithmetic::div_mod::lemma_mod_bound(s, m);
    vstd::arithmetic::div_mod::lemma_add_mod_noop(s, b as int, m);
    vstd::arithmetic::div_mod::lemma_mod_twice(s, m);
    vstd::arithmetic::div_mod::lemma_small_mod(b as nat, m as nat);
    let w = s % m;
    vstd::arithmetic::div_mod::lemma_mod_bound(s + b, m);
    if w + b >= m {
        vstd::arithmetic::div_mod::lemma_fundamental_div_mod_converse(w + b, m, 1, w + b - m);
    } else {
        vstd::arithmetic::div_mod::lemma_small_mod((w + b) as nat, m as nat);
    }
}

/// The position left of `i` on a ring of `n` cells.
pub open spec fn left_of(i: int, n: int) -> int {
    if i == 0 {
        n - 1
    } else {
        i - 1
    }
}

/// The position right of `i` on a ring of `n` cells.
pub open spec fn right_of(i: int, n: int) -> int {
    if i + 1 == n {
        0
    } else {
        i + 1
    }
}

/// The context of cell `i` of a one-dimensional ring: the wrapped sum of its two
/// neighbours.
pub open spec fn ring_context(state: Seq<u64>, i: int) -> u64 {
    wrap(state[left_of(i, state.len() as int)] + state[right_of(i, state.len() as int)])
}

/// One step of the one-dimensional ring automaton: every cell becomes
/// `residue(cell, left + right)` at once, the ends wrapping around.
pub fn step_ring<F: Fn(u64, u64) -> u64>(state: &Vec<u64>, residue: &F) -> (r: Vec<u64>)
    requires
        forall|a: u64, b: u64| residue.requires((a, b)),
    ensures
        r@.len() == state@.len(),
        forall|i: int|
            0 <= i < state@.len() ==> residue.ensures((state@[i], ring_context(state@, i)), #[trigger] r@[i]),
{
    let n = state.len();
    let mut next: Vec<u64> = Vec::new();
    let mut i: usize = 0;
    while i < n
        invariant
            n == state@.len(),
            i <= n,
            next@.len() == i,
            forall|a: u64, b: u64| residue.requires((a, b)),
            forall|j: int|
                0 <= j < i ==> residue.ensures((state@[j], ring_context(state@, j)), #[trigger] next@[j]),
        decreases n - i,
    {
        let left = if i == 0 {
            state[n - 1]
        } else {
            state[i - 1]
        };
        let right = if i + 1 == n {
            state[0]
        } else {
            state[i + 1]
        };
        let context = left.wrapping_add(right);
        proof {
            lemma_wrapping_add(left as int, right);
            vstd::arithmetic::div_mod::lemma_small_mod(left as nat, 0x1_0000_0000_0000_0000nat);
        }
        let v = residue(state[i], context);
        next.push(v);
        i = i + 1;
    }
    next
}

/// The eight cells around `(x, y)` on a torus of `w` by `h` cells stored row by
/// row, summed with wrapping.
pub open spec fn moore_context(state: Seq<u64>, w: int, h: int, x: int, y: int) -> u64 {
    let l = left_of(x, w);
    let r = right_of(x, w);
    let u = left_of(y, h);
    let d = right_of(y, h);
    wrap(
        state[u * w + l] + state[u * w + x] + state[u * w + r] + state[y * w + l] + state[y * w + r]
            + state[d * w + l] + state[d * w + x] + state[d * w + r],
    )
}

proof fn lemma_row_index(w: int, h: int, x: int, y: int)
    requires
        0 <= x < w,
        0 <= y < h,
    ensures
        0 <= y * w + x < w * h,
        0 <= y * w,
{
    assert(y * w + x < w * h) by (nonlinear_arith)
        requires
            x < w,
            y < h,
            0 <= x,
            0 <= y,
    ;
    assert(0 <= y * w) by (nonlinear_arith)
        requires
            0 <= y,
            0 <= w,
    ;
}

/// One step of the two-dimensional automaton on a `width` by `height` torus:
/// every cell becomes `residue(cell, sum of its eight neighbours)` at once.
pub fn step_moore<F: Fn(u64, u64) -> u64>(
    state: &Vec<u64>,
    width: usize,
    height: usize,
    residue: &F,
) -> (r: Vec<u64>)
    requires
        state@.len() == width * height,
        forall|a: u64, b: u64| residue.requires((a, b)),
    ensures
        r@.len() == state@.len(),
        forall|x: int, y: int|
            0 <= x < width && 0 <= y < height ==> residue.ensures(
                (state@[y * width + x], moore_context(state@, width as int, height as int, x, y)),
                #[trigger] r@[y * width + x],
            ),
{
    let n = state.len();
    let mut next: Vec<u64> = Vec::new();
    let mut y: usize = 0;
    while y < height
        invariant
            n == state@.len(),
            state@.len() == width * height,
            y <= height,
            next@.len() == y * width,
            forall|a: u64, b: u64| residue.requires((a, b)),
            forall|xx: int, yy: int|
                0 <= xx < width && 0 <= yy < y ==> residue.ensures(
                    (state@[yy * width + xx], moore_context(state@, width as int, height as int, xx, yy)),
                    #[trigger] next@[yy * width + xx],
                ),
        decreases height - y,
    {
        let u = if y == 0 {
            height - 1
        } else {
            y - 1
        };
        let d = if y + 1 == height {
            0
        } else {
            y + 1
        };
        let mut x: usize = 0;
        while x < width
            invariant
                n == state@.len(),
                state@.len() == width * height,
                y < height,
                u == left_of(y as int, height as int),
                d == right_of(y as int, height as int),
                x <= width,
                next@.len() == y * width + x,
                forall|a: u64, b: u64| residue.requires((a, b)),
                forall|xx: int, yy: int|
                    0 <= xx < width && 0 <= yy < y ==> residue.ensures(
                        (state@[yy * width + xx], moore_context(state@, width as int, height as int, xx, yy)),
                        #[trigger] next@[yy * width + xx],
                    ),
                forall|xx: int|
                    0 <= xx < x ==> residue.ensures(
                        (state@[y * width + xx], moore_context(state@, width as int, height as int, xx, y as int)),
                        #[trigger] next@[y * width + xx],
                    ),
            decreases width - x,
        {
            let l = if x == 0 {
                width - 1
            } else {
                x - 1
            };
            let r = if x + 1 == width {
                0
            } else {
                x + 1
            };
            proof {
                lemma_row_index(width as int, height as int, l as int, u as int);
                lemma_row_index(width as int, height as int, x as int, u as int);
                lemma_row_index(width as int, height as int, r as int, u as int);
                lemma_row_index(width as int, height as int, l as int, y as int);
                lemma_row_index(width as int, height as int, x as int, y as int);
                lemma_row_index(width as int, height as int, r as int, y as int);
                lemma_row_index(width as int, height as int, l as int, d as int);
                lemma_row_index(width as int, height as int, x as int, d as int);
                lemma_row_index(width as int, height as int, r as int, d as int);
            }
            let a1 = state[u * width + l];
            let a2 = state[u * width + x];
            let a3 = state[u * width + r];
            let a4 = state[y * width + l];
            let a5 = state[y * width + r];
            let a6 = state[d * width + l];
            let a7 = state[d * width + x];
            let a8 = state[d * width + r];
            let mut sum: u64 = a1;
            proof {
                vstd::arithmetic::div_mod::lemma_small_mod(a1 as nat, 0x1_0000_0000_0000_0000nat);
                lemma_wrapping_add(a1 as int, a2);
            }
            sum = sum.wrapping_add(a2);
            proof { lemma_wrapping_add(a1 + a2, a3); }
            sum = sum.wrapping_add(a3);
            proof { lemma_wrapping_add(a1 + a2 + a3, a4); }
            sum = sum.wrapping_add(a4);
            proof { lemma_wrapping_add(a1 + a2 + a3 + a4, a5); }
            sum = sum.wrapping_add(a5);
            proof { lemma_wrapping_add(a1 + a2 + a3 + a4 + a5, a6); }
            sum = sum.wrapping_add(a6);
            proof { lemma_wrapping_add(a1 + a2 + a3 + a4 + a5 + a6, a7); }
            sum = sum.wrapping_add(a7);
            proof { lemma_wrapping_add(a1 + a2 + a3 + a4 + a5 + a6 + a7, a8); }
            sum = sum.wrapping_add(a8);
            let v = residue(state[y * width + x], sum);
            let ghost before = next@;
            next.push(v);
            proof {
                assert(next@[y * width + x] == v);
                assert forall|xx: int, yy: int|
                    0 <= xx < width && 0 <= yy < y implies residue.ensures(
                        (state@[yy * width + xx], moore_context(state@, width as int, height as int, xx, yy)),
                        #[trigger] next@[yy * width + xx],
                    ) by {
                    assert(yy * width + xx < y * width) by (nonlinear_arith)
                        requires
                            0 <= xx < width,
                            0 <= yy < y,
                    ;
                    assert(0 <= yy * width) by (nonlinear_arith)
                        requires
                            0 <= yy,
                            0 <= width,
                    ;
                    assert(next@[yy * width + xx] == before[yy * width + xx]);
                }
            }
            x = x + 1;
        }
        proof {
            assert((y + 1) * width == y * width + width) by (nonlinear_arith);
            assert forall|xx: int, yy: int|
                0 <= xx < width && 0 <= yy < y + 1 implies residue.ensures(
                    (state@[yy * width + xx], moore_context(state@, width as int, height as int, xx, yy)),
                    #[trigger] next@[yy * width + xx],
                ) by {
                if yy == y {
                } else {
                }
            }
        }
        y = y + 1;
    }
    proof {
        assert(height * width == width * height) by (nonlinear_arith);
    }
    next
}

/// The character that shows a cell's value: its last decimal digit picks one of
/// ten shades from blank to `@`.
pub open spec fn shade(v: u64) -> char {
    let d = v % 10;
    if d == 0 {
        ' '
    } else if d == 1 {
        '.'
    } else if d == 2 {
        ':'
    } else if d == 3 {
        '-'
    } else if d == 4 {
        '='
    } else if d == 5 {
        '+'
    } else if d == 6 {
        '*'
    } else if d == 7 {
        '#'
    } else if d == 8 {
        '%'
    } else {
        '@'
    }
}

fn shade_of(v: u64) -> (r: char)
    ensures
        r == shade(v),
{
    match v % 10 {
        0 => ' ',
        1 => '.',
        2 => ':',
        3 => '-',
        4 => '=',
        5 => '+',
        6 => '*',
        7 => '#',
        8 => '%',
        _ => '@',
    }
}

/// The cells drawn as characters, one per cell.
pub fn render(state: &Vec<u64>) -> (r: Vec<char>)
    ensures
        r@ == state@.map_values(|v: u64| shade(v)),
{
    let mut r: Vec<char> = Vec::new();
    let mut i: usize = 0;
    while i < state.len()
        invariant
            i <= state@.len(),
            r@ == state@.subrange(0, i as int).map_values(|v: u64| shade(v)),
        decreases state@.len() - i,
    {
        r.push(shade_of(state[i]));
        proof {
            assert(state@.subrange(0, i + 1).map_values(|v: u64| shade(v)) =~= state@.subrange(0, i as int).map_values(|v: u64| shade(v)).push(shade(state@[i as int])));
        }
        i = i + 1;
    }
    proof {
        assert(state@.subrange(0, state@.len() as int) =~= state@);
    }
    r
}

} // verus!
