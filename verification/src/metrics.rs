//! The contract between the index and the distance kernel that its caller supplies.
//!
//! A kernel maps two equal-length vectors to a distance word. The index never looks
//! inside a vector; everything it decides, it decides by comparing distance words.
//!
//! A traversal asks of two words only whether the one is strictly [`nearer`] than
//! the other. Of the words of two numbers from 0 upward the smaller is the nearer.
//! A word that is not a number is nearer than none and none is nearer than it, so
//! that a traversal which meets one goes on as if the two were equally near.

use crate::node::NodeView;
use vstd::prelude::*;

verus! {

/// Whether `w` is the word of something that is not a number: in IEEE 754 single
/// precision, all exponent bits set and a fraction that is not zero, with either
/// sign.
pub open spec fn is_nan_word(w: u32) -> bool {
    (0x7F80_0000 < w && w <= 0x7FFF_FFFF) || 0xFF80_0000 < w
}

/// Whether the distance word `a` is strictly nearer than `b`: both are words of
/// numbers and `a` is the smaller. A word that is not a number is neither nearer
/// nor farther than any word.
pub open spec fn nearer(a: u32, b: u32) -> bool {
    !is_nan_word(a) && !is_nan_word(b) && a < b
}

/// Tells whether `w` is the word of something that is not a number.
pub fn is_nan(w: u32) -> (r: bool)
    ensures
        r == is_nan_word(w),
{
    (0x7F80_0000 < w && w <= 0x7FFF_FFFF) || 0xFF80_0000 < w
}

/// Tells whether the distance word `a` is strictly nearer than `b`.
pub fn is_nearer(a: u32, b: u32) -> (r: bool)
    ensures
        r == nearer(a, b),
{
    !is_nan(a) && !is_nan(b) && a < b
}

/// The kernel accepts every pair of vectors of equal length.
pub open spec fn kernel_total<K: Fn(&Vec<u32>, &Vec<u32>) -> u32>(kernel: &K) -> bool {
    forall|a: &Vec<u32>, b: &Vec<u32>|
        a@.len() == b@.len() ==> #[trigger] call_requires(*kernel, (a, b))
}

/// The kernel's result depends on the contents of its two arguments and on nothing else.
pub open spec fn kernel_pure<K: Fn(&Vec<u32>, &Vec<u32>) -> u32>(kernel: &K) -> bool {
    forall|a1: &Vec<u32>, b1: &Vec<u32>, r1: u32, a2: &Vec<u32>, b2: &Vec<u32>, r2: u32|
        #![trigger call_ensures(*kernel, (a1, b1), r1), call_ensures(*kernel, (a2, b2), r2)]
        a1@ == a2@ && b1@ == b2@ && call_ensures(*kernel, (a1, b1), r1) && call_ensures(
            *kernel,
            (a2, b2),
            r2,
        ) ==> r1 == r2
}

/// What a usable kernel is: total on equal lengths, and a function of the contents.
pub open spec fn kernel_ok<K: Fn(&Vec<u32>, &Vec<u32>) -> u32>(kernel: &K) -> bool {
    kernel_total(kernel) && kernel_pure(kernel)
}

/// Whether `r` is a result that the kernel can give for vectors holding `a` and `b`.
pub open spec fn kernel_gives<K: Fn(&Vec<u32>, &Vec<u32>) -> u32>(
    kernel: &K,
    a: Seq<u32>,
    b: Seq<u32>,
    r: u32,
) -> bool {
    exists|va: &Vec<u32>, vb: &Vec<u32>|
        va@ == a && vb@ == b && #[trigger] call_ensures(*kernel, (va, vb), r)
}

/// The distance word of the vectors holding `a` and `b` under `kernel`.
pub open spec fn distance<K: Fn(&Vec<u32>, &Vec<u32>) -> u32>(
    kernel: &K,
    a: Seq<u32>,
    b: Seq<u32>,
) -> u32 {
    choose|r: u32| kernel_gives(kernel, a, b, r)
}

/// The table of the distance words from `query` to each node, position by position.
pub open spec fn distances<K: Fn(&Vec<u32>, &Vec<u32>) -> u32>(
    kernel: &K,
    query: Seq<u32>,
    nodes: Seq<NodeView>,
) -> Seq<u32> {
    Seq::new(nodes.len(), |i: int| distance(kernel, query, nodes[i].vector))
}

/// Runs the kernel on two vectors of equal length.
pub fn compute_distance<K: Fn(&Vec<u32>, &Vec<u32>) -> u32>(
    kernel: &K,
    a: &Vec<u32>,
    b: &Vec<u32>,
) -> (r: u32)
    requires
        kernel_ok(kernel),
        a@.len() == b@.len(),
    ensures
        r == distance(kernel, a@, b@),
{
    let r = kernel(a, b);
    proof {
        assert(kernel_gives(kernel, a@, b@, r));
        let m = distance(kernel, a@, b@);
        assert(kernel_gives(kernel, a@, b@, m));
    }
    r
}

} // verus!
