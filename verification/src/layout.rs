//! Vertex buffers: the z-y-x / x-y-z reordering of flat coordinate triples,
//! and the checks a projection makes on its inputs (on binary32 encodings).

use vstd::prelude::*;
use crate::binary32::{is_finite, is_positive, spec_is_finite, spec_is_positive};
use crate::grid::all_finite;

verus! {

/// `r` is `v`'s whole triples, each with its first and third element
/// exchanged (z-y-x to x-y-z and back).
pub open spec fn is_reordered<T>(v: Seq<T>, r: Seq<T>) -> bool {
    &&& r.len() == 3 * (v.len() / 3)
    &&& forall|i: int| #![trigger r[3 * i]] 0 <= i < v.len() / 3 ==> {
        &&& r[3 * i] == v[3 * i + 2]
        &&& r[3 * i + 1] == v[3 * i + 1]
        &&& r[3 * i + 2] == v[3 * i]
    }
}

/// Element `k` of the reordering: the element of the same triple at the
/// mirrored position.
pub open spec fn mirrored_index(k: int) -> int {
    k - k % 3 + (2 - k % 3)
}

/// The per-element reading of `is_reordered`.
pub proof fn lemma_reordered_elements<T>(v: Seq<T>, r: Seq<T>)
    requires
        is_reordered(v, r),
    ensures
        forall|k: int| 0 <= k < r.len() ==> #[trigger] r[k] == v[mirrored_index(k)],
{
    assert forall|k: int| 0 <= k < r.len() implies #[trigger] r[k] == v[mirrored_index(k)] by {
        let i = k / 3;
        assert(k == 3 * i + k % 3);
        assert(i < v.len() / 3) by (nonlinear_arith)
            requires k < r.len(), r.len() == 3 * (v.len() / 3), i == k / 3, k >= 0;
        assert(r[3 * i] == v[3 * i + 2]);
    }
}

/// Exchange the first and third element of every whole triple of `v`; a
/// trailing partial triple is dropped.
pub fn reverse_triples<T: Copy>(v: &[T]) -> (r: Vec<T>)
    ensures
        is_reordered(v@, r@),
        forall|k: int| 0 <= k < r@.len() ==> #[trigger] r@[k] == v@[mirrored_index(k)],
{
    let n = v.len() / 3;
    let mut r: Vec<T> = Vec::new();
    let mut i: usize = 0;
    while i < n
        invariant
            i <= n == v@.len() / 3,
            v@.len() == v.len(),
            r@.len() == 3 * i,
            forall|j: int| #![trigger r@[3 * j]] 0 <= j < i ==> {
                &&& r@[3 * j] == v@[3 * j + 2]
                &&& r@[3 * j + 1] == v@[3 * j + 1]
                &&& r@[3 * j + 2] == v@[3 * j]
            },
        decreases n - i,
    {
        let len = v.len();
        assert(3 * i + 3 <= len) by (nonlinear_arith)
            requires i < len / 3;
        let base = 3 * i;
        let ghost prev = r@;
        r.push(v[base + 2]);
        r.push(v[base + 1]);
        r.push(v[base]);
        assert forall|j: int| #![trigger r@[3 * j]] 0 <= j < i + 1 implies {
            &&& r@[3 * j] == v@[3 * j + 2]
            &&& r@[3 * j + 1] == v@[3 * j + 1]
            &&& r@[3 * j + 2] == v@[3 * j]
        } by {
            if j < i {
                assert(r@[3 * j] == prev[3 * j]);
                assert(r@[3 * j + 1] == prev[3 * j + 1]);
                assert(r@[3 * j + 2] == prev[3 * j + 2]);
            }
        }
        i += 1;
    }
    proof {
        lemma_reordered_elements(v@, r@);
    }
    r
}

/// The whole triples of `v`, each as an array with its first and third
/// element exchanged.
pub fn reversed_triple_array<T: Copy>(v: &[T]) -> (r: Vec<[T; 3]>)
    ensures
        r@.len() == v@.len() / 3,
        forall|i: int| 0 <= i < r@.len() ==> #[trigger] r@[i] == [v@[3 * i + 2], v@[3 * i + 1], v@[3 * i]],
{
    let n = v.len() / 3;
    let mut r: Vec<[T; 3]> = Vec::new();
    let mut i: usize = 0;
    while i < n
        invariant
            i <= n == v@.len() / 3,
            v@.len() == v.len(),
            r@.len() == i,
            forall|j: int| 0 <= j < i ==> #[trigger] r@[j] == [v@[3 * j + 2], v@[3 * j + 1], v@[3 * j]],
        decreases n - i,
    {
        let len = v.len();
        assert(3 * i + 3 <= len) by (nonlinear_arith)
            requires i < len / 3;
        let base = 3 * i;
        r.push([v[base + 2], v[base + 1], v[base]]);
        i += 1;
    }
    r
}

/// Reordering twice gives the buffer back.
pub proof fn lemma_reorder_twice<T>(v: Seq<T>, r: Seq<T>, w: Seq<T>)
    requires
        v.len() % 3 == 0,
        is_reordered(v, r),
        is_reordered(r, w),
    ensures
        w == v,
{
    assert(r.len() / 3 == v.len() / 3);
    assert forall|k: int| 0 <= k < v.len() implies w[k] == v[k] by {
        let i = k / 3;
        assert(r[3 * i] == v[3 * i + 2]);
        assert(w[3 * i] == r[3 * i + 2]);
    }
    assert(w =~= v);
}

/// Why the input of one production pass is refused, in check order.
pub open spec fn one_pass_fault(vertices: Seq<u32>, radius: u32, cell_origin: [u32; 3]) -> Option<&'static str> {
    if vertices.len() == 0 || vertices.len() % 3 != 0 {
        Some("vertices must contain one or more zyx triples")
    } else if !all_finite(vertices) {
        Some("vertices contain a non-finite value")
    } else if !spec_is_positive(radius) {
        Some("radius must be finite and > 0")
    } else if !(spec_is_finite(cell_origin[0]) && spec_is_finite(cell_origin[1]) && spec_is_finite(cell_origin[2])) {
        Some("cell_origin contains a non-finite value")
    } else {
        None
    }
}

/// Why the input of a fixed-support projection is refused, in check order.
/// With `allow_empty` an empty buffer passes the shape check (the public
/// entry point), without it an empty buffer is refused.
pub open spec fn projection_fault(vertices: Seq<u32>, radius: u32, allow_empty: bool) -> Option<&'static str> {
    if allow_empty && vertices.len() % 3 != 0 {
        Some("vertices must be flat xyz triples")
    } else if !allow_empty && (vertices.len() == 0 || vertices.len() % 3 != 0) {
        Some("vertices must contain one or more flat xyz triples")
    } else if !spec_is_positive(radius) {
        Some("radius must be finite and > 0")
    } else if !all_finite(vertices) {
        Some("vertices contain a non-finite value")
    } else {
        None
    }
}

/// Whether every encoding is finite.
fn all_values_finite(s: &[u32]) -> (r: bool)
    ensures
        r == all_finite(s@),
{
    let mut i: usize = 0;
    while i < s.len()
        invariant
            i <= s@.len(),
            forall|k: int| 0 <= k < i ==> #[trigger] spec_is_finite(s@[k]),
        decreases s@.len() - i,
    {
        if !is_finite(s[i]) {
            assert(!spec_is_finite(s@[i as int]));
            return false;
        }
        i += 1;
    }
    true
}

/// Check the input of one production pass (z-y-x vertices, radius and cell
/// origin, as binary32 encodings); the message of the first failed check.
pub fn check_one_pass_input(vertices: &[u32], radius: u32, cell_origin: [u32; 3]) -> (r: Option<&'static str>)
    ensures
        r == one_pass_fault(vertices@, radius, cell_origin),
{
    if vertices.len() == 0 || vertices.len() % 3 != 0 {
        return Some("vertices must contain one or more zyx triples");
    }
    if !all_values_finite(vertices) {
        return Some("vertices contain a non-finite value");
    }
    if !is_positive(radius) {
        return Some("radius must be finite and > 0");
    }
    if !is_finite(cell_origin[0]) || !is_finite(cell_origin[1]) || !is_finite(cell_origin[2]) {
        return Some("cell_origin contains a non-finite value");
    }
    None
}

/// Check the input of a fixed-support projection (x-y-z vertices and radius,
/// as binary32 encodings); the message of the first failed check.
pub fn check_projection_input(vertices: &[u32], radius: u32, allow_empty: bool) -> (r: Option<&'static str>)
    ensures
        r == projection_fault(vertices@, radius, allow_empty),
{
    if allow_empty && vertices.len() % 3 != 0 {
        return Some("vertices must be flat xyz triples");
    }
    if !allow_empty && (vertices.len() == 0 || vertices.len() % 3 != 0) {
        return Some("vertices must contain one or more flat xyz triples");
    }
    if !is_positive(radius) {
        return Some("radius must be finite and > 0");
    }
    if !all_values_finite(vertices) {
        return Some("vertices contain a non-finite value");
    }
    None
}

/// What a failed projection leaves in a vertex output of `count` values:
/// the input when it has exactly that length, `zero` everywhere otherwise.
pub fn failure_vertices<T: Copy>(input: &[T], count: usize, zero: T) -> (r: Vec<T>)
    ensures
        input@.len() == count ==> r@ == input@,
        input@.len() != count ==> r@ == Seq::new(count as nat, |i: int| zero),
{
    let same = input.len() == count;
    let mut r: Vec<T> = Vec::new();
    let mut i: usize = 0;
    while i < count
        invariant
            i <= count,
            same == (input@.len() == count),
            r@.len() == i,
            same ==> r@ == input@.take(i as int),
            !same ==> r@ == Seq::new(i as nat, |k: int| zero),
        decreases count - i,
    {
        if same {
            r.push(input[i]);
            assert(r@ =~= input@.take(i + 1));
        } else {
            r.push(zero);
            assert(r@ =~= Seq::new((i + 1) as nat, |k: int| zero));
        }
        i += 1;
    }
    assert(same ==> r@ =~= input@);
    r
}

} // verus!
