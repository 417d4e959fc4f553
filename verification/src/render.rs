//! The ordered-output core of the tiled rendering pipeline.
//!
//! Workers finish pixels in any order; the aggregator writes each
//! message into a framebuffer cell and, only once every pixel has
//! arrived, emits the image in the fixed top-to-bottom, left-to-right
//! order.  `assemble` is that aggregation as a function of the message
//! sequence, and the order-independence law states that any two
//! duplicate-free arrival orders of the same messages produce the same
//! image.

use vstd::prelude::*;

verus! {

use crate::utils::PixelInfo;
use crate::vec3::Vec3;
use crate::SCALE;

/// The colour of pixel `(u, v)` after the first `k` messages: the last
/// message for that cell wins.
pub open spec fn pixel_at(msgs: Seq<PixelInfo>, k: int, u: int, v: int) -> Option<Vec3>
    decreases k,
{
    if k <= 0 || k > msgs.len() {
        None
    } else if msgs[k - 1].u == u && msgs[k - 1].v == v {
        Some(msgs[k - 1].color)
    } else {
        pixel_at(msgs, k - 1, u, v)
    }
}

/// No two messages address the same pixel.
pub open spec fn distinct_keys(msgs: Seq<PixelInfo>) -> bool {
    forall|i: int, j: int|
        0 <= i < j < msgs.len() ==> !(#[trigger] msgs[i].u == #[trigger] msgs[j].u && msgs[i].v
            == msgs[j].v)
}

/// Every message addresses a pixel of the image.
pub open spec fn keys_in_range(msgs: Seq<PixelInfo>, width: int, height: int) -> bool {
    forall|i: int|
        0 <= i < msgs.len() ==> (#[trigger] msgs[i]).u < width && msgs[i].v < height
}

/// A reported pixel colour comes from a message for that cell.
proof fn lemma_pixel_at_member(msgs: Seq<PixelInfo>, k: int, u: int, v: int)
    requires
        pixel_at(msgs, k, u, v) is Some,
        k <= msgs.len(),
    ensures
        exists|i: int|
            0 <= i < k && (#[trigger] msgs[i]).u == u && msgs[i].v == v && msgs[i].color
                == pixel_at(msgs, k, u, v)->0,
    decreases k,
{
    if k <= 0 || k > msgs.len() {
    } else if msgs[k - 1].u == u && msgs[k - 1].v == v {
        assert(msgs[k - 1].u == u && msgs[k - 1].v == v && msgs[k - 1].color == pixel_at(
            msgs,
            k,
            u,
            v,
        )->0);
    } else {
        lemma_pixel_at_member(msgs, k - 1, u, v);
    }
}

/// With duplicate-free keys, any message for a cell decides that
/// cell's colour.
proof fn lemma_pixel_at_of_member(msgs: Seq<PixelInfo>, k: int, u: int, v: int, i: int)
    requires
        distinct_keys(msgs),
        0 <= i < k <= msgs.len(),
        msgs[i].u == u,
        msgs[i].v == v,
    ensures
        pixel_at(msgs, k, u, v) == Some(msgs[i].color),
    decreases k,
{
    if i == k - 1 {
    } else {
        assert(!(msgs[i].u == msgs[k - 1].u && msgs[i].v == msgs[k - 1].v));
        lemma_pixel_at_of_member(msgs, k - 1, u, v, i);
    }
}

/// Pipeline ordering: two duplicate-free arrival orders of the same
/// finished-pixel messages give every cell the same colour, so the
/// emitted image does not depend on worker scheduling.
pub proof fn lemma_assemble_order_independent(
    m1: Seq<PixelInfo>,
    m2: Seq<PixelInfo>,
    u: int,
    v: int,
)
    requires
        distinct_keys(m1),
        distinct_keys(m2),
        m1.to_multiset() == m2.to_multiset(),
    ensures
        pixel_at(m1, m1.len() as int, u, v) == pixel_at(m2, m2.len() as int, u, v),
{
    broadcast use vstd::seq_lib::group_to_multiset_ensures;

    let p1 = pixel_at(m1, m1.len() as int, u, v);
    let p2 = pixel_at(m2, m2.len() as int, u, v);
    if p1 is Some {
        lemma_pixel_at_member(m1, m1.len() as int, u, v);
        let i = choose|i: int|
            0 <= i < m1.len() && (#[trigger] m1[i]).u == u && m1[i].v == v && m1[i].color == p1->0;
        assert(m1.contains(m1[i]));
        assert(m1.to_multiset().count(m1[i]) > 0);
        assert(m2.to_multiset().count(m1[i]) > 0);
        assert(m2.contains(m1[i]));
        let j = choose|j: int| 0 <= j < m2.len() && m2[j] == m1[i];
        lemma_pixel_at_of_member(m2, m2.len() as int, u, v, j);
    }
    if p2 is Some {
        lemma_pixel_at_member(m2, m2.len() as int, u, v);
        let i = choose|i: int|
            0 <= i < m2.len() && (#[trigger] m2[i]).u == u && m2[i].v == v && m2[i].color == p2->0;
        assert(m2.contains(m2[i]));
        assert(m2.to_multiset().count(m2[i]) > 0);
        assert(m1.to_multiset().count(m2[i]) > 0);
        assert(m1.contains(m2[i]));
        let j = choose|j: int| 0 <= j < m1.len() && m1[j] == m2[i];
        lemma_pixel_at_of_member(m1, m1.len() as int, u, v, j);
    }
}

/// Replays the finished-pixel messages into a framebuffer and, if
/// every pixel of the image arrived, emits the flat image in
/// top-to-bottom, left-to-right order; reports `None` if any pixel
/// never arrived.  Cells hold white until their pixel arrives.
pub fn assemble(width: usize, height: usize, msgs: &Vec<PixelInfo>) -> (res: Option<Vec<Vec3>>)
    requires
        width * height <= 0x10000000,
        width > 0,
        height > 0,
        keys_in_range(msgs@, width as int, height as int),
    ensures
        (res is Some) == (forall|u: int, v: int|
            0 <= u < width && 0 <= v < height ==> pixel_at(
                msgs@,
                msgs@.len() as int,
                u,
                v,
            ) is Some),
        res matches Some(out) ==> out@.len() == width * height && (forall|u: int, v: int|
            0 <= u < width && 0 <= v < height ==> out@[(height - 1 - v) * width + u] == pixel_at(
                msgs@,
                msgs@.len() as int,
                u,
                v,
            )->0),
{
    let n = width * height;
    let white = Vec3 { x: SCALE, y: SCALE, z: SCALE };
    let mut buf: Vec<Vec3> = Vec::new();
    let mut filled: Vec<bool> = Vec::new();
    let mut i: usize = 0;
    while i < n
        invariant
            buf@.len() == i,
            filled@.len() == i,
            i <= n,
            n == width * height,
            forall|k: int| 0 <= k < i ==> !(#[trigger] filled@[k]),
        decreases n - i,
    {
        buf.push(white);
        filled.push(false);
        i = i + 1;
    }
    proof {
        assert forall|u: int, v: int| 0 <= u < width && 0 <= v < height implies (
        #[trigger] filled@[v * width + u]) == (pixel_at(msgs@, 0, u, v) is Some) by {
            lemma_cell_bounds(u, v, width as int, height as int);
        }
        assert forall|u: int, v: int|
            0 <= u < width && 0 <= v < height && filled@[v * width + u] implies #[trigger] buf@[v
            * width + u] == pixel_at(msgs@, 0, u, v)->0 by {
            lemma_cell_bounds(u, v, width as int, height as int);
        }
    }
    let mut k: usize = 0;
    while k < msgs.len()
        invariant
            buf@.len() == n,
            filled@.len() == n,
            n == width * height,
            width > 0,
            height > 0,
            width * height <= 0x10000000,
            k <= msgs@.len(),
            keys_in_range(msgs@, width as int, height as int),
            forall|u: int, v: int|
                0 <= u < width && 0 <= v < height ==> (#[trigger] filled@[v * width + u])
                    == (pixel_at(msgs@, k as int, u, v) is Some),
            forall|u: int, v: int|
                0 <= u < width && 0 <= v < height && filled@[v * width + u] ==> #[trigger] buf@[v
                    * width + u] == pixel_at(msgs@, k as int, u, v)->0,
        decreases msgs@.len() - k,
    {
        let m = msgs[k];
        proof {
            assert(msgs@[k as int].u < width && msgs@[k as int].v < height);
            lemma_cell_bounds(m.u as int, m.v as int, width as int, height as int);
        }
        let idx = m.v * width + m.u;
        buf.set(idx, m.color);
        filled.set(idx, true);
        proof {
            assert forall|u: int, v: int|
                0 <= u < width && 0 <= v < height implies (#[trigger] filled@[v * width + u]) == (
            pixel_at(msgs@, k + 1, u, v) is Some) by {
                lemma_cell_distinct(u, v, m.u as int, m.v as int, width as int, height as int);
            }
            assert forall|u: int, v: int|
                0 <= u < width && 0 <= v < height && filled@[v * width + u] implies #[trigger] buf@[v
                * width + u] == pixel_at(msgs@, k + 1, u, v)->0 by {
                lemma_cell_distinct(u, v, m.u as int, m.v as int, width as int, height as int);
            }
        }
        k = k + 1;
    }
    let mut complete = true;
    let mut j: usize = 0;
    while j < n
        invariant
            filled@.len() == n,
            j <= n,
            n == width * height,
            complete == (forall|t: int| 0 <= t < j ==> #[trigger] filled@[t]),
        decreases n - j,
    {
        if !filled[j] {
            complete = false;
        }
        j = j + 1;
    }
    if !complete {
        proof {
            let t = choose|t: int| 0 <= t < n && !(#[trigger] filled@[t]);
            let v = t / width as int;
            let u = t % width as int;
            vstd::arithmetic::div_mod::lemma_fundamental_div_mod(t, width as int);
            assert(0 <= u < width && 0 <= v < height) by (nonlinear_arith)
                requires
                    t == (width as int) * v + u,
                    0 <= u < width,
                    0 <= t < (width as int) * (height as int),
                    width > 0,
                    height > 0,
            {}
            assert(!filled@[v * width as int + u]);
        }
        return None;
    }
    let mut out: Vec<Vec3> = Vec::new();
    let mut vout: usize = 0;
    while vout < height
        invariant
            buf@.len() == n,
            filled@.len() == n,
            n == width * height,
            width > 0,
            height > 0,
            width * height <= 0x10000000,
            vout <= height,
            out@.len() == vout * width,
            keys_in_range(msgs@, width as int, height as int),
            forall|u: int, v: int|
                0 <= u < width && 0 <= v < height ==> (#[trigger] filled@[v * width + u]) == (
                pixel_at(msgs@, msgs@.len() as int, u, v) is Some),
            forall|u: int, v: int|
                0 <= u < width && 0 <= v < height && filled@[v * width + u] ==> #[trigger] buf@[v
                    * width + u] == pixel_at(msgs@, msgs@.len() as int, u, v)->0,
            forall|t: int| 0 <= t < n ==> #[trigger] filled@[t],
            forall|u: int, vv: int|
                0 <= u < width && 0 <= vv < vout ==> #[trigger] out@[vv * width + u] == buf@[(height
                    - 1 - vv) * width + u],
        decreases height - vout,
    {
        let vsrc = height - 1 - vout;
        let mut u: usize = 0;
        while u < width
            invariant
                buf@.len() == n,
                n == width * height,
                width > 0,
                height > 0,
                width * height <= 0x10000000,
                vout < height,
                vsrc == height - 1 - vout,
                u <= width,
                out@.len() == vout * width + u,
                forall|uu: int, vv: int|
                    0 <= uu < width && 0 <= vv < vout ==> #[trigger] out@[vv * width + uu] == buf@[(
                    height - 1 - vv) * width + uu],
                forall|uu: int|
                    0 <= uu < u ==> #[trigger] out@[vout * width + uu] == buf@[vsrc * width + uu],
            decreases width - u,
        {
            proof {
                lemma_cell_bounds(u as int, vsrc as int, width as int, height as int);
            }
            let c = buf[vsrc * width + u];
            out.push(c);
            proof {
                assert forall|uu: int, vv: int|
                    0 <= uu < width && 0 <= vv < vout implies #[trigger] out@[vv * width + uu]
                    == buf@[(height - 1 - vv) * width + uu] by {
                    lemma_cell_bounds(uu, vv, width as int, vout as int);
                    assert((width as int) * (vout as int) == (vout as int) * (width as int))
                        by (nonlinear_arith) {}
                }
            }
            u = u + 1;
        }
        proof {
            assert((vout + 1) * width == vout * width + width && (width as int) * (vout as int + 1)
                == vout * width + width) by (nonlinear_arith) {}
            assert forall|uu: int, vv: int|
                0 <= uu < width && 0 <= vv < vout + 1 implies #[trigger] out@[vv * width + uu]
                == buf@[(height - 1 - vv) * width + uu] by {
                lemma_cell_bounds(uu, vv, width as int, vout as int + 1);
                lemma_cell_bounds(uu, height - 1 - vv, width as int, height as int);
            }
        }
        vout = vout + 1;
    }
    proof {
        assert((height as int) * (width as int) == (width as int) * (height as int))
            by (nonlinear_arith) {}
        assert forall|u: int, v: int| 0 <= u < width && 0 <= v < height implies out@[(height - 1 - v)
            * width + u] == pixel_at(msgs@, msgs@.len() as int, u, v)->0 by {
            let vv = height - 1 - v;
            lemma_cell_bounds(u, vv, width as int, height as int);
            lemma_cell_bounds(u, v, width as int, height as int);
            assert(out@[vv * width + u] == buf@[(height - 1 - vv) * width + u]);
        }
        assert forall|u: int, v: int| 0 <= u < width && 0 <= v < height implies pixel_at(
            msgs@,
            msgs@.len() as int,
            u,
            v,
        ) is Some by {
            lemma_cell_bounds(u, v, width as int, height as int);
            assert(filled@[v * width + u]);
        }
    }
    Some(out)
}

/// The flat index of a cell is inside the buffer, and distinct cells
/// have distinct indices.
proof fn lemma_cell_bounds(u: int, v: int, width: int, height: int)
    requires
        0 <= u < width,
        0 <= v < height,
    ensures
        0 <= v * width + u < width * height,
{
    assert(0 <= v * width + u < width * height) by (nonlinear_arith)
        requires
            0 <= u < width,
            0 <= v < height,
    {}
}

/// Cell indices collide only for the same cell.
proof fn lemma_cell_distinct(u1: int, v1: int, u2: int, v2: int, width: int, height: int)
    requires
        0 <= u1 < width,
        0 <= v1 < height,
        0 <= u2 < width,
        0 <= v2 < height,
    ensures
        (v1 * width + u1 == v2 * width + u2) == (u1 == u2 && v1 == v2),
        0 <= v1 * width + u1 < width * height,
        0 <= v2 * width + u2 < width * height,
{
    lemma_cell_bounds(u1, v1, width, height);
    lemma_cell_bounds(u2, v2, width, height);
    assert((v1 * width + u1 == v2 * width + u2) == (u1 == u2 && v1 == v2)) by (nonlinear_arith)
        requires
            0 <= u1 < width,
            0 <= v1 < height,
            0 <= u2 < width,
            0 <= v2 < height,
    {}
}

} // verus!
