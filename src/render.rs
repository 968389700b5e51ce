//! The last pipeline stage: depth-tested writes of shaded fragments, with
//! fragments beyond the far plane discarded.

use crate::framebuffer::{lemma_writes_commute, Color, FrameView, Framebuffer};
use crate::raster::Fragment;
use vstd::prelude::*;

verus! {

/// The buffer after the first `n` fragments are taken in order: a fragment
/// deeper than `far` is discarded, any other is written with its color
/// through the depth test.
pub open spec fn write_all(
    v: FrameView,
    frags: Seq<Fragment>,
    colors: Seq<Color>,
    far: i64,
    n: int,
) -> FrameView
    decreases n,
{
    if n <= 0 {
        v
    } else if frags[n - 1].depth > far {
        write_all(v, frags, colors, far, n - 1)
    } else {
        write_all(v, frags, colors, far, n - 1).write(
            frags[n - 1].x as int,
            frags[n - 1].y as int,
            frags[n - 1].depth,
            colors[n - 1],
        )
    }
}

/// Fragments that all lie beyond the far plane leave the buffer unchanged.
pub proof fn lemma_beyond_far_leaves_buffer(
    v: FrameView,
    frags: Seq<Fragment>,
    colors: Seq<Color>,
    far: i64,
    n: int,
)
    requires
        n <= frags.len(),
        forall|k: int| 0 <= k < n ==> #[trigger] frags[k].depth > far,
    ensures
        write_all(v, frags, colors, far, n) == v,
    decreases n,
{
    if n > 0 {
        assert(frags[n - 1].depth > far);
        lemma_beyond_far_leaves_buffer(v, frags, colors, far, n - 1);
    }
}

/// Drawing two fragments that differ in pixel or in depth gives the same
/// buffer in either order.
pub proof fn lemma_draw_order_independent(
    v: FrameView,
    f: Fragment,
    cf: Color,
    g: Fragment,
    cg: Color,
    far: i64,
)
    requires
        v.wf(),
        f.x != g.x || f.y != g.y || f.depth != g.depth,
    ensures
        write_all(v, seq![f, g], seq![cf, cg], far, 2) == write_all(
            v,
            seq![g, f],
            seq![cg, cf],
            far,
            2,
        ),
{
    let s1 = seq![f, g];
    let s2 = seq![g, f];
    let k1 = seq![cf, cg];
    let k2 = seq![cg, cf];
    assert(s1[0] == f && s1[1] == g && s2[0] == g && s2[1] == f);
    assert(k1[0] == cf && k1[1] == cg && k2[0] == cg && k2[1] == cf);
    reveal_with_fuel(write_all, 3);
    if f.depth <= far && g.depth <= far {
        lemma_writes_commute(
            v,
            f.x as int,
            f.y as int,
            f.depth,
            cf,
            g.x as int,
            g.y as int,
            g.depth,
            cg,
        );
    }
}

/// Writes each fragment no deeper than `far_depth` with its color through
/// the depth test, in order, and discards the others.
pub fn draw_fragments(fb: &mut Framebuffer, frags: &Vec<Fragment>, colors: &Vec<Color>, far_depth: i64)
    requires
        old(fb).wf(),
        frags.len() == colors.len(),
    ensures
        final(fb).wf(),
        final(fb)@ == write_all(old(fb)@, frags@, colors@, far_depth, frags.len() as int),
{
    let mut i: usize = 0;
    while i < frags.len()
        invariant
            fb.wf(),
            i <= frags.len(),
            frags.len() == colors.len(),
            fb@ == write_all(old(fb)@, frags@, colors@, far_depth, i as int),
        decreases frags.len() - i,
    {
        let f = frags[i];
        if f.depth <= far_depth {
            fb.point(f.x, f.y, f.depth, colors[i]);
        }
        i = i + 1;
    }
}

} // verus!
