use vstd::prelude::*;

verus! {

/// Two coordinates are adjacent when they differ by at most one in each
/// direction and are not the same cell (the 8-neighborhood).
pub open spec fn is_adjacent(x: int, y: int, u: int, v: int) -> bool {
    &&& -1 <= u - x <= 1
    &&& -1 <= v - y <= 1
    &&& !(u == x && v == y)
}

/// A coordinate list contains the pair `(u, v)`.
pub open spec fn coords_have(s: Seq<(usize, usize)>, u: int, v: int) -> bool {
    exists|k: int| 0 <= k < s.len() && (#[trigger] s[k]).0 == u && s[k].1 == v
}

pub proof fn lemma_coords_have_prefix(a: Seq<(usize, usize)>, b: Seq<(usize, usize)>, u: int, v: int)
    requires
        a.len() <= b.len(),
        forall|k: int| 0 <= k < a.len() ==> a[k] == b[k],
        coords_have(a, u, v),
    ensures
        coords_have(b, u, v),
{
    let k = choose|k: int| 0 <= k < a.len() && (#[trigger] a[k]).0 == u && a[k].1 == v;
    assert((b[k]).0 == u && b[k].1 == v);
}

pub proof fn lemma_coords_have_pop(prev: Seq<(usize, usize)>, cur: Seq<(usize, usize)>, u: int, v: int)
    requires
        prev.len() >= 1,
        cur == prev.subrange(0, prev.len() - 1),
        coords_have(prev, u, v),
    ensures
        coords_have(cur, u, v) || (prev[prev.len() - 1].0 == u && prev[prev.len() - 1].1 == v),
{
    let k = choose|k: int| 0 <= k < prev.len() && (#[trigger] prev[k]).0 == u && prev[k].1 == v;
    if k < prev.len() - 1 {
        assert(cur[k] == prev[k]);
    }
}

pub proof fn lemma_coords_have_append(a: Seq<(usize, usize)>, b: Seq<(usize, usize)>, u: int, v: int)
    requires
        coords_have(b, u, v),
    ensures
        coords_have(a + b, u, v),
{
    let k = choose|k: int| 0 <= k < b.len() && (#[trigger] b[k]).0 == u && b[k].1 == v;
    assert((a + b)[a.len() + k] == b[k]);
}

/// The in-bounds 8-neighborhood of `(x, y)` on a `width` x `height` grid:
/// every returned coordinate is in bounds and adjacent to `(x, y)`, and
/// every in-bounds adjacent coordinate is returned.
#[verifier::loop_isolation(false)]
pub fn neighbors(width: usize, height: usize, x: usize, y: usize) -> (r: Vec<(usize, usize)>)
    requires
        x < width,
        y < height,
    ensures
        r@.len() <= 8,
        forall|k: int| 0 <= k < r@.len() ==> (#[trigger] r@[k]).0 < width && r@[k].1 < height
            && is_adjacent(x as int, y as int, r@[k].0 as int, r@[k].1 as int),
        forall|u: int, v: int|
            0 <= u < width && 0 <= v < height && #[trigger] is_adjacent(x as int, y as int, u, v)
                ==> coords_have(r@, u, v),
{
    let xi: Ghost<int> = Ghost(x as int);
    let yi: Ghost<int> = Ghost(y as int);
    let xw = x as i128;
    let yw = y as i128;
    let mut cands: Vec<(i128, i128)> = Vec::new();
    cands.push((xw - 1, yw - 1));
    cands.push((xw, yw - 1));
    cands.push((xw + 1, yw - 1));
    cands.push((xw - 1, yw));
    cands.push((xw + 1, yw));
    cands.push((xw - 1, yw + 1));
    cands.push((xw, yw + 1));
    cands.push((xw + 1, yw + 1));
    proof {
        assert(cands@.len() == 8);
        assert(cands@[0].0 == xw - 1 && cands@[0].1 == yw - 1);
        assert(cands@[1].0 == xw && cands@[1].1 == yw - 1);
        assert(cands@[2].0 == xw + 1 && cands@[2].1 == yw - 1);
        assert(cands@[3].0 == xw - 1 && cands@[3].1 == yw);
        assert(cands@[4].0 == xw + 1 && cands@[4].1 == yw);
        assert(cands@[5].0 == xw - 1 && cands@[5].1 == yw + 1);
        assert(cands@[6].0 == xw && cands@[6].1 == yw + 1);
        assert(cands@[7].0 == xw + 1 && cands@[7].1 == yw + 1);
    }
    let mut r: Vec<(usize, usize)> = Vec::new();
    let mut k: usize = 0;
    while k < 8
        invariant
            k <= 8,
            cands@.len() == 8,
            x < width,
            y < height,
            xw == x as i128,
            yw == y as i128,
            xi@ == x as int,
            yi@ == y as int,
            forall|j: int| 0 <= j < 8 ==> is_adjacent(
                xi@,
                yi@,
                (#[trigger] cands@[j]).0 as int,
                cands@[j].1 as int,
            ),
            r@.len() <= k,
            forall|j: int| 0 <= j < r@.len() ==> (#[trigger] r@[j]).0 < width && r@[j].1 < height
                && is_adjacent(xi@, yi@, r@[j].0 as int, r@[j].1 as int),
            forall|j: int|
                0 <= j < k && 0 <= (#[trigger] cands@[j]).0 < width && 0 <= cands@[j].1 < height
                    ==> coords_have(r@, cands@[j].0 as int, cands@[j].1 as int),
        decreases 8 - k,
    {
        let c = cands[k];
        let ghost prev = r@;
        if c.0 >= 0 && c.0 < width as i128 && c.1 >= 0 && c.1 < height as i128 {
            r.push((c.0 as usize, c.1 as usize));
        }
        proof {
            assert forall|j: int|
                0 <= j < k + 1 && 0 <= (#[trigger] cands@[j]).0 < width && 0 <= cands@[j].1
                    < height implies coords_have(r@, cands@[j].0 as int, cands@[j].1 as int) by {
                if j < k {
                    lemma_coords_have_prefix(prev, r@, cands@[j].0 as int, cands@[j].1 as int);
                } else {
                    assert(r@[r@.len() - 1].0 == cands@[j].0 as int);
                }
            }
        }
        k = k + 1;
    }
    proof {
        assert forall|u: int, v: int|
            0 <= u < width && 0 <= v < height && #[trigger] is_adjacent(xi@, yi@, u, v)
                implies coords_have(r@, u, v) by {
            assert(u == xi@ - 1 || u == xi@ || u == xi@ + 1);
            assert(v == yi@ - 1 || v == yi@ || v == yi@ + 1);
            if u == xi@ - 1 && v == yi@ - 1 {
                assert(cands@[0].0 == xw - 1 && cands@[0].1 == yw - 1);
            } else if u == xi@ && v == yi@ - 1 {
                assert(cands@[1].0 == xw && cands@[1].1 == yw - 1);
            } else if u == xi@ + 1 && v == yi@ - 1 {
                assert(cands@[2].0 == xw + 1 && cands@[2].1 == yw - 1);
            } else if u == xi@ - 1 && v == yi@ {
                assert(cands@[3].0 == xw - 1 && cands@[3].1 == yw);
            } else if u == xi@ + 1 && v == yi@ {
                assert(cands@[4].0 == xw + 1 && cands@[4].1 == yw);
            } else if u == xi@ - 1 && v == yi@ + 1 {
                assert(cands@[5].0 == xw - 1 && cands@[5].1 == yw + 1);
            } else if u == xi@ && v == yi@ + 1 {
                assert(cands@[6].0 == xw && cands@[6].1 == yw + 1);
            } else {
                assert(u == xi@ + 1 && v == yi@ + 1);
                assert(cands@[7].0 == xw + 1 && cands@[7].1 == yw + 1);
            }
        }
    }
    r
}

} // verus!
