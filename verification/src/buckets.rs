//! Neighbourhood searches on a grid: the cells of a clipped square (or cube)
//! window, and the spatial hash that buckets particles by cell so that each
//! particle meets only the particles of nearby buckets.

use vstd::prelude::*;
use crate::grid::{flat2, flat3, lemma_flat2_injective, lemma_flat3_injective};

verus! {

/// First index, along one axis of length `n`, of the window of half-width
/// `span` centred on `c`.
pub open spec fn win_lo(c: int, span: int) -> int {
    if c - span > 0 {
        c - span
    } else {
        0
    }
}

/// Number of indices, along one axis of length `n`, that the window of
/// half-width `span` centred on `c` keeps: those `x` with
/// `|x - c| <= span` and `0 <= x < n`.
pub open spec fn win_len(c: int, span: int, n: int) -> int {
    let hi = if c + span + 1 < n {
        c + span + 1
    } else {
        n
    };
    if hi > win_lo(c, span) {
        hi - win_lo(c, span)
    } else {
        0
    }
}

/// `x` lies in the window of half-width `span` centred on `c` along an axis
/// of length `n`.
pub open spec fn in_window(x: int, c: int, span: int, n: int) -> bool {
    -span <= x - c <= span && 0 <= x < n
}

/// Start and length of the window of half-width `span` around `c` on an
/// axis of length `n`.
fn axis_window(c: i32, span: i32, n: usize) -> (r: (usize, usize))
    ensures
        r.1 == win_len(c as int, span as int, n as int),
        r.1 > 0 ==> r.0 == win_lo(c as int, span as int),
        r.0 + r.1 <= n,
{
    let s = span as i64;
    let lo64: i64 = if c as i64 - s > 0 {
        c as i64 - s
    } else {
        0
    };
    let hi64: i64 = c as i64 + s + 1;
    if hi64 <= lo64 {
        return (0, 0);
    }
    let lo = lo64 as usize;
    let h = hi64 as usize;
    let hi = if h < n {
        h
    } else {
        n
    };
    if hi > lo {
        (lo, hi - lo)
    } else {
        (0, 0)
    }
}

/// The cells `(i, j)` of a `w` by `h` grid within `span` of `(ci, cj)` along
/// both axes, row by row (`i` fastest). The window is the rectangle that
/// starts at `(win_lo(ci), win_lo(cj))`.
pub fn window_cells(ci: i32, cj: i32, span: i32, w: usize, h: usize) -> (r: Vec<(usize, usize)>)
    ensures
        r.len() == win_len(ci as int, span as int, w as int) * win_len(
            cj as int,
            span as int,
            h as int,
        ),
        forall|a: int, b: int|
            0 <= a < win_len(ci as int, span as int, w as int) && 0 <= b < win_len(
                cj as int,
                span as int,
                h as int,
            ) ==> #[trigger] r@[flat2(a, b, win_len(ci as int, span as int, w as int))] == (
                (win_lo(ci as int, span as int) + a) as usize,
                (win_lo(cj as int, span as int) + b) as usize,
            ),
{
    let (lo_i, wx) = axis_window(ci, span, w);
    let (lo_j, wy) = axis_window(cj, span, h);
    let mut out: Vec<(usize, usize)> = Vec::new();
    let mut b: usize = 0;
    while b < wy
        invariant
            lo_i + wx <= w,
            lo_j + wy <= h,
            wx == win_len(ci as int, span as int, w as int),
            wy == win_len(cj as int, span as int, h as int),
            wx > 0 ==> lo_i == win_lo(ci as int, span as int),
            wy > 0 ==> lo_j == win_lo(cj as int, span as int),
            b <= wy,
            out.len() == wx * b,
            forall|a2: int, b2: int|
                0 <= a2 < wx && 0 <= b2 < b ==> #[trigger] out@[flat2(a2, b2, wx as int)] == (
                    (lo_i + a2) as usize,
                    (lo_j + b2) as usize,
                ),
        decreases wy - b,
    {
        let mut a: usize = 0;
        while a < wx
            invariant
                lo_i + wx <= w,
                lo_j + wy <= h,
                b < wy,
                a <= wx,
                out.len() == wx * b + a,
                forall|a2: int, b2: int|
                    0 <= a2 < wx && 0 <= b2 <= b && flat2(a2, b2, wx as int) < wx * b + a
                        ==> #[trigger] out@[flat2(a2, b2, wx as int)] == (
                        (lo_i + a2) as usize,
                        (lo_j + b2) as usize,
                    ),
            decreases wx - a,
        {
            out.push((lo_i + a, lo_j + b));
            proof {
                assert forall|a2: int, b2: int|
                    0 <= a2 < wx && 0 <= b2 <= b && flat2(a2, b2, wx as int) < wx * b + a + 1
                        implies #[trigger] out@[flat2(a2, b2, wx as int)] == (
                        (lo_i + a2) as usize,
                        (lo_j + b2) as usize,
                    ) by {
                    if flat2(a2, b2, wx as int) == wx * b + a {
                        lemma_flat2_injective(a2, b2, a as int, b as int, wx as int);
                    }
                }
            }
            a = a + 1;
        }
        proof {
            assert(wx * b + wx == wx * (b + 1)) by (nonlinear_arith);
            assert forall|a2: int, b2: int| 0 <= a2 < wx && 0 <= b2 < b + 1 implies flat2(a2, b2, wx as int) < wx * b + wx by {
                assert(a2 + wx * b2 < wx * b + wx) by (nonlinear_arith)
                    requires
                        0 <= a2 < wx,
                        0 <= b2 <= b,
                {
                    assert(wx * b2 <= wx * b);
                }
            }
        }
        b = b + 1;
    }
    out
}

/// The cells `(i, j, k)` of a `w` by `h` by `d` grid within `span` of
/// `(ci, cj, ck)` along every axis, `i` fastest and `k` slowest. The window
/// is the box that starts at `(win_lo(ci), win_lo(cj), win_lo(ck))`.
pub fn window_cells3(ci: i32, cj: i32, ck: i32, span: i32, w: usize, h: usize, d: usize) -> (r: Vec<
    (usize, usize, usize),
>)
    ensures
        r.len() == win_len(ci as int, span as int, w as int) * win_len(
            cj as int,
            span as int,
            h as int,
        ) * win_len(ck as int, span as int, d as int),
        forall|a: int, b: int, c: int|
            0 <= a < win_len(ci as int, span as int, w as int) && 0 <= b < win_len(
                cj as int,
                span as int,
                h as int,
            ) && 0 <= c < win_len(ck as int, span as int, d as int) ==> #[trigger] r@[flat3(
                a,
                b,
                c,
                win_len(ci as int, span as int, w as int),
                win_len(cj as int, span as int, h as int),
            )] == (
                (win_lo(ci as int, span as int) + a) as usize,
                (win_lo(cj as int, span as int) + b) as usize,
                (win_lo(ck as int, span as int) + c) as usize,
            ),
{
    let (lo_i, wx) = axis_window(ci, span, w);
    let (lo_j, wy) = axis_window(cj, span, h);
    let (lo_k, wz) = axis_window(ck, span, d);
    let mut out: Vec<(usize, usize, usize)> = Vec::new();
    let mut c: usize = 0;
    while c < wz
        invariant
            lo_i + wx <= w,
            lo_j + wy <= h,
            lo_k + wz <= d,
            wx == win_len(ci as int, span as int, w as int),
            wy == win_len(cj as int, span as int, h as int),
            wz == win_len(ck as int, span as int, d as int),
            wx > 0 ==> lo_i == win_lo(ci as int, span as int),
            wy > 0 ==> lo_j == win_lo(cj as int, span as int),
            wz > 0 ==> lo_k == win_lo(ck as int, span as int),
            c <= wz,
            out.len() == wx * wy * c,
            forall|a2: int, b2: int, c2: int|
                0 <= a2 < wx && 0 <= b2 < wy && 0 <= c2 < c ==> #[trigger] out@[flat3(
                    a2,
                    b2,
                    c2,
                    wx as int,
                    wy as int,
                )] == ((lo_i + a2) as usize, (lo_j + b2) as usize, (lo_k + c2) as usize),
        decreases wz - c,
    {
        proof {
            assert forall|a2: int, b2: int, c2: int|
                0 <= a2 < wx && 0 <= b2 < wy && c2 == c implies flat3(a2, b2, c2, wx as int, wy as int)
                    >= wx * wy * c by {
                assert(a2 + wx * (b2 + wy * c2) >= wx * wy * c) by (nonlinear_arith)
                    requires
                        0 <= a2,
                        0 <= b2,
                        c2 == c,
                        wx >= 0,
                        wy >= 0,
                ;
            }
        }
        let mut b: usize = 0;
        while b < wy
            invariant
                lo_i + wx <= w,
                lo_j + wy <= h,
                lo_k + wz <= d,
                c < wz,
                b <= wy,
                out.len() == wx * wy * c + wx * b,
                forall|a2: int, b2: int, c2: int|
                    0 <= a2 < wx && 0 <= b2 < wy && 0 <= c2 <= c && flat3(
                        a2,
                        b2,
                        c2,
                        wx as int,
                        wy as int,
                    ) < wx * wy * c + wx * b ==> #[trigger] out@[flat3(
                        a2,
                        b2,
                        c2,
                        wx as int,
                        wy as int,
                    )] == ((lo_i + a2) as usize, (lo_j + b2) as usize, (lo_k + c2) as usize),
            decreases wy - b,
        {
            let mut a: usize = 0;
            while a < wx
                invariant
                    lo_i + wx <= w,
                    lo_j + wy <= h,
                    lo_k + wz <= d,
                    c < wz,
                    b < wy,
                    a <= wx,
                    out.len() == wx * wy * c + wx * b + a,
                    forall|a2: int, b2: int, c2: int|
                        0 <= a2 < wx && 0 <= b2 < wy && 0 <= c2 <= c && flat3(
                            a2,
                            b2,
                            c2,
                            wx as int,
                            wy as int,
                        ) < wx * wy * c + wx * b + a ==> #[trigger] out@[flat3(
                            a2,
                            b2,
                            c2,
                            wx as int,
                            wy as int,
                        )] == ((lo_i + a2) as usize, (lo_j + b2) as usize, (lo_k + c2) as usize),
                decreases wx - a,
            {
                let ghost pos = out.len() as int;
                out.push((lo_i + a, lo_j + b, lo_k + c));
                proof {
                    assert(pos == flat3(a as int, b as int, c as int, wx as int, wy as int)) by (nonlinear_arith)
                        requires
                            pos == wx * wy * c + wx * b + a,
                    ;
                    assert forall|a2: int, b2: int, c2: int|
                        0 <= a2 < wx && 0 <= b2 < wy && 0 <= c2 <= c && flat3(
                            a2,
                            b2,
                            c2,
                            wx as int,
                            wy as int,
                        ) < pos + 1 implies #[trigger] out@[flat3(
                            a2,
                            b2,
                            c2,
                            wx as int,
                            wy as int,
                        )] == ((lo_i + a2) as usize, (lo_j + b2) as usize, (lo_k + c2) as usize) by {
                        if flat3(a2, b2, c2, wx as int, wy as int) == pos {
                            lemma_flat3_injective(a2, b2, c2, a as int, b as int, c as int, wx as int, wy as int);
                        }
                    }
                }
                a = a + 1;
            }
            proof {
                assert(wx * b + wx == wx * (b + 1)) by (nonlinear_arith);
            }
            b = b + 1;
        }
        proof {
            assert(wx * wy * c + wx * wy == wx * wy * (c + 1)) by (nonlinear_arith);
            assert forall|a2: int, b2: int, c2: int|
                0 <= a2 < wx && 0 <= b2 < wy && 0 <= c2 < c + 1 implies flat3(a2, b2, c2, wx as int, wy as int)
                    < wx * wy * c + wx * wy by {
                assert(a2 + wx * (b2 + wy * c2) < wx * wy * c + wx * wy) by (nonlinear_arith)
                    requires
                        0 <= a2 < wx,
                        0 <= b2 < wy,
                        0 <= c2 <= c,
                {
                    assert(b2 + wy * c2 + 1 <= wy * (c + 1));
                    assert(wx * (b2 + wy * c2 + 1) <= wx * (wy * (c + 1)));
                }
            }
        }
        c = c + 1;
    }
    out
}

/// Bucket index `bx + by * cw` of the cell `(bx, by)` in rows of `cw`
/// buckets, or `None` when it does not fit in a `usize`.
pub fn bucket_key2(bx: usize, by: usize, cw: usize) -> (r: Option<usize>)
    ensures
        r == (if bx + by * cw <= usize::MAX {
            Some((bx + by * cw) as usize)
        } else {
            None
        }),
{
    assert(0 <= by * cw) by (nonlinear_arith);
    match by.checked_mul(cw) {
        Some(m) => bx.checked_add(m),
        None => None,
    }
}

/// `bx + cw * (by + ch * bz)` and each partial result on the way fit in a
/// `usize`.
pub open spec fn key3_fits(bx: int, by: int, bz: int, cw: int, ch: int) -> bool {
    &&& ch * bz <= usize::MAX
    &&& by + ch * bz <= usize::MAX
    &&& bx + cw * (by + ch * bz) <= usize::MAX
}

/// Bucket index `bx + cw * (by + ch * bz)` of the cell `(bx, by, bz)` in
/// layers of `cw` by `ch` buckets, or `None` when it does not fit in a
/// `usize`.
pub fn bucket_key3(bx: usize, by: usize, bz: usize, cw: usize, ch: usize) -> (r: Option<usize>)
    ensures
        r == (if key3_fits(bx as int, by as int, bz as int, cw as int, ch as int) {
            Some(flat3(bx as int, by as int, bz as int, cw as int, ch as int) as usize)
        } else {
            None
        }),
{
    assert(0 <= ch * bz) by (nonlinear_arith);
    let t1 = match ch.checked_mul(bz) {
        Some(t) => t,
        None => return None,
    };
    let t2 = match by.checked_add(t1) {
        Some(t) => t,
        None => return None,
    };
    assert(0 <= cw * t2) by (nonlinear_arith);
    let t3 = match cw.checked_mul(t2) {
        Some(t) => t,
        None => return None,
    };
    bx.checked_add(t3)
}

/// The particles whose key is bucket `b`, among the first `n`, in
/// increasing order.
pub open spec fn members(keys: Seq<Option<usize>>, n: int, b: int) -> Seq<u32> {
    Seq::new(n as nat, |q: int| q as u32).filter(|x: u32| keys[x as int] == Some(b as usize))
}

/// The entries of `l` above `k`, in order, widened to `usize`.
pub open spec fn above(l: Seq<u32>, k: int) -> Seq<usize> {
    l.filter(|x: u32| x > k).map_values(|x: u32| x as usize)
}

/// The particles above `k` found in the buckets `cells`, bucket after
/// bucket, each bucket in its own order.
pub open spec fn candidates_in(lists: Seq<Seq<u32>>, cells: Seq<usize>, k: int) -> Seq<usize> {
    cells.map_values(|b: usize| above(lists[b as int], k)).flatten()
}

/// Appending to a sequence appends to its filtered form exactly when the
/// new item passes the filter.
pub proof fn lemma_filter_push(s: Seq<u32>, x: u32, p: spec_fn(u32) -> bool)
    ensures
        s.push(x).filter(p) == (if p(x) {
            s.filter(p).push(x)
        } else {
            s.filter(p)
        }),
{
    reveal(Seq::filter);
    assert(s.push(x).drop_last() =~= s);
}

/// A spatial hash: one list of particle indices per bucket.
pub struct Buckets {
    lists: Vec<Vec<u32>>,
}

impl View for Buckets {
    type V = Seq<Seq<u32>>;

    closed spec fn view(&self) -> Seq<Seq<u32>> {
        self.lists@.map_values(|l: Vec<u32>| l@)
    }
}

impl Buckets {
    /// `n_buckets` buckets; particle `q` goes into bucket `b` when
    /// `keys[q]` is `Some(b)` with `b < n_buckets`, and into none otherwise.
    /// Each bucket lists its particles in increasing order.
    pub fn build(n_buckets: usize, keys: &Vec<Option<usize>>) -> (r: Buckets)
        requires
            keys.len() <= 0x1_0000_0000,
        ensures
            r@.len() == n_buckets,
            forall|b: int| 0 <= b < n_buckets ==> #[trigger] r@[b] == members(keys@, keys.len() as int, b),
    {
        let mut lists: Vec<Vec<u32>> = Vec::new();
        let mut b: usize = 0;
        while b < n_buckets
            invariant
                b <= n_buckets,
                lists.len() == b,
                forall|b2: int| 0 <= b2 < b ==> (#[trigger] lists@[b2])@ == Seq::<u32>::empty(),
            decreases n_buckets - b,
        {
            lists.push(Vec::new());
            b = b + 1;
        }
        proof {
            assert forall|b2: int| 0 <= b2 < n_buckets implies (#[trigger] lists@[b2])@ == members(keys@, 0, b2) by {
                reveal(Seq::filter);
                assert(Seq::new(0, |q: int| q as u32) =~= Seq::<u32>::empty());
            }
        }
        let n = keys.len();
        let mut q: usize = 0;
        while q < n
            invariant
                n == keys.len(),
                n <= 0x1_0000_0000,
                q <= n,
                lists.len() == n_buckets,
                forall|b2: int| 0 <= b2 < n_buckets ==> (#[trigger] lists@[b2])@ == members(keys@, q as int, b2),
            decreases n - q,
        {
            let ghost before = lists@;
            proof {
                assert forall|b2: int| 0 <= b2 < n_buckets implies members(keys@, q + 1, b2) == (if keys@[q as int] == Some(b2 as usize) {
                    members(keys@, q as int, b2).push(q as u32)
                } else {
                    members(keys@, q as int, b2)
                }) by {
                    let p = |x: u32| keys@[x as int] == Some(b2 as usize);
                    assert(Seq::new((q + 1) as nat, |i: int| i as u32) =~= Seq::new(q as nat, |i: int| i as u32).push(q as u32));
                    lemma_filter_push(Seq::new(q as nat, |i: int| i as u32), q as u32, p);
                }
            }
            match keys[q] {
                Some(b) => {
                    if b < n_buckets {
                        lists[b].push(q as u32);
                        proof {
                            assert forall|b2: int| 0 <= b2 < n_buckets implies (#[trigger] lists@[b2])@ == members(keys@, q + 1, b2) by {
                                if b2 != b {
                                    assert(lists@[b2] == before[b2]);
                                }
                            }
                        }
                    }
                },
                None => {},
            }
            q = q + 1;
        }
        let r = Buckets { lists };
        assert forall|b: int| 0 <= b < n_buckets implies #[trigger] r@[b] == members(keys@, keys.len() as int, b) by {
            assert(r@[b] == r.lists@[b]@);
        }
        r
    }

    /// The particles in bucket `b`, in increasing order.
    pub fn bucket(&self, b: usize) -> (r: &Vec<u32>)
        requires
            b < self@.len(),
        ensures
            r@ == self@[b as int],
    {
        &self.lists[b]
    }

    /// Number of buckets.
    pub fn len(&self) -> (r: usize)
        ensures
            r == self@.len(),
    {
        self.lists.len()
    }

    /// The particles above `k` in the buckets `cells`, bucket after bucket,
    /// each bucket in increasing order: the partners that particle `k` is
    /// checked against, each pair once.
    pub fn candidates(&self, k: usize, cells: &Vec<usize>) -> (r: Vec<usize>)
        requires
            forall|t: int| 0 <= t < cells.len() ==> #[trigger] cells@[t] < self@.len(),
        ensures
            r@ == candidates_in(self@, cells@, k as int),
    {
        let mut out: Vec<usize> = Vec::new();
        let mut t: usize = 0;
        while t < cells.len()
            invariant
                t <= cells.len(),
                forall|t2: int| 0 <= t2 < cells.len() ==> #[trigger] cells@[t2] < self@.len(),
                out@ == candidates_in(self@, cells@.take(t as int), k as int),
            decreases cells.len() - t,
        {
            let b = cells[t];
            let ghost prefix = out@;
            let ghost l = self@[b as int];
            assert(self.lists@[b as int]@ == l);
            let list = &self.lists[b];
            let mut pos: usize = 0;
            assert(l.take(0) =~= Seq::<u32>::empty());
            proof {
                reveal(Seq::filter);
                assert(above(l.take(0), k as int) =~= Seq::<usize>::empty());
            }
            assert(out@ =~= prefix + above(l.take(0), k as int));
            while pos < list.len()
                invariant
                    list@ == l,
                    pos <= list.len(),
                    out@ == prefix + above(l.take(pos as int), k as int),
                decreases list.len() - pos,
            {
                let x = list[pos];
                proof {
                    assert(l.take(pos + 1) =~= l.take(pos as int).push(x));
                    lemma_filter_push(l.take(pos as int), x, |y: u32| y > k);
                    assert(l.take(pos as int).push(x).filter(|y: u32| y > k).map_values(|y: u32| y as usize)
                        =~= (if x > k {
                            l.take(pos as int).filter(|y: u32| y > k).map_values(|y: u32| y as usize).push(x as usize)
                        } else {
                            l.take(pos as int).filter(|y: u32| y > k).map_values(|y: u32| y as usize)
                        }));
                }
                if (x as usize) > k {
                    out.push(x as usize);
                }
                pos = pos + 1;
            }
            proof {
                assert(l.take(l.len() as int) =~= l);
                let f = |b2: usize| above(self@[b2 as int], k as int);
                assert(cells@.take(t + 1).map_values(f) =~= cells@.take(t as int).map_values(f).push(f(b)));
                cells@.take(t as int).map_values(f).lemma_flatten_push(f(b));
            }
            t = t + 1;
        }
        assert(cells@.take(cells.len() as int) =~= cells@);
        out
    }
}

/// The window along one axis keeps exactly the positions within `span` of
/// `c` that lie on the axis: they are the `win_len` positions from
/// `win_lo` on.
pub proof fn law_window_axis(c: int, span: int, n: int, x: int)
    ensures
        (-span <= x - c <= span && 0 <= x < n) <==> (win_lo(c, span) <= x < win_lo(c, span) + win_len(
            c,
            span,
            n,
        )),
{
}

/// Bucket `b` holds particle `q` exactly when the key of `q` is `b`; so
/// every particle with a key lies in exactly one bucket.
pub proof fn law_bucket_members(keys: Seq<Option<usize>>, n: int, b: int, q: int)
    requires
        0 <= n <= keys.len(),
        n <= 0x1_0000_0000,
        0 <= b,
        0 <= q < n,
    ensures
        members(keys, n, b).contains(q as u32) <==> keys[q] == Some(b as usize),
{
    let s = Seq::new(n as nat, |i: int| i as u32);
    let p = |x: u32| keys[x as int] == Some(b as usize);
    assert(s[q] == q as u32);
    if keys[q] == Some(b as usize) {
        s.lemma_filter_contains(p, q);
    }
    if s.filter(p).contains(q as u32) {
        let m = choose|m: int| 0 <= m < s.filter(p).len() && s.filter(p)[m] == q as u32;
        s.lemma_filter_pred(p, m);
    }
}

/// Particle `x` passes the filter of bucket list `l` exactly when it lies
/// in `l` and is above `k`.
pub proof fn lemma_above_contains(l: Seq<u32>, k: int, x: u32)
    ensures
        above(l, k).contains(x as usize) <==> (x > k && l.contains(x)),
{
    let p = |y: u32| y > k;
    let f = l.filter(p);
    if x > k && l.contains(x) {
        let i = choose|i: int| 0 <= i < l.len() && l[i] == x;
        l.lemma_filter_contains(p, i);
        let m = choose|m: int| 0 <= m < f.len() && f[m] == x;
        assert(above(l, k)[m] == x as usize);
    }
    if above(l, k).contains(x as usize) {
        let m = choose|m: int| 0 <= m < above(l, k).len() && above(l, k)[m] == x as usize;
        assert(f[m] == x);
        l.lemma_filter_pred(p, m);
        assert(f.contains(x));
        l.lemma_filter_contains_rev(p, x);
    }
}

/// The partners found for particle `k` are exactly the particles above `k`
/// that lie in one of the searched buckets.
pub proof fn law_candidates_members(lists: Seq<Seq<u32>>, cells: Seq<usize>, k: int, x: u32)
    ensures
        candidates_in(lists, cells, k).contains(x as usize) <==> (x > k && exists|t: int|
            0 <= t < cells.len() && #[trigger] lists[cells[t] as int].contains(x)),
    decreases cells.len(),
{
    let f = |b: usize| above(lists[b as int], k);
    if cells.len() == 0 {
        assert(cells.map_values(f) =~= Seq::<Seq<usize>>::empty());
        assert(candidates_in(lists, cells, k) =~= Seq::<usize>::empty());
    } else {
        let init = cells.drop_last();
        let last = cells.last();
        law_candidates_members(lists, init, k, x);
        assert(cells.map_values(f) =~= init.map_values(f).push(f(last)));
        init.map_values(f).lemma_flatten_push(f(last));
        let whole = candidates_in(lists, cells, k);
        let front = candidates_in(lists, init, k);
        assert(whole =~= front + f(last));
        lemma_above_contains(lists[last as int], k, x);
        if whole.contains(x as usize) {
            let m = choose|m: int| 0 <= m < whole.len() && whole[m] == x as usize;
            if m < front.len() {
                assert(front[m] == x as usize);
                let t = choose|t: int| 0 <= t < init.len() && #[trigger] lists[init[t] as int].contains(x);
                assert(cells[t] == init[t]);
            } else {
                assert(f(last)[m - front.len()] == x as usize);
                assert(cells[cells.len() - 1] == last);
            }
        }
        if x > k && exists|t: int| 0 <= t < cells.len() && #[trigger] lists[cells[t] as int].contains(x) {
            let t = choose|t: int| 0 <= t < cells.len() && #[trigger] lists[cells[t] as int].contains(x);
            if t < init.len() {
                assert(init[t] == cells[t]);
                assert(front.contains(x as usize));
                let m = choose|m: int| 0 <= m < front.len() && front[m] == x as usize;
                assert(whole[m] == x as usize);
            } else {
                let tail = f(last);
                assert(tail.contains(x as usize));
                let m = choose|m: int| 0 <= m < tail.len() && #[trigger] tail[m] == x as usize;
                assert(whole[front.len() + m] == x as usize);
            }
        }
    }
}

/// A 3D bucket key exists exactly when the nested sum fits in a `usize`,
/// where the inner part `by + ch * bz` must fit on its own too; with at
/// least one bucket per row, the whole key fitting is enough.
pub proof fn law_key3_fits(bx: int, by: int, bz: int, cw: int, ch: int)
    requires
        0 <= bx,
        0 <= by,
        0 <= bz,
        0 <= ch,
    ensures
        key3_fits(bx, by, bz, cw, ch) == (ch * bz <= usize::MAX && by + ch * bz <= usize::MAX && bx
            + cw * (by + ch * bz) <= usize::MAX),
        cw >= 1 ==> (key3_fits(bx, by, bz, cw, ch) == (bx + cw * (by + ch * bz) <= usize::MAX)),
{
    if cw >= 1 {
        assert(0 <= ch * bz) by (nonlinear_arith)
            requires
                0 <= ch,
                0 <= bz,
        ;
        assert(by + ch * bz <= cw * (by + ch * bz)) by (nonlinear_arith)
            requires
                cw >= 1,
                0 <= by + ch * bz,
        ;
    }
}

} // verus!
