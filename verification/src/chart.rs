use vstd::prelude::*;

verus! {

/// How many history points a chart of this width shows: the width less ten
/// columns for the axis labels, but at least 20.
pub open spec fn points_for_width(width: nat) -> nat {
    let w = if width > 10 {
        (width - 10) as nat
    } else {
        0
    };
    if w > 20 {
        w
    } else {
        20
    }
}

/// How many history points a chart of this width shows.
pub fn chart_points_for_width(width: u16) -> (res: usize)
    ensures
        res == points_for_width(width as nat),
{
    let w = width.saturating_sub(10) as usize;
    if w > 20 {
        w
    } else {
        20
    }
}

/// The largest position among chart points, or 0 when there are none.
pub open spec fn max_x(p: Seq<(usize, u64)>) -> nat
    decreases p.len(),
{
    if p.len() == 0 {
        0
    } else {
        let m = max_x(p.drop_last());
        if p.last().0 > m {
            p.last().0 as nat
        } else {
            m
        }
    }
}

/// The largest position over several sets of chart points, or 0 when there are none.
pub open spec fn datasets_max_x(d: Seq<Seq<(usize, u64)>>) -> nat
    decreases d.len(),
{
    if d.len() == 0 {
        0
    } else {
        let m = datasets_max_x(d.drop_last());
        let x = max_x(d.last());
        if x > m {
            x
        } else {
            m
        }
    }
}

/// The upper bound of the chart's x axis: the largest position of any
/// point, but at least 10.
pub open spec fn x_axis_max(d: Seq<Seq<(usize, u64)>>) -> nat {
    let m = datasets_max_x(d);
    if m > 10 {
        m
    } else {
        10
    }
}

/// The largest position among chart points is at least every point's
/// position, and is 0 or the position of one of them.
pub proof fn lemma_max_x(p: Seq<(usize, u64)>)
    ensures
        forall|k: int| 0 <= k < p.len() ==> (#[trigger] p[k]).0 <= max_x(p),
        max_x(p) == 0 || exists|k: int| 0 <= k < p.len() && (#[trigger] p[k]).0 == max_x(p),
    decreases p.len(),
{
    if p.len() > 0 {
        let t = p.drop_last();
        lemma_max_x(t);
        assert forall|k: int| 0 <= k < p.len() implies (#[trigger] p[k]).0 <= max_x(p) by {
            if k < t.len() {
                assert(p[k] == t[k]);
            }
        }
        if max_x(p) != 0 {
            if max_x(p) == max_x(t) {
                let k = choose|k: int| 0 <= k < t.len() && (#[trigger] t[k]).0 == max_x(t);
                assert(p[k] == t[k]);
            } else {
                assert(p[p.len() - 1] == p.last());
            }
        }
    }
}

/// The largest position over several sets of chart points is at least every
/// point's position, and is 0 or the position of one of them.
pub proof fn lemma_datasets_max_x(d: Seq<Seq<(usize, u64)>>)
    ensures
        forall|i: int, k: int|
            0 <= i < d.len() && 0 <= k < d[i].len() ==> (#[trigger] d[i][k]).0 <= datasets_max_x(d),
        datasets_max_x(d) == 0 || exists|i: int, k: int|
            0 <= i < d.len() && 0 <= k < d[i].len() && (#[trigger] d[i][k]).0 == datasets_max_x(d),
    decreases d.len(),
{
    if d.len() > 0 {
        let t = d.drop_last();
        lemma_datasets_max_x(t);
        lemma_max_x(d.last());
        assert(d[d.len() - 1] == d.last());
        assert forall|i: int, k: int| 0 <= i < d.len() && 0 <= k < d[i].len() implies (
        #[trigger] d[i][k]).0 <= datasets_max_x(d) by {
            if i < t.len() {
                assert(d[i] == t[i]);
            }
        }
        if datasets_max_x(d) != 0 {
            if datasets_max_x(d) == datasets_max_x(t) {
                let (i, k) = choose|i: int, k: int|
                    0 <= i < t.len() && 0 <= k < t[i].len() && (#[trigger] t[i][k]).0
                        == datasets_max_x(t);
                assert(d[i] == t[i]);
            } else {
                let k = choose|k: int|
                    0 <= k < d.last().len() && (#[trigger] d.last()[k]).0 == max_x(d.last());
                assert(d[d.len() - 1][k] == d.last()[k]);
            }
        }
    }
}

/// The upper bound of the chart's x axis for these datasets.
pub fn chart_x_max(data: &Vec<Vec<(usize, u64)>>) -> (res: usize)
    ensures
        res == x_axis_max(data@.map_values(|v: Vec<(usize, u64)>| v@)),
        res >= 10,
        forall|i: int, k: int|
            0 <= i < data@.len() && 0 <= k < data@[i]@.len() ==> (#[trigger] data@[i]@[k]).0 <= res,
        res == 10 || exists|i: int, k: int|
            0 <= i < data@.len() && 0 <= k < data@[i]@.len() && (#[trigger] data@[i]@[k]).0 == res,
{
    let ghost views = data@.map_values(|v: Vec<(usize, u64)>| v@);
    let mut best: usize = 0;
    let mut i: usize = 0;
    while i < data.len()
        invariant
            i <= data@.len(),
            views == data@.map_values(|v: Vec<(usize, u64)>| v@),
            best == datasets_max_x(views.subrange(0, i as int)),
        decreases data@.len() - i,
    {
        let points = &data[i];
        let mut m: usize = 0;
        let mut j: usize = 0;
        while j < points.len()
            invariant
                j <= points@.len(),
                m == max_x(points@.subrange(0, j as int)),
            decreases points@.len() - j,
        {
            assert(points@.subrange(0, j + 1).drop_last() =~= points@.subrange(0, j as int));
            if points[j].0 > m {
                m = points[j].0;
            }
            j = j + 1;
        }
        assert(points@.subrange(0, points@.len() as int) =~= points@);
        assert(views.subrange(0, i + 1).drop_last() =~= views.subrange(0, i as int));
        assert(views.subrange(0, i + 1).last() == points@);
        if m > best {
            best = m;
        }
        i = i + 1;
    }
    assert(views.subrange(0, data@.len() as int) =~= views);
    proof {
        lemma_datasets_max_x(views);
        assert forall|i: int| 0 <= i < data@.len() implies #[trigger] views[i] == data@[i]@ by {}
        assert forall|i: int, k: int|
            0 <= i < data@.len() && 0 <= k < data@[i]@.len() implies (#[trigger] data@[i]@[k]).0
            <= datasets_max_x(views) by {
            assert(views[i] == data@[i]@);
            assert(views[i][k] == data@[i]@[k]);
        }
        if best > 10 {
            let (i, k) = choose|i: int, k: int|
                0 <= i < views.len() && 0 <= k < views[i].len() && (#[trigger] views[i][k]).0
                    == datasets_max_x(views);
            assert(views[i] == data@[i]@);
            assert(data@[i]@[k] == views[i][k]);
        }
    }
    if best > 10 {
        best
    } else {
        10
    }
}

} // verus!
