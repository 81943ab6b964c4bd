//! Picking tiles for a view interval: dynamic sources get one tile
//! cut to the view; static sources get the pyramid level whose tile
//! size best matches the view, filtered to the overlapping tiles.

use crate::data::TileID;
use crate::timestamp::Interval;
use vstd::prelude::*;

verus! {

/// Levels can be scored: each is non-empty and its tiles have a
/// representable, positive duration.
pub open spec fn spec_scorable(ts: Seq<Seq<TileID>>) -> bool {
    forall|l: int|
        0 <= l < ts.len() ==> (#[trigger] ts[l]).len() > 0 && 1 <= ts[l][0].0.spec_duration()
            <= i64::MAX
}

/// The score of a level for a request of duration `rd`: the ratio of
/// tile duration to request duration, whichever way round is at least
/// one.  Lower is better.
pub open spec fn spec_level_score(level: Seq<TileID>, rd: int) -> int {
    let d = level[0].0.spec_duration();
    if d < rd {
        rd / d
    } else {
        d / rd
    }
}

/// The first level with the least score, scanning from `i` with the
/// best index so far.
pub open spec fn spec_chosen_from(ts: Seq<Seq<TileID>>, rd: int, i: int, best: int) -> int
    decreases ts.len() - i,
{
    if i < 0 || i >= ts.len() {
        best
    } else if spec_level_score(ts[i], rd) < spec_level_score(ts[best], rd) {
        spec_chosen_from(ts, rd, i + 1, i)
    } else {
        spec_chosen_from(ts, rd, i + 1, best)
    }
}

pub open spec fn spec_chosen_level(ts: Seq<Seq<TileID>>, rd: int) -> int {
    spec_chosen_from(ts, rd, 1, 0)
}

/// The tiles of a level that overlap the request, in level order.
pub open spec fn spec_overlap_tiles(level: Seq<TileID>, req: Interval) -> Seq<TileID>
    decreases level.len(),
{
    if level.len() == 0 {
        Seq::empty()
    } else {
        spec_overlap_tiles(level.drop_last(), req) + if req.spec_overlaps(level.last().0) {
            seq![level.last()]
        } else {
            Seq::empty()
        }
    }
}

/// What a request for `req` returns: the single clipped tile for a
/// dynamic source; for a static source, nothing when the request is
/// empty, else the overlapping tiles of the best-scoring level.
pub open spec fn spec_tiles_for(ts: Seq<Seq<TileID>>, req: Interval) -> Seq<TileID> {
    if ts.len() == 0 {
        seq![TileID(req)]
    } else if req.spec_duration() <= 0 {
        Seq::empty()
    } else {
        spec_overlap_tiles(ts[spec_chosen_level(ts, req.spec_duration())], req)
    }
}

/// Chooses pyramid levels for view requests and memoizes the last
/// answer, as a viewer asks for the same view every frame.
pub struct TileSelector {
    interval: Interval,
    tile_set: Vec<Vec<TileID>>,
    last_request_interval: Option<Interval>,
    request_tile_cache: Vec<TileID>,
}

impl TileSelector {
    pub closed spec fn spec_interval(&self) -> Interval {
        self.interval
    }

    pub closed spec fn spec_tile_set(&self) -> Seq<Seq<TileID>> {
        Seq::new(self.tile_set@.len(), |i: int| self.tile_set@[i]@)
    }

    pub open spec fn wf(&self) -> bool {
        &&& self.spec_interval().spec_wf()
        &&& self.spec_interval().spec_duration() <= i64::MAX
        &&& spec_scorable(self.spec_tile_set())
        &&& self.spec_cache_ok()
    }

    /// The memo holds exactly what the recorded request returns.
    pub closed spec fn spec_cache_ok(&self) -> bool {
        match self.last_request_interval {
            Option::Some(req) => self.request_tile_cache@ == spec_tiles_for(
                self.spec_tile_set(),
                req,
            ),
            Option::None => true,
        }
    }

    /// A selector over a source's total interval and tile pyramid.
    pub fn new(interval: Interval, tile_set: Vec<Vec<TileID>>) -> (r: Self)
        requires
            interval.spec_wf(),
            interval.spec_duration() <= i64::MAX,
            spec_scorable(Seq::new(tile_set@.len(), |i: int| tile_set@[i]@)),
        ensures
            r.wf(),
            r.spec_interval() == interval,
            r.spec_tile_set() == Seq::new(tile_set@.len(), |i: int| tile_set@[i]@),
    {
        TileSelector {
            interval,
            tile_set,
            last_request_interval: None,
            request_tile_cache: Vec::new(),
        }
    }

    /// The tiles to fetch for a view interval.  Identical consecutive
    /// requests return equal lists, served from the memo.
    pub fn request_tiles(&mut self, view_interval: Interval) -> (r: Vec<TileID>)
        requires
            old(self).wf(),
        ensures
            final(self).wf(),
            final(self).spec_interval() == old(self).spec_interval(),
            final(self).spec_tile_set() == old(self).spec_tile_set(),
            r@ == spec_tiles_for(
                old(self).spec_tile_set(),
                view_interval.spec_intersection(old(self).spec_interval()),
            ),
    {
        let request_interval = view_interval.intersection(self.interval);
        let hit: bool = match self.last_request_interval {
            Option::Some(prev) => prev.start.0 == request_interval.start.0 && prev.stop.0
                == request_interval.stop.0,
            Option::None => false,
        };
        if hit {
            let r = self.request_tile_cache.clone();
            proof {
                assert(r@ =~= self.request_tile_cache@);
            }
            return r;
        }
        let mut result: Vec<TileID> = Vec::new();
        if self.tile_set.len() == 0 {
            result.push(TileID(request_interval));
            proof {
                assert(result@ =~= spec_tiles_for(self.spec_tile_set(), request_interval));
            }
        } else if request_interval.stop.0 <= request_interval.start.0 {
            proof {
                assert(result@ =~= spec_tiles_for(self.spec_tile_set(), request_interval));
            }
        } else {
            let rd: i64 = request_interval.stop.0 - request_interval.start.0;
            let n: usize = self.tile_set.len();
            let mut best: usize = 0;
            let mut i: usize = 1;
            while i < n
                invariant
                    1 <= i <= n == self.spec_tile_set().len(),
                    0 <= best < i,
                    spec_scorable(self.spec_tile_set()),
                    rd >= 1,
                    spec_chosen_level(self.spec_tile_set(), rd as int) == spec_chosen_from(
                        self.spec_tile_set(),
                        rd as int,
                        i as int,
                        best as int,
                    ),
                decreases n - i,
            {
                let si = self.level_score(i, rd);
                let sb = self.level_score(best, rd);
                if si < sb {
                    best = i;
                }
                i = i + 1;
            }
            proof {
                assert(spec_chosen_level(self.spec_tile_set(), rd as int) == best as int);
            }
            // Keep the tiles of the chosen level that overlap the
            // request.
            let level: &Vec<TileID> = &self.tile_set[best];
            let ln: usize = level.len();
            let mut j: usize = 0;
            proof {
                assert(level@.take(0) =~= Seq::<TileID>::empty());
                assert(result@ =~= spec_overlap_tiles(level@.take(0), request_interval));
            }
            while j < ln
                invariant
                    0 <= j <= ln == level@.len(),
                    result@ == spec_overlap_tiles(level@.take(j as int), request_interval),
                decreases ln - j,
            {
                let t: TileID = level[j];
                proof {
                    assert(level@.take(j + 1).drop_last() =~= level@.take(j as int));
                    assert(level@.take(j + 1).last() == t);
                }
                if request_interval.overlaps(t.0) {
                    result.push(t);
                    proof {
                        assert(result@ =~= spec_overlap_tiles(level@.take(j + 1), request_interval));
                    }
                } else {
                    proof {
                        assert(result@ =~= spec_overlap_tiles(level@.take(j + 1), request_interval));
                    }
                }
                j = j + 1;
            }
            proof {
                assert(level@.take(ln as int) =~= level@);
                assert(level@ == self.spec_tile_set()[best as int]);
            }
        }
        self.last_request_interval = Some(request_interval);
        self.request_tile_cache = clone_tiles(&result);
        result
    }

    /// The score of level `l` for a request of duration `rd`.
    fn level_score(&self, l: usize, rd: i64) -> (r: u64)
        requires
            spec_scorable(self.spec_tile_set()),
            l < self.spec_tile_set().len(),
            rd >= 1,
        ensures
            r as int == spec_level_score(self.spec_tile_set()[l as int], rd as int),
    {
        proof {
            assert(self.spec_tile_set()[l as int] == self.tile_set@[l as int]@);
        }
        let first: TileID = self.tile_set[l][0];
        let d: i64 = first.0.stop.0 - first.0.start.0;
        if d < rd {
            (rd as u64) / (d as u64)
        } else {
            (d as u64) / (rd as u64)
        }
    }
}

fn clone_tiles(v: &Vec<TileID>) -> (r: Vec<TileID>)
    ensures
        r@ == v@,
{
    let r = v.clone();
    proof {
        assert(r@ =~= v@);
    }
    r
}

/// The chosen level scores no worse than any level, and is the first
/// to reach its score.
pub proof fn lemma_chosen_minimal(ts: Seq<Seq<TileID>>, rd: int)
    requires
        ts.len() > 0,
    ensures
        0 <= spec_chosen_level(ts, rd) < ts.len(),
        forall|k: int|
            0 <= k < ts.len() ==> spec_level_score(ts[spec_chosen_level(ts, rd)], rd)
                <= spec_level_score(#[trigger] ts[k], rd),
        forall|k: int|
            0 <= k < spec_chosen_level(ts, rd) ==> spec_level_score(ts[spec_chosen_level(ts, rd)], rd)
                < spec_level_score(#[trigger] ts[k], rd),
{
    lemma_chosen_from(ts, rd, 1, 0);
}

proof fn lemma_chosen_from(ts: Seq<Seq<TileID>>, rd: int, i: int, best: int)
    requires
        ts.len() > 0,
        1 <= i <= ts.len(),
        0 <= best < i,
        forall|k: int|
            0 <= k < i ==> spec_level_score(ts[best], rd) <= spec_level_score(#[trigger] ts[k], rd),
        forall|k: int|
            0 <= k < best ==> spec_level_score(ts[best], rd) < spec_level_score(
                #[trigger] ts[k],
                rd,
            ),
    ensures
        0 <= spec_chosen_from(ts, rd, i, best) < ts.len(),
        forall|k: int|
            0 <= k < ts.len() ==> spec_level_score(ts[spec_chosen_from(ts, rd, i, best)], rd)
                <= spec_level_score(#[trigger] ts[k], rd),
        forall|k: int|
            0 <= k < spec_chosen_from(ts, rd, i, best) ==> spec_level_score(
                ts[spec_chosen_from(ts, rd, i, best)],
                rd,
            ) < spec_level_score(#[trigger] ts[k], rd),
    decreases ts.len() - i,
{
    if i >= ts.len() {
    } else if spec_level_score(ts[i], rd) < spec_level_score(ts[best], rd) {
        lemma_chosen_from(ts, rd, i + 1, i);
    } else {
        lemma_chosen_from(ts, rd, i + 1, best);
    }
}

/// A tile is returned exactly when it is on the level and overlaps
/// the request.
pub proof fn lemma_overlap_tiles_membership(level: Seq<TileID>, req: Interval, t: TileID)
    ensures
        spec_overlap_tiles(level, req).contains(t) <==> level.contains(t) && req.spec_overlaps(
            t.0,
        ),
    decreases level.len(),
{
    if level.len() == 0 {
        assert(!spec_overlap_tiles(level, req).contains(t));
        assert(!level.contains(t));
    } else {
        lemma_overlap_tiles_membership(level.drop_last(), req, t);
        let f = spec_overlap_tiles(level, req);
        let fd = spec_overlap_tiles(level.drop_last(), req);
        if level.contains(t) && req.spec_overlaps(t.0) {
            let k = choose|k: int| 0 <= k < level.len() && level[k] == t;
            if k < level.len() - 1 {
                assert(level.drop_last()[k] == t);
                assert(level.drop_last().contains(t));
                assert(fd.contains(t));
                let j = choose|j: int| 0 <= j < fd.len() && fd[j] == t;
                assert(f[j] == t);
                assert(f.contains(t));
            } else {
                assert(level.last() == t);
                assert(f[f.len() - 1] == t);
                assert(f.contains(t));
            }
        }
        if f.contains(t) {
            let j = choose|j: int| 0 <= j < f.len() && f[j] == t;
            if j < fd.len() {
                assert(fd[j] == t);
                assert(fd.contains(t));
                assert(level.drop_last().contains(t));
                let k = choose|k: int| 0 <= k < level.len() - 1 && level.drop_last()[k] == t;
                assert(level[k] == t);
            } else {
                assert(req.spec_overlaps(level.last().0));
                assert(t == level.last());
                assert(level.contains(t)) by {
                    assert(level[level.len() - 1] == t);
                }
            }
        }
    }
}

/// When the tiles of a level tile the span `[first.start, last.stop)`
/// without gaps, every point of the request inside that span lies in
/// some returned tile; and every returned tile overlaps the request.
pub proof fn lemma_selection_covers(
    level: Seq<TileID>,
    req: Interval,
    p: crate::timestamp::Timestamp,
)
    requires
        level.len() > 0,
        forall|i: int| 0 <= i < level.len() - 1 ==> (#[trigger] level[i]).0.stop == level[i + 1].0.start,
        req.spec_contains(p),
        level[0].0.start.0 <= p.0 < level[level.len() - 1].0.stop.0,
    ensures
        exists|t: TileID| #[trigger]
            spec_overlap_tiles(level, req).contains(t) && t.0.spec_contains(p),
{
    let t = lemma_partition_point(level, p);
    assert(t.0.spec_contains(p));
    assert(req.spec_overlaps(t.0)) by {
        assert(req.spec_contains(p) && t.0.spec_contains(p));
    }
    lemma_overlap_tiles_membership(level, req, t);
    assert(spec_overlap_tiles(level, req).contains(t) && t.0.spec_contains(p));
}

/// A pyramid level, as the archive writer lays one out, covers every
/// point of a request that falls inside the archived duration: some
/// returned tile holds the point.
pub proof fn lemma_pyramid_selection_covers(
    level: Seq<TileID>,
    duration: int,
    n: int,
    req: Interval,
    p: crate::timestamp::Timestamp,
)
    requires
        n >= 1,
        duration >= 0,
        level.len() == n,
        forall|i: int|
            0 <= i < n ==> (#[trigger] level[i]).0.start.0 == crate::archive_data::spec_tile_start(
                duration,
                n,
                i,
            ) && level[i].0.stop.0 == crate::archive_data::spec_tile_start(duration, n, i + 1),
        req.spec_contains(p),
        0 <= p.0 < duration,
    ensures
        exists|t: TileID| #[trigger]
            spec_overlap_tiles(level, req).contains(t) && t.0.spec_contains(p),
{
    crate::archive_data::lemma_pyramid_partitions(duration, n);
    assert(level[0].0.start.0 == 0);
    assert(level[n - 1].0.stop.0 == duration);
    assert forall|i: int| 0 <= i < level.len() - 1 implies (#[trigger] level[i]).0.stop == level[
        i + 1
    ].0.start by {
        assert(level[i].0.stop.0 == crate::archive_data::spec_tile_start(duration, n, i + 1));
        assert(level[i + 1].0.start.0 == crate::archive_data::spec_tile_start(duration, n, i + 1));
    }
    lemma_selection_covers(level, req, p);
}

proof fn lemma_partition_point(level: Seq<TileID>, p: crate::timestamp::Timestamp) -> (t: TileID)
    requires
        level.len() > 0,
        forall|i: int| 0 <= i < level.len() - 1 ==> (#[trigger] level[i]).0.stop == level[i + 1].0.start,
        level[0].0.start.0 <= p.0 < level[level.len() - 1].0.stop.0,
    ensures
        level.contains(t),
        t.0.spec_contains(p),
    decreases level.len(),
{
    let last = level.last();
    if p.0 >= last.0.start.0 {
        assert(level.contains(last)) by {
            assert(level[level.len() - 1] == last);
        }
        last
    } else {
        assert(level.len() >= 2) by {
            if level.len() == 1 {
                assert(last == level[0]);
            }
        }
        let dl = level.drop_last();
        assert(forall|i: int|
            0 <= i < dl.len() - 1 ==> (#[trigger] dl[i]).0.stop == dl[i + 1].0.start) by {
            assert(forall|i: int|
                0 <= i < dl.len() - 1 ==> (#[trigger] dl[i]) == level[i] && dl[i + 1] == level[
                    i + 1
                ]);
        }
        assert(dl[dl.len() - 1] == level[level.len() - 2]);
        assert(level[level.len() - 2].0.stop == last.0.start);
        assert(dl[0] == level[0]);
        let t = lemma_partition_point(dl, p);
        assert(dl.contains(t));
        let k = choose|k: int| 0 <= k < dl.len() && dl[k] == t;
        assert(level[k] == t);
        assert(level.contains(t));
        t
    }
}

} // verus!
