//! Writing a data source out as an archive: every summary and slot
//! entry gets one tile per cell of an exponentially refining pyramid,
//! and the source's info is re-issued with the pyramid recorded.
//!
//! The writer gathers the tiles and the final info in memory; putting
//! the compressed files on disk is the caller's side of the split.

use crate::data::{
    spec_get, DataSourceInfo, EntryID, EntryIndex, EntryInfo, SlotMetaTile, SlotTile, SummaryTile,
    TileID, TileSet,
};
use crate::deferred_data::{CountingDeferredDataSource, DeferredDataSource};
use crate::timestamp::{Interval, Timestamp};
use vstd::prelude::*;

verus! {

/// `base^e`.
pub open spec fn spec_pow(base: nat, e: nat) -> nat
    decreases e,
{
    if e == 0 {
        1
    } else {
        base * spec_pow(base, (e - 1) as nat)
    }
}

/// The start of the `i`-th of `n` equal tiles over `[0, duration)`.
pub open spec fn spec_tile_start(duration: int, n: int, i: int) -> int {
    duration * i / n
}

/// Level boundaries are ordered, begin at zero and end at the full
/// duration, so each level tiles the duration without gaps.
pub proof fn lemma_pyramid_partitions(duration: int, n: int)
    requires
        duration >= 0,
        n >= 1,
    ensures
        spec_tile_start(duration, n, 0) == 0,
        spec_tile_start(duration, n, n) == duration,
        forall|i: int|
            0 <= i < n ==> #[trigger] spec_tile_start(duration, n, i) <= spec_tile_start(
                duration,
                n,
                i + 1,
            ),
        forall|i: int|
            0 <= i <= n ==> 0 <= #[trigger] spec_tile_start(duration, n, i) <= duration,
{
    assert(duration * 0 == 0) by (nonlinear_arith);
    assert(spec_tile_start(duration, n, 0) == 0int / n);
    assert(0int / n == 0) by {
        vstd::arithmetic::div_mod::lemma_div_of0(n);
    }
    assert(duration * n / n == duration) by {
        vstd::arithmetic::div_mod::lemma_div_by_multiple(duration, n);
    }
    assert forall|i: int| 0 <= i < n implies #[trigger] spec_tile_start(duration, n, i)
        <= spec_tile_start(duration, n, i + 1) by {
        assert(duration * i <= duration * (i + 1)) by (nonlinear_arith)
            requires
                duration >= 0,
        ;
        vstd::arithmetic::div_mod::lemma_div_is_ordered(duration * i, duration * (i + 1), n);
    }
    assert forall|i: int| 0 <= i <= n implies 0 <= #[trigger] spec_tile_start(duration, n, i)
        <= duration by {
        assert(0 <= duration * i) by (nonlinear_arith)
            requires
                duration >= 0,
                i >= 0,
        ;
        vstd::arithmetic::div_mod::lemma_div_is_ordered(0, duration * i, n);
        assert(0int / n == 0) by {
            vstd::arithmetic::div_mod::lemma_div_of0(n);
        }
        assert(duration * i <= duration * n) by (nonlinear_arith)
            requires
                duration >= 0,
                i <= n,
        ;
        vstd::arithmetic::div_mod::lemma_div_is_ordered(duration * i, duration * n, n);
        assert(duration * n / n == duration) by {
            vstd::arithmetic::div_mod::lemma_div_by_multiple(duration, n);
        }
    }
}

/// Split `[0, duration)` into `num_tiles` equal tiles by integer
/// division: tile `i` spans `[duration*i/n, duration*(i+1)/n)`.
/// Tiles are laid out in offset space, from zero: a source whose
/// total interval starts elsewhere is archived relative to its own
/// start.
pub fn pyramid_level_tiles(duration: i64, num_tiles: u64) -> (r: Vec<TileID>)
    requires
        duration >= 0,
        num_tiles >= 1,
    ensures
        r@.len() == num_tiles,
        forall|i: int|
            0 <= i < num_tiles ==> (#[trigger] r@[i]).0.start.0 == spec_tile_start(
                duration as int,
                num_tiles as int,
                i,
            ) && r@[i].0.stop.0 == spec_tile_start(duration as int, num_tiles as int, i + 1),
{
    let mut r: Vec<TileID> = Vec::new();
    let mut i: u64 = 0;
    let d128: u128 = duration as u128;
    let n128: u128 = num_tiles as u128;
    proof {
        lemma_pyramid_partitions(duration as int, num_tiles as int);
    }
    while i < num_tiles
        invariant
            0 <= i <= num_tiles,
            num_tiles >= 1,
            duration >= 0,
            d128 == duration,
            n128 == num_tiles,
            r@.len() == i,
            forall|k: int|
                0 <= k < i ==> (#[trigger] r@[k]).0.start.0 == spec_tile_start(
                    duration as int,
                    num_tiles as int,
                    k,
                ) && r@[k].0.stop.0 == spec_tile_start(duration as int, num_tiles as int, k + 1),
        decreases num_tiles - i,
    {
        proof {
            lemma_pyramid_partitions(duration as int, num_tiles as int);
            assert(d128 * (i as u128) == duration * (i as int)) by (nonlinear_arith)
                requires
                    d128 == duration,
                    duration >= 0,
            ;
            assert(d128 * ((i + 1) as u128) == duration * (i + 1)) by (nonlinear_arith)
                requires
                    d128 == duration,
                    duration >= 0,
            ;
            assert(d128 * ((i + 1) as u128) <= 0xffff_ffff_ffff_ffff_ffff_ffff_ffff_ffff)
                by (nonlinear_arith)
                requires
                    d128 <= 0x7fff_ffff_ffff_ffff,
                    ((i + 1) as u128) <= 0x1_0000_0000_0000_0000,
            ;
            assert(d128 * (i as u128) <= d128 * ((i + 1) as u128)) by (nonlinear_arith)
                requires
                    (i as u128) <= ((i + 1) as u128),
            ;
        }
        let start: u128 = d128 * (i as u128) / n128;
        let stop: u128 = d128 * ((i + 1) as u128) / n128;
        proof {
            assert(start == spec_tile_start(duration as int, num_tiles as int, i as int));
            assert(stop == spec_tile_start(duration as int, num_tiles as int, i + 1));
        }
        r.push(
            TileID(
                Interval { start: Timestamp(start as i64), stop: Timestamp(stop as i64) },
            ),
        );
        i = i + 1;
    }
    r
}

/// Paths in the form the walker emits: a summary step is exactly
/// `-1`, never another negative.
pub open spec fn spec_canonical_path(q: Seq<i64>) -> bool {
    forall|i: int| 0 <= i < q.len() ==> (#[trigger] q[i]) >= -1
}

/// Depth-first order on the walker's paths: at the first differing
/// position the smaller element comes first, and `-1` (the summary
/// step) is smaller than every slot index.
pub open spec fn spec_path_before(a: Seq<i64>, b: Seq<i64>) -> bool {
    exists|j: int|
        0 <= j < a.len() && j < b.len() && a[j] < b[j] && (forall|x: int|
            0 <= x < j ==> a[x] == b[x])
}

/// Whether a path resolves to a summary or slot leaf of the tree.
pub open spec fn spec_is_leaf_path(root: EntryInfo, q: Seq<i64>) -> bool {
    match spec_get(root, q) {
        Option::Some(e) => !(e matches EntryInfo::Panel { .. }),
        Option::None => false,
    }
}

/// Walk the tree and list the summary and slot entries, depth first,
/// a panel's summary before its slots.  Every listed path resolves to
/// a leaf of the tree; every canonical path that resolves to a leaf
/// is listed exactly once; and the listing is in depth-first order.
pub fn walk_entry_list(info: &EntryInfo) -> (r: Vec<EntryID>)
    ensures
        forall|k: int|
            0 <= k < r@.len() ==> spec_is_leaf_path(*info, (#[trigger] r@[k])@),
        forall|p: Seq<i64>|
            spec_canonical_path(p) && #[trigger] spec_is_leaf_path(*info, p) ==> (exists|k: int|
                0 <= k < r@.len() && (#[trigger] r@[k])@ == p),
        forall|k1: int, k2: int|
            0 <= k1 < k2 < r@.len() ==> (#[trigger] r@[k1])@ != (#[trigger] r@[k2])@,
        forall|k1: int, k2: int|
            0 <= k1 < k2 < r@.len() ==> spec_path_before(
                (#[trigger] r@[k1])@,
                (#[trigger] r@[k2])@,
            ),
{
    let mut result: Vec<EntryID> = Vec::new();
    let root = EntryID::root();
    walk_into(info, &root, info, &root, &mut result);
    proof {
        assert forall|p: Seq<i64>|
            spec_canonical_path(p) && #[trigger] spec_is_leaf_path(*info, p) implies (exists|
            k: int,
        |
            0 <= k < result@.len() && (#[trigger] result@[k])@ == p) by {
            let k = choose|k: int|
                0 <= k < result@.len() && (#[trigger] result@[k])@ == Seq::<i64>::empty() + p;
            assert(Seq::<i64>::empty() + p =~= p);
            assert(result@[k]@ == p);
        }
    }
    result
}

/// `spec_get` distributes over path concatenation.
proof fn lemma_get_append(root: EntryInfo, p: Seq<i64>, q: Seq<i64>, mid: EntryInfo)
    requires
        spec_get(root, p) == Some(mid),
    ensures
        spec_get(root, p + q) == spec_get(mid, q),
    decreases p.len(),
{
    if p.len() == 0 {
        assert(root == mid);
        assert(p + q =~= q);
    } else {
        assert((p + q)[0] == p[0]);
        assert((p + q).len() > 0);
        match root {
            EntryInfo::Panel { summary, slots, .. } => {
                assert((p + q).drop_first() =~= p.drop_first() + q);
                if p[0] < 0 {
                    match summary {
                        Option::Some(b) => {
                            lemma_get_append(*b, p.drop_first(), q, mid);
                        },
                        Option::None => {
                            assert(false);
                        },
                    }
                } else if p[0] < slots@.len() {
                    lemma_get_append(slots@[p[0] as int], p.drop_first(), q, mid);
                } else {
                    assert(false);
                }
            },
            _ => {
                assert(false);
            },
        }
    }
}

/// The recursive walk below `e`, which sits at `path` under `root`:
/// it appends one entry per leaf below `e`, touching nothing already
/// listed.
fn walk_into(
    root: &EntryInfo,
    root_id: &EntryID,
    e: &EntryInfo,
    path: &EntryID,
    out: &mut Vec<EntryID>,
)
    requires
        root_id@.len() == 0,
        spec_get(*root, path@) == Some(*e),
        forall|k: int|
            0 <= k < old(out)@.len() ==> spec_is_leaf_path(*root, (#[trigger] old(out)@[k])@),
        forall|k1: int, k2: int|
            0 <= k1 < k2 < old(out)@.len() ==> (#[trigger] old(out)@[k1])@ != (#[trigger] old(out)@[k2])@,
        forall|k: int|
            0 <= k < old(out)@.len() ==> !crate::data::spec_has_prefix(
                (#[trigger] old(out)@[k])@,
                path@,
            ),
    ensures
        final(out)@.len() >= old(out)@.len(),
        forall|k: int| 0 <= k < old(out)@.len() ==> final(out)@[k] == old(out)@[k],
        forall|k: int|
            0 <= k < final(out)@.len() ==> spec_is_leaf_path(*root, (#[trigger] final(out)@[k])@),
        forall|q: Seq<i64>|
            spec_canonical_path(q) && #[trigger] spec_is_leaf_path(*e, q) ==> (exists|k: int|
                0 <= k < final(out)@.len() && (#[trigger] final(out)@[k])@ == path@ + q),
        forall|k: int|
            old(out)@.len() <= k < final(out)@.len() ==> crate::data::spec_has_prefix(
                (#[trigger] final(out)@[k])@,
                path@,
            ),
        forall|k1: int, k2: int|
            0 <= k1 < k2 < final(out)@.len() ==> (#[trigger] final(out)@[k1])@ != (#[trigger] final(out)@[k2])@,
        forall|k1: int, k2: int|
            old(out)@.len() <= k1 < k2 < final(out)@.len() ==> spec_path_before(
                (#[trigger] final(out)@[k1])@,
                (#[trigger] final(out)@[k2])@,
            ),
    decreases *e,
{
    match e {
        EntryInfo::Panel { summary, slots, .. } => {
            let ghost len0 = out@.len();
            match summary {
                Option::Some(b) => {
                    let child_path = path.summary();
                    proof {
                        let q = seq![-1i64];
                        lemma_get_append(*root, path@, q, *e);
                        assert(path@ + q =~= child_path@);
                        assert(q.drop_first() =~= Seq::<i64>::empty());
                        assert(spec_get(*e, q) == spec_get(**b, Seq::<i64>::empty()));
                        assert(spec_get(*root, child_path@) == Some(**b));
                        assert forall|k: int|
                            0 <= k < out@.len() implies !crate::data::spec_has_prefix(
                            (#[trigger] out@[k])@,
                            child_path@,
                        ) by {
                            if crate::data::spec_has_prefix(out@[k]@, child_path@) {
                                lemma_prefix_step(out@[k]@, path@, -1i64);
                            }
                        }
                    }
                    walk_into(root, root_id, &**b, &child_path, out);
                    proof {
                        assert forall|q: Seq<i64>|
                            spec_canonical_path(q) && q.len() > 0 && q[0] == -1
                                && #[trigger] spec_is_leaf_path(*e, q) implies (exists|k: int|
                            0 <= k < out@.len() && (#[trigger] out@[k])@ == path@ + q) by {
                            let qd = q.drop_first();
                            assert(spec_get(*e, q) == spec_get(**b, qd));
                            assert(spec_is_leaf_path(**b, qd));
                            assert(spec_canonical_path(qd)) by {
                                assert(forall|x: int|
                                    0 <= x < qd.len() ==> (#[trigger] qd[x]) == q[x + 1]);
                            }
                            let k = choose|k: int|
                                0 <= k < out@.len() && (#[trigger] out@[k])@ == child_path@ + qd;
                            assert(child_path@ + qd =~= path@ + q);
                        }
                        assert forall|k: int|
                            len0 <= k < out@.len() implies crate::data::spec_has_prefix(
                            (#[trigger] out@[k])@,
                            path@,
                        ) && out@[k]@.len() > path@.len() && out@[k]@[path@.len() as int]
                            == -1 by {
                            lemma_prefix_step(out@[k]@, path@, -1i64);
                        }
                    }
                },
                Option::None => {
                    proof {
                        assert forall|q: Seq<i64>|
                            spec_canonical_path(q) && q.len() > 0 && q[0] == -1
                                && #[trigger] spec_is_leaf_path(*e, q) implies (exists|k: int|
                            0 <= k < out@.len() && (#[trigger] out@[k])@ == path@ + q) by {
                            assert(spec_get(*e, q) is None);
                        }
                    }
                },
            }
            let ghost out_after_summary = out@;
            let n: usize = slots.len();
            let mut i: usize = 0;
            while i < n
                invariant
                    0 <= i <= n == slots@.len(),
                    root_id@.len() == 0,
                    spec_get(*root, path@) == Some(*e),
                    *e matches EntryInfo::Panel { .. },
                    slots@ == crate::data::spec_slots(*e),
                    forall|j: int| 0 <= j < slots@.len() ==> height_lt_entry(#[trigger] slots@[j], *e),
                    out@.len() >= len0,
                    len0 == old(out)@.len(),
                    forall|k: int| 0 <= k < len0 ==> out@[k] == old(out)@[k],
                    forall|k: int|
                        0 <= k < out@.len() ==> spec_is_leaf_path(*root, (#[trigger] out@[k])@),
                    forall|k1: int, k2: int|
                        0 <= k1 < k2 < out@.len() ==> (#[trigger] out@[k1])@ != (#[trigger] out@[
                            k2
                        ])@,
                    forall|k: int|
                        0 <= k < len0 ==> !crate::data::spec_has_prefix(
                            (#[trigger] out@[k])@,
                            path@,
                        ),
                    forall|k: int|
                        len0 <= k < out@.len() ==> crate::data::spec_has_prefix(
                            (#[trigger] out@[k])@,
                            path@,
                        ) && out@[k]@.len() > path@.len() && (out@[k]@[path@.len() as int] == -1
                            || 0 <= out@[k]@[path@.len() as int] < i),
                    forall|k1: int, k2: int|
                        len0 <= k1 < k2 < out@.len() ==> spec_path_before(
                            (#[trigger] out@[k1])@,
                            (#[trigger] out@[k2])@,
                        ),
                    forall|q: Seq<i64>|
                        spec_canonical_path(q) && q.len() > 0 && q[0] == -1
                            && #[trigger] spec_is_leaf_path(*e, q) ==> (exists|k: int|
                            0 <= k < out@.len() && (#[trigger] out@[k])@ == path@ + q),
                    forall|q: Seq<i64>|
                        spec_canonical_path(q) && q.len() > 0 && 0 <= q[0] < i
                            && #[trigger] spec_is_leaf_path(*e, q) ==> (exists|k: int|
                            0 <= k < out@.len() && (#[trigger] out@[k])@ == path@ + q),
                decreases n - i,
            {
                let ghost pre = out@;
                if (i as u64) <= (i64::MAX as u64) {
                    let child_path = path.child(i as u64);
                    proof {
                        let q = seq![i as i64];
                        lemma_get_append(*root, path@, q, *e);
                        assert(path@ + q =~= child_path@);
                        assert(q.drop_first() =~= Seq::<i64>::empty());
                        assert(q[0] == i as i64);
                        assert(spec_get(*e, q) == spec_get(slots@[i as int], Seq::<i64>::empty()));
                        assert(spec_get(*root, child_path@) == Some(slots@[i as int]));
                        assert forall|k: int|
                            0 <= k < out@.len() implies !crate::data::spec_has_prefix(
                            (#[trigger] out@[k])@,
                            child_path@,
                        ) by {
                            if crate::data::spec_has_prefix(out@[k]@, child_path@) {
                                lemma_prefix_step(out@[k]@, path@, i as i64);
                            }
                        }
                    }
                    walk_into(root, root_id, &slots[i], &child_path, out);
                    proof {
                        lemma_walk_step(*e, slots@, path@, i as int, pre, out@, child_path@);
                        assert forall|k: int|
                            len0 <= k < out@.len() implies crate::data::spec_has_prefix(
                            (#[trigger] out@[k])@,
                            path@,
                        ) && out@[k]@.len() > path@.len() && (out@[k]@[path@.len() as int] == -1
                            || 0 <= out@[k]@[path@.len() as int] < i + 1) by {
                            if k < pre.len() {
                                assert(out@[k] == pre[k]);
                            } else {
                                lemma_prefix_step(out@[k]@, path@, i as i64);
                            }
                        }
                        assert forall|k1: int, k2: int|
                            len0 <= k1 < k2 < out@.len() implies spec_path_before(
                            (#[trigger] out@[k1])@,
                            (#[trigger] out@[k2])@,
                        ) by {
                            if k2 < pre.len() {
                                assert(out@[k1] == pre[k1]);
                                assert(out@[k2] == pre[k2]);
                            } else if k1 < pre.len() {
                                assert(out@[k1] == pre[k1]);
                                let pos = path@.len() as int;
                                lemma_prefix_step(out@[k2]@, path@, i as i64);
                                assert(out@[k1]@[pos] < out@[k2]@[pos]);
                                assert(forall|x: int|
                                    0 <= x < pos ==> (#[trigger] out@[k1]@[x]) == path@[x]
                                        && out@[k2]@[x] == path@[x]);
                                assert(spec_path_before(out@[k1]@, out@[k2]@));
                            }
                        }
                    }
                } else {
                    proof {
                        assert forall|q: Seq<i64>|
                            spec_canonical_path(q) && q.len() > 0 && 0 <= q[0] < i + 1
                                && #[trigger] spec_is_leaf_path(*e, q) implies (exists|k: int|
                            0 <= k < out@.len() && (#[trigger] out@[k])@ == path@ + q) by {
                            assert(q[0] <= i64::MAX);
                            assert(q[0] < i);
                        }
                    }
                }
                i = i + 1;
            }
            proof {
                assert forall|q: Seq<i64>|
                    spec_canonical_path(q) && #[trigger] spec_is_leaf_path(*e, q) implies (exists|
                    k: int,
                |
                    0 <= k < out@.len() && (#[trigger] out@[k])@ == path@ + q) by {
                    if q.len() == 0 {
                        assert(spec_get(*e, q) == Some(*e));
                        assert(false);
                    } else if q[0] < 0 {
                        assert(q[0] >= -1);
                        assert(q[0] == -1);
                    } else if q[0] < slots@.len() {
                        assert(q[0] < n);
                    } else {
                        assert(spec_get(*e, q) is None);
                        assert(false);
                    }
                }
            }
        },
        _ => {
            let leaf = path.clone();
            out.push(leaf);
            proof {
                assert forall|k: int|
                    0 <= k < out@.len() implies spec_is_leaf_path(
                    *root,
                    (#[trigger] out@[k])@,
                ) by {
                    if k == out@.len() - 1 {
                        assert(out@[k]@ == path@);
                    } else {
                        assert(out@[k] == old(out)@[k]);
                    }
                }
                assert forall|q: Seq<i64>|
                    spec_canonical_path(q) && #[trigger] spec_is_leaf_path(*e, q) implies (exists|
                    k: int,
                |
                    0 <= k < out@.len() && (#[trigger] out@[k])@ == path@ + q) by {
                    if q.len() == 0 {
                        assert(path@ + q =~= path@);
                        assert(out@[out@.len() - 1]@ == path@ + q);
                    } else {
                        assert(spec_get(*e, q) is None);
                        assert(false);
                    }
                }
                assert(crate::data::spec_has_prefix(path@, path@));
                assert forall|k1: int, k2: int|
                    0 <= k1 < k2 < out@.len() implies (#[trigger] out@[k1])@ != (#[trigger] out@[
                    k2
                ])@ by {
                    if k2 == out@.len() - 1 {
                        assert(out@[k1] == old(out)@[k1]);
                        assert(!crate::data::spec_has_prefix(out@[k1]@, path@));
                        if out@[k1]@ == path@ {
                            assert(crate::data::spec_has_prefix(out@[k1]@, path@));
                        }
                    } else {
                        assert(out@[k1] == old(out)@[k1]);
                        assert(out@[k2] == old(out)@[k2]);
                    }
                }
            }
        },
    }
}

/// A path with an extended prefix also has the shorter prefix, and
/// carries the extension's element in place.
proof fn lemma_prefix_step(e: Seq<i64>, path: Seq<i64>, x: i64)
    requires
        crate::data::spec_has_prefix(e, path.push(x)),
    ensures
        crate::data::spec_has_prefix(e, path),
        e.len() > path.len(),
        e[path.len() as int] == x,
{
    assert(path.push(x)[path.len() as int] == x);
    assert(forall|j: int| 0 <= j < path.len() ==> path.push(x)[j] == path[j]);
}

/// One slot visit extends the listing: the entries for paths through
/// slot `i` appear, and everything already listed survives.
proof fn lemma_walk_step(
    e: EntryInfo,
    slots: Seq<EntryInfo>,
    path: Seq<i64>,
    i: int,
    pre: Seq<crate::data::EntryID>,
    post: Seq<crate::data::EntryID>,
    child_path: Seq<i64>,
)
    requires
        e matches EntryInfo::Panel { .. },
        slots == crate::data::spec_slots(e),
        0 <= i < slots.len(),
        child_path == path.push(i as i64),
        post.len() >= pre.len(),
        forall|k: int| 0 <= k < pre.len() ==> post[k] == pre[k],
        forall|q: Seq<i64>|
            spec_canonical_path(q) && #[trigger] spec_is_leaf_path(slots[i], q) ==> (exists|k: int|
                0 <= k < post.len() && (#[trigger] post[k])@ == child_path + q),
        forall|q: Seq<i64>|
            spec_canonical_path(q) && q.len() > 0 && q[0] == -1 && #[trigger] spec_is_leaf_path(
                e,
                q,
            ) ==> (exists|k: int| 0 <= k < pre.len() && (#[trigger] pre[k])@ == path + q),
        forall|q: Seq<i64>|
            spec_canonical_path(q) && q.len() > 0 && 0 <= q[0] < i && #[trigger] spec_is_leaf_path(
                e,
                q,
            ) ==> (exists|k: int| 0 <= k < pre.len() && (#[trigger] pre[k])@ == path + q),
    ensures
        forall|q: Seq<i64>|
            spec_canonical_path(q) && q.len() > 0 && q[0] == -1 && #[trigger] spec_is_leaf_path(
                e,
                q,
            ) ==> (exists|k: int| 0 <= k < post.len() && (#[trigger] post[k])@ == path + q),
        forall|q: Seq<i64>|
            spec_canonical_path(q) && q.len() > 0 && 0 <= q[0] < i + 1
                && #[trigger] spec_is_leaf_path(e, q) ==> (exists|k: int|
                0 <= k < post.len() && (#[trigger] post[k])@ == path + q),
{
    assert forall|q: Seq<i64>|
        spec_canonical_path(q) && q.len() > 0 && q[0] == -1 && #[trigger] spec_is_leaf_path(
            e,
            q,
        ) implies (exists|k: int| 0 <= k < post.len() && (#[trigger] post[k])@ == path + q) by {
        let k = choose|k: int| 0 <= k < pre.len() && (#[trigger] pre[k])@ == path + q;
        assert(post[k] == pre[k]);
    }
    assert forall|q: Seq<i64>|
        spec_canonical_path(q) && q.len() > 0 && 0 <= q[0] < i + 1 && #[trigger] spec_is_leaf_path(
            e,
            q,
        ) implies (exists|k: int| 0 <= k < post.len() && (#[trigger] post[k])@ == path + q) by {
        if q[0] < i {
            let k = choose|k: int| 0 <= k < pre.len() && (#[trigger] pre[k])@ == path + q;
            assert(post[k] == pre[k]);
        } else {
            assert(q[0] == i);
            let qd = q.drop_first();
            assert(spec_get(e, q) == spec_get(slots[i], qd));
            assert(spec_is_leaf_path(slots[i], qd));
            assert(spec_canonical_path(qd)) by {
                assert(forall|x: int| 0 <= x < qd.len() ==> (#[trigger] qd[x]) == q[x + 1]);
            }
            let k = choose|k: int|
                0 <= k < post.len() && (#[trigger] post[k])@ == child_path + qd;
            assert(child_path + qd =~= path + q);
        }
    }
}

/// Structural descent through a panel's slot list.
pub open spec fn height_lt_entry(a: EntryInfo, b: EntryInfo) -> bool {
    decreases_to!(b => a)
}

/// Why a write could not run to completion.
#[derive(Debug, Copy, Clone, PartialEq, Eq, Structural)]
pub enum ArchiveError {
    /// The source never delivered its info.
    NoInfo,
    /// The source is static: it already has a tile pyramid.
    NotDynamic,
    /// The source's interval has a negative or unrepresentable span.
    BadInterval,
    /// `branch_factor^level` left the representable range.
    TooManyTiles,
    /// The source stopped delivering tiles while requests were
    /// outstanding.
    Stalled,
}

/// Everything a finished archive holds: the info with the pyramid
/// filled in, and one tile per entry and pyramid cell.
#[derive(Debug)]
pub struct Archive {
    pub info: DataSourceInfo,
    pub summary_tiles: Vec<SummaryTile>,
    pub slot_tiles: Vec<SlotTile>,
    pub slot_meta_tiles: Vec<SlotMetaTile>,
}

impl Archive {
    /// Look a slot tile up by its stamp, as a reader resolves an
    /// archive path.
    pub fn find_slot_tile(&self, entry_id: &EntryID, tile_id: TileID) -> (r: Option<&SlotTile>)
        ensures
            (match r {
                Some(t) => self.slot_tiles@.contains(*t) && t.entry_id@ == entry_id@ && t.tile_id
                    == tile_id,
                None => forall|k: int|
                    0 <= k < self.slot_tiles@.len() ==> !((#[trigger] self.slot_tiles@[k]).entry_id@
                        == entry_id@ && self.slot_tiles@[k].tile_id == tile_id),
            }),
    {
        let n: usize = self.slot_tiles.len();
        let mut i: usize = 0;
        while i < n
            invariant
                0 <= i <= n == self.slot_tiles@.len(),
                forall|k: int|
                    0 <= k < i ==> !((#[trigger] self.slot_tiles@[k]).entry_id@ == entry_id@
                        && self.slot_tiles@[k].tile_id == tile_id),
            decreases n - i,
        {
            let t = &self.slot_tiles[i];
            let same_tile: bool = t.tile_id.0.start.0 == tile_id.0.start.0 && t.tile_id.0.stop.0
                == tile_id.0.stop.0;
            if same_tile && t.entry_id.has_prefix(entry_id) && entry_id.has_prefix(&t.entry_id) {
                proof {
                    assert(t.entry_id@ =~= entry_id@);
                    assert(self.slot_tiles@.contains(self.slot_tiles@[i as int]));
                }
                return Some(t);
            }
            proof {
                if t.entry_id@ == entry_id@ && t.tile_id == tile_id {
                    assert(crate::data::spec_has_prefix(t.entry_id@, entry_id@));
                    assert(crate::data::spec_has_prefix(entry_id@, t.entry_id@));
                    assert(false);
                }
            }
            i = i + 1;
        }
        None
    }

    /// Look a meta tile up by its stamp.
    pub fn find_slot_meta_tile(&self, entry_id: &EntryID, tile_id: TileID) -> (r: Option<
        &SlotMetaTile,
    >)
        ensures
            (match r {
                Some(t) => self.slot_meta_tiles@.contains(*t) && t.entry_id@ == entry_id@
                    && t.tile_id == tile_id,
                None => forall|k: int|
                    0 <= k < self.slot_meta_tiles@.len() ==> !((#[trigger] self.slot_meta_tiles@[
                        k
                    ]).entry_id@ == entry_id@ && self.slot_meta_tiles@[k].tile_id == tile_id),
            }),
    {
        let n: usize = self.slot_meta_tiles.len();
        let mut i: usize = 0;
        while i < n
            invariant
                0 <= i <= n == self.slot_meta_tiles@.len(),
                forall|k: int|
                    0 <= k < i ==> !((#[trigger] self.slot_meta_tiles@[k]).entry_id@ == entry_id@
                        && self.slot_meta_tiles@[k].tile_id == tile_id),
            decreases n - i,
        {
            let t = &self.slot_meta_tiles[i];
            let same_tile: bool = t.tile_id.0.start.0 == tile_id.0.start.0 && t.tile_id.0.stop.0
                == tile_id.0.stop.0;
            if same_tile && t.entry_id.has_prefix(entry_id) && entry_id.has_prefix(&t.entry_id) {
                proof {
                    assert(t.entry_id@ =~= entry_id@);
                    assert(self.slot_meta_tiles@.contains(self.slot_meta_tiles@[i as int]));
                }
                return Some(t);
            }
            proof {
                if t.entry_id@ == entry_id@ && t.tile_id == tile_id {
                    assert(crate::data::spec_has_prefix(t.entry_id@, entry_id@));
                    assert(crate::data::spec_has_prefix(entry_id@, t.entry_id@));
                    assert(false);
                }
            }
            i = i + 1;
        }
        None
    }
}

/// Which archives a fetched info admits: only a dynamic source (an
/// empty pyramid) whose interval has a representable, non-negative
/// span.  On success, the span.
pub fn validate_archive_info(info: &DataSourceInfo) -> (r: Result<i64, ArchiveError>)
    ensures
        (match r {
            Ok(d) => info.tile_set@.len() == 0 && d == info.interval.spec_duration() && d >= 0,
            Err(e) => if info.tile_set@.len() > 0 {
                e == ArchiveError::NotDynamic
            } else {
                e == ArchiveError::BadInterval && !(0 <= info.interval.spec_duration()
                    <= i64::MAX)
            },
        }),
{
    if info.tile_set.tiles.len() > 0 {
        return Err(ArchiveError::NotDynamic);
    }
    if info.interval.stop.0 < info.interval.start.0 {
        return Err(ArchiveError::BadInterval);
    }
    match info.interval.stop.0.checked_sub(info.interval.start.0) {
        Option::Some(d) => Ok(d),
        Option::None => Err(ArchiveError::BadInterval),
    }
}

/// How many polls the writer is willing to spend waiting for a
/// result.  The drain loops are bounded so that a write always
/// terminates: a source that stays silent for this many polls in a
/// row is reported as stalled rather than waited on forever.
const DRAIN_LIMIT: u64 = 1_000_000;

/// Builds an archive from a dynamic deferred source: one fetch per
/// entry and pyramid cell, full detail on the last level.  The
/// pyramid is laid over `[0, duration)`: a total interval that does
/// not start at zero is tiled in offset space.
pub struct DataSourceArchiveWriter<T: DeferredDataSource> {
    data_source: CountingDeferredDataSource<T>,
    levels: u32,
    branch_factor: u64,
}

impl<T: DeferredDataSource> DataSourceArchiveWriter<T> {
    pub closed spec fn spec_levels(&self) -> u32 {
        self.levels
    }

    pub closed spec fn spec_branch_factor(&self) -> u64 {
        self.branch_factor
    }

    /// Nothing is in flight yet.
    pub closed spec fn spec_ready(&self) -> bool {
        self.data_source.wf() && self.data_source.spec_outstanding() == 0
    }

    pub fn new(data_source: T, levels: u32, branch_factor: u64) -> (r: Self)
        requires
            levels >= 1,
            branch_factor >= 2,
            data_source.pending_infos() == 0,
            data_source.pending_summaries() == 0,
            data_source.pending_slots() == 0,
            data_source.pending_slot_metas() == 0,
        ensures
            r.spec_levels() == levels,
            r.spec_branch_factor() == branch_factor,
            r.spec_ready(),
    {
        Self { data_source: CountingDeferredDataSource::new(data_source), levels, branch_factor }
    }

    /// Fetch every tile of the pyramid and assemble the archive.  On
    /// success the re-issued info records exactly `levels` pyramid
    /// levels and level `l` splits the interval into
    /// `branch_factor^l` tiles.
    pub fn write(self) -> (r: Result<Archive, ArchiveError>)
        requires
            self.spec_levels() >= 1,
            self.spec_branch_factor() >= 2,
            self.spec_ready(),
        ensures
            (match r {
                Ok(a) => {
                    &&& a.info.interval.spec_duration() >= 0
                    &&& a.info.tile_set@.len() == self.spec_levels()
                    &&& forall|l: int|
                        0 <= l < a.info.tile_set@.len() ==> (#[trigger] a.info.tile_set@[l]).len()
                            == spec_pow(self.spec_branch_factor() as nat, l as nat)
                    &&& forall|l: int, i: int|
                        0 <= l < a.info.tile_set@.len() && 0 <= i < a.info.tile_set@[l].len()
                            ==> (#[trigger] a.info.tile_set@[l][i]).0.start.0 == spec_tile_start(
                            a.info.interval.spec_duration(),
                            a.info.tile_set@[l].len() as int,
                            i,
                        ) && a.info.tile_set@[l][i].0.stop.0 == spec_tile_start(
                            a.info.interval.spec_duration(),
                            a.info.tile_set@[l].len() as int,
                            i + 1,
                        )
                },
                Err(_) => true,
            }),
    {
        let mut me = self;
        me.data_source.fetch_info();
        let mut info_opt: Option<DataSourceInfo> = None;
        let mut tries: u64 = 0;
        while tries < DRAIN_LIMIT
            invariant
                me.data_source.wf(),
                me.spec_levels() == self.spec_levels(),
                me.spec_branch_factor() == self.spec_branch_factor(),
            decreases DRAIN_LIMIT - tries,
        {
            let mut got = me.data_source.get_infos();
            if got.len() > 0 {
                let first = got.remove(0);
                info_opt = Some(first);
                break ;
            }
            tries = tries + 1;
        }
        let mut info = match info_opt {
            Option::Some(i) => i,
            Option::None => {
                return Err(ArchiveError::NoInfo);
            },
        };
        // Only a dynamic source over a well-formed interval can be
        // archived.
        let duration: i64 = match validate_archive_info(&info) {
            Ok(d) => d,
            Err(e) => {
                return Err(e);
            },
        };

        let entry_ids = walk_entry_list(&info.entry_info);

        let mut tile_set: Vec<Vec<TileID>> = Vec::new();
        let mut summary_tiles: Vec<SummaryTile> = Vec::new();
        let mut slot_tiles: Vec<SlotTile> = Vec::new();
        let mut slot_meta_tiles: Vec<SlotMetaTile> = Vec::new();

        let levels: u32 = me.levels;
        let branch: u64 = me.branch_factor;
        let mut num_tiles: u64 = 1;
        let mut level: u32 = 0;
        proof {
            assert(spec_pow(branch as nat, 0) == 1);
        }
        while level < levels
            invariant
                0 <= level <= levels,
                branch == self.spec_branch_factor(),
                branch >= 2,
                levels == self.spec_levels(),
                me.data_source.wf(),
                duration >= 0,
                level < levels ==> num_tiles as nat == spec_pow(branch as nat, level as nat),
                num_tiles >= 1,
                tile_set@.len() == level,
                forall|l: int|
                    0 <= l < level ==> (#[trigger] tile_set@[l])@.len() == spec_pow(
                        branch as nat,
                        l as nat,
                    ),
                forall|l: int, i: int|
                    0 <= l < level && 0 <= i < tile_set@[l]@.len()
                        ==> (#[trigger] tile_set@[l]@[i]).0.start.0 == spec_tile_start(
                        duration as int,
                        tile_set@[l]@.len() as int,
                        i,
                    ) && tile_set@[l]@[i].0.stop.0 == spec_tile_start(
                        duration as int,
                        tile_set@[l]@.len() as int,
                        i + 1,
                    ),
            decreases levels - level,
        {
            let tile_ids = pyramid_level_tiles(duration, num_tiles);
            let full: bool = level == levels - 1;

            // Submit one fetch per entry and tile.
            let en: usize = entry_ids.len();
            let mut e: usize = 0;
            while e < en
                invariant
                    en == entry_ids@.len(),
                    me.data_source.wf(),
                decreases en - e,
            {
                let entry_id = &entry_ids[e];
                let is_summary: bool = match entry_id.last_index() {
                    Option::Some(EntryIndex::Summary) => true,
                    _ => false,
                };
                let tn: usize = tile_ids.len();
                let mut t: usize = 0;
                while t < tn
                    invariant
                        tn == tile_ids@.len(),
                        en == entry_ids@.len(),
                        0 <= e < en,
                        me.data_source.wf(),
                    decreases tn - t,
                {
                    let tile_id = tile_ids[t];
                    if me.data_source.outstanding_requests() >= u64::MAX - 2 {
                        return Err(ArchiveError::TooManyTiles);
                    }
                    if is_summary {
                        me.data_source.fetch_summary_tile(entry_id, tile_id, full);
                    } else {
                        me.data_source.fetch_slot_tile(entry_id, tile_id, full);
                        me.data_source.fetch_slot_meta_tile(entry_id, tile_id, full);
                    }
                    t = t + 1;
                }
                e = e + 1;
            }

            // Drain until everything submitted has come back.
            let mut stalls: u64 = 0;
            while me.data_source.outstanding_requests() > 0 && stalls < DRAIN_LIMIT
                invariant
                    me.data_source.wf(),
                decreases me.data_source.spec_outstanding(), DRAIN_LIMIT - stalls,
            {
                let mut got_s = me.data_source.get_summary_tiles();
                let mut got_t = me.data_source.get_slot_tiles();
                let mut got_m = me.data_source.get_slot_meta_tiles();
                if got_s.len() == 0 && got_t.len() == 0 && got_m.len() == 0 {
                    stalls = stalls + 1;
                }
                summary_tiles.append(&mut got_s);
                slot_tiles.append(&mut got_t);
                slot_meta_tiles.append(&mut got_m);
            }
            if me.data_source.outstanding_requests() > 0 {
                return Err(ArchiveError::Stalled);
            }

            tile_set.push(tile_ids);
            num_tiles = match num_tiles.checked_mul(branch) {
                Option::Some(v) => {
                    proof {
                        assert(v >= 1) by (nonlinear_arith)
                            requires
                                v == num_tiles * branch,
                                num_tiles >= 1,
                                branch >= 2,
                        ;
                    }
                    v
                },
                Option::None => {
                    if level + 1 < levels {
                        return Err(ArchiveError::TooManyTiles);
                    }
                    1
                },
            };
            proof {
                assert(spec_pow(branch as nat, (level + 1) as nat) == branch * spec_pow(
                    branch as nat,
                    level as nat,
                ));
            }
            level = level + 1;
        }

        info.tile_set = TileSet { tiles: tile_set };
        Ok(Archive { info, summary_tiles, slot_tiles, slot_meta_tiles })
    }
}

} // verus!
