//! Anchor-relative duplicate grouping.
//!
//! Results are walked in their given order; each unclaimed item anchors a
//! new group and claims every later unclaimed item whose distance to the
//! anchor (never to other members) is within the threshold. Groups of one
//! are dropped. Members are ordered by ascending distance to the anchor and
//! groups by ascending average member distance.
use vstd::prelude::*;

use crate::bits::{HAMMING_MAX_LEN, hamming_bytes, spec_hamming};
use crate::aggregate::uniform_hashes;
use crate::phash::{b64_bytes_of, decode_hash_b64};
use crate::types::PipelineResult;

verus! {

/// One item of a group: the index of a pipeline result and its Hamming
/// distance to the group's anchor.
#[derive(Clone, Copy, Debug, PartialEq, Eq, Structural)]
pub struct GroupMember {
    pub index: usize,
    pub dist_bits: u32,
}

/// A group of near-duplicates: its members (anchor first) and the sum of
/// the members' distances to the anchor. The average distance is this sum
/// over the number of non-anchor members.
#[derive(Clone, Debug, PartialEq)]
pub struct Group {
    pub members: Vec<GroupMember>,
    pub dist_sum: u64,
}

/// The members claimed by anchor `i` among indices `lo <= j < hi`: each
/// unclaimed `j` whose distance to the anchor is within the threshold, in
/// scan order.
pub open spec fn scan_range(
    dec: Seq<Seq<u8>>,
    vis: Seq<bool>,
    i: int,
    lo: int,
    hi: int,
    thr: u32,
) -> Seq<GroupMember>
    decreases hi - lo,
{
    if lo >= hi {
        Seq::empty()
    } else {
        let head: Seq<GroupMember> = if !vis[lo] && spec_hamming(dec[i], dec[lo]) <= thr {
            seq![GroupMember { index: lo as usize, dist_bits: spec_hamming(dec[i], dec[lo]) as u32 }]
        } else {
            Seq::empty()
        };
        head + scan_range(dec, vis, i, lo + 1, hi, thr)
    }
}

pub open spec fn contains_index(ms: Seq<GroupMember>, k: int) -> bool {
    exists|j: int| 0 <= j < ms.len() && (#[trigger] ms[j]).index == k
}

/// The visited state after anchor `i` claims the members `ms`.
pub open spec fn mark(vis: Seq<bool>, i: int, ms: Seq<GroupMember>) -> Seq<bool> {
    Seq::new(vis.len(), |k: int| vis[k] || k == i || contains_index(ms, k))
}

/// The raw groups (anchor first, members in scan order) produced by walking
/// anchors from `i` upward over the visited state `vis`. Only groups that
/// claimed at least one member are kept.
pub open spec fn spec_run(dec: Seq<Seq<u8>>, vis: Seq<bool>, i: int, thr: u32) -> Seq<
    Seq<GroupMember>,
>
    decreases dec.len() - i,
{
    let n = dec.len() as int;
    if i < 0 || i >= n {
        Seq::empty()
    } else if vis[i] {
        spec_run(dec, vis, i + 1, thr)
    } else {
        let ms = scan_range(dec, vis, i, i + 1, n, thr);
        let g = seq![GroupMember { index: i as usize, dist_bits: 0 }] + ms;
        let vis2 = mark(vis, i, ms);
        let rest = spec_run(dec, vis2, i + 1, thr);
        if g.len() >= 2 {
            seq![g] + rest
        } else {
            rest
        }
    }
}

/// Sum of the members' distances to the anchor.
pub open spec fn sum_dists(ms: Seq<GroupMember>) -> nat
    decreases ms.len(),
{
    if ms.len() == 0 {
        0
    } else {
        (ms[0].dist_bits + sum_dists(ms.drop_first())) as nat
    }
}

/// Insert a member behind every already-placed member whose distance does
/// not exceed its own, keeping the sort stable.
pub open spec fn insert_member(m: GroupMember, s: Seq<GroupMember>) -> Seq<GroupMember>
    decreases s.len(),
{
    if s.len() == 0 {
        seq![m]
    } else if s[0].dist_bits <= m.dist_bits {
        seq![s[0]] + insert_member(m, s.drop_first())
    } else {
        seq![m] + s
    }
}

/// Stable insertion sort of members by ascending distance.
pub open spec fn sort_members(s: Seq<GroupMember>) -> Seq<GroupMember>
    decreases s.len(),
{
    if s.len() == 0 {
        Seq::empty()
    } else {
        insert_member(s.last(), sort_members(s.drop_last()))
    }
}

/// A group as mathematics: its member sequence and its distance sum.
pub open spec fn group_model(g: Group) -> (Seq<GroupMember>, nat) {
    (g.members@, g.dist_sum as nat)
}

pub open spec fn groups_model(s: Seq<Group>) -> Seq<(Seq<GroupMember>, nat)> {
    Seq::new(s.len(), |k: int| group_model(s[k]))
}

/// A raw group, finished: members sorted by distance, distance sum attached.
pub open spec fn finalize(raw: Seq<GroupMember>) -> (Seq<GroupMember>, nat) {
    (sort_members(raw), sum_dists(raw))
}

pub open spec fn map_finalize(gs: Seq<Seq<GroupMember>>) -> Seq<(Seq<GroupMember>, nat)> {
    Seq::new(gs.len(), |k: int| finalize(gs[k]))
}

/// Group order: ascending average member distance, compared without
/// division as `sum_a * count_b <= sum_b * count_a`.
pub open spec fn grp_le(a: (Seq<GroupMember>, nat), b: (Seq<GroupMember>, nat)) -> bool {
    a.1 * (b.0.len() - 1) <= b.1 * (a.0.len() - 1)
}

pub open spec fn insert_grp(g: (Seq<GroupMember>, nat), s: Seq<(Seq<GroupMember>, nat)>) -> Seq<
    (Seq<GroupMember>, nat),
>
    decreases s.len(),
{
    if s.len() == 0 {
        seq![g]
    } else if grp_le(s[0], g) {
        seq![s[0]] + insert_grp(g, s.drop_first())
    } else {
        seq![g] + s
    }
}

/// Stable insertion sort of groups by ascending average distance.
pub open spec fn sort_grps(s: Seq<(Seq<GroupMember>, nat)>) -> Seq<(Seq<GroupMember>, nat)>
    decreases s.len(),
{
    if s.len() == 0 {
        Seq::empty()
    } else {
        insert_grp(s.last(), sort_grps(s.drop_last()))
    }
}

/// The whole grouping, as mathematics: fewer than two items give no groups;
/// otherwise the greedy anchor walk, each group's members sorted by
/// distance, and the groups sorted by average distance.
pub open spec fn spec_groups(dec: Seq<Seq<u8>>, thr: u32) -> Seq<(Seq<GroupMember>, nat)> {
    if dec.len() < 2 {
        Seq::empty()
    } else {
        sort_grps(map_finalize(spec_run(dec, Seq::new(dec.len(), |k: int| false), 0, thr)))
    }
}

/// Indices a scan can claim lie inside the scanned range.
proof fn lemma_scan_range_indices(
    dec: Seq<Seq<u8>>,
    vis: Seq<bool>,
    i: int,
    lo: int,
    hi: int,
    thr: u32,
)
    requires
        0 <= lo,
        hi <= usize::MAX,
    ensures
        forall|j: int|
            0 <= j < scan_range(dec, vis, i, lo, hi, thr).len() ==> lo <= (#[trigger] scan_range(
                dec,
                vis,
                i,
                lo,
                hi,
                thr,
            )[j]).index < hi,
    decreases hi - lo,
{
    if lo < hi {
        lemma_scan_range_indices(dec, vis, i, lo + 1, hi, thr);
        let s = scan_range(dec, vis, i, lo, hi, thr);
        let rest = scan_range(dec, vis, i, lo + 1, hi, thr);
        assert forall|j: int| 0 <= j < s.len() implies lo <= (#[trigger] s[j]).index < hi by {
            if !vis[lo] && spec_hamming(dec[i], dec[lo]) <= thr {
                if j > 0 {
                    assert(s[j] == rest[j - 1]);
                } else {
                    assert(s[0].index == lo as usize);
                }
            } else {
                assert(s[j] == rest[j]);
            }
        }
    }
}

/// Extending the scanned range by one examines exactly the next index.
proof fn lemma_scan_range_snoc(
    dec: Seq<Seq<u8>>,
    vis: Seq<bool>,
    i: int,
    lo: int,
    hi: int,
    thr: u32,
)
    requires
        lo <= hi,
    ensures
        scan_range(dec, vis, i, lo, hi + 1, thr) == scan_range(dec, vis, i, lo, hi, thr) + (
        if !vis[hi] && spec_hamming(dec[i], dec[hi]) <= thr {
            seq![
                GroupMember {
                    index: hi as usize,
                    dist_bits: spec_hamming(dec[i], dec[hi]) as u32,
                },
            ]
        } else {
            Seq::<GroupMember>::empty()
        }),
    decreases hi - lo,
{
    let tail: Seq<GroupMember> = if !vis[hi] && spec_hamming(dec[i], dec[hi]) <= thr {
        seq![GroupMember { index: hi as usize, dist_bits: spec_hamming(dec[i], dec[hi]) as u32 }]
    } else {
        Seq::empty()
    };
    if lo == hi {
        assert(scan_range(dec, vis, i, lo, hi, thr) == Seq::<GroupMember>::empty());
        assert(scan_range(dec, vis, i, lo + 1, hi + 1, thr) == Seq::<GroupMember>::empty());
        assert(scan_range(dec, vis, i, lo, hi + 1, thr) =~= scan_range(dec, vis, i, lo, hi, thr)
            + tail);
    } else {
        lemma_scan_range_snoc(dec, vis, i, lo + 1, hi, thr);
        assert(scan_range(dec, vis, i, lo, hi + 1, thr) =~= scan_range(dec, vis, i, lo, hi, thr)
            + tail);
    }
}

/// Distance sums split over concatenation.
proof fn lemma_sum_dists_concat(a: Seq<GroupMember>, b: Seq<GroupMember>)
    ensures
        sum_dists(a + b) == sum_dists(a) + sum_dists(b),
    decreases a.len(),
{
    if a.len() == 0 {
        assert(a + b =~= b);
    } else {
        assert((a + b).drop_first() =~= a.drop_first() + b);
        lemma_sum_dists_concat(a.drop_first(), b);
    }
}

proof fn lemma_contains_index_snoc(s: Seq<GroupMember>, m: GroupMember, k: int)
    ensures
        contains_index(s.push(m), k) == (contains_index(s, k) || m.index == k),
{
    if contains_index(s, k) {
        let j = choose|j: int| 0 <= j < s.len() && (#[trigger] s[j]).index == k;
        assert(s.push(m)[j] == s[j]);
    }
    if m.index == k {
        assert(s.push(m)[s.len() as int] == m);
    }
    if contains_index(s.push(m), k) {
        let j = choose|j: int| 0 <= j < s.push(m).len() && (#[trigger] s.push(m)[j]).index == k;
        if j < s.len() {
            assert(s[j] == s.push(m)[j]);
        } else {
            assert(s.push(m)[j] == m);
        }
    }
}

proof fn lemma_insert_member_len(m: GroupMember, s: Seq<GroupMember>)
    ensures
        insert_member(m, s).len() == s.len() + 1,
    decreases s.len(),
{
    if s.len() > 0 && s[0].dist_bits <= m.dist_bits {
        lemma_insert_member_len(m, s.drop_first());
    }
}

proof fn lemma_sort_members_len(s: Seq<GroupMember>)
    ensures
        sort_members(s).len() == s.len(),
    decreases s.len(),
{
    if s.len() > 0 {
        lemma_sort_members_len(s.drop_last());
        lemma_insert_member_len(s.last(), sort_members(s.drop_last()));
    }
}

/// Members listed in non-decreasing distance to the anchor.
pub open spec fn members_sorted(s: Seq<GroupMember>) -> bool {
    forall|a: int, b: int| 0 <= a <= b < s.len() ==> s[a].dist_bits <= s[b].dist_bits
}

/// Groups listed in ascending average distance.
pub open spec fn grps_sorted(s: Seq<(Seq<GroupMember>, nat)>) -> bool {
    forall|a: int, b: int| 0 <= a <= b < s.len() ==> grp_le(s[a], s[b])
}

/// A group that may be emitted: at least two members, the anchor first at
/// distance zero, members in non-decreasing distance order.
pub open spec fn group_wf(x: (Seq<GroupMember>, nat)) -> bool {
    &&& x.0.len() >= 2
    &&& x.0[0].dist_bits == 0
    &&& members_sorted(x.0)
}

proof fn lemma_insert_member_props(m: GroupMember, s: Seq<GroupMember>)
    requires
        members_sorted(s),
    ensures
        members_sorted(insert_member(m, s)),
        insert_member(m, s).len() == s.len() + 1,
        forall|x: int|
            0 <= x < insert_member(m, s).len() ==> ((#[trigger] insert_member(m, s)[x]) == m
                || exists|y: int| 0 <= y < s.len() && s[y] == insert_member(m, s)[x]),
        exists|x: int| 0 <= x < insert_member(m, s).len() && (#[trigger] insert_member(m, s)[x])
            == m,
        forall|y: int|
            0 <= y < s.len() ==> exists|x: int|
                0 <= x < insert_member(m, s).len() && (#[trigger] insert_member(m, s)[x]) == (
                #[trigger] s[y]),
    decreases s.len(),
{
    let r = insert_member(m, s);
    if s.len() == 0 {
        assert(r[0] == m);
    } else if s[0].dist_bits <= m.dist_bits {
        let d = s.drop_first();
        assert forall|a: int, b: int| 0 <= a <= b < d.len() implies d[a].dist_bits
            <= d[b].dist_bits by {
            assert(d[a] == s[a + 1] && d[b] == s[b + 1]);
        }
        lemma_insert_member_props(m, d);
        let ri = insert_member(m, d);
        assert(r =~= seq![s[0]] + ri);
        // every element behind the head is the insertion into the tail
        assert forall|x: int| 0 <= x < r.len() implies ((#[trigger] r[x]) == m || exists|y: int|
            0 <= y < s.len() && s[y] == r[x]) by {
            if x == 0 {
                assert(s[0] == r[0]);
            } else {
                assert(r[x] == ri[x - 1]);
                if ri[x - 1] == m {
                } else {
                    let y = choose|y: int| 0 <= y < d.len() && d[y] == ri[x - 1];
                    assert(s[y + 1] == r[x]);
                }
            }
        }
        assert forall|a: int, b: int| 0 <= a <= b < r.len() implies r[a].dist_bits
            <= r[b].dist_bits by {
            if a == 0 && b > 0 {
                assert(r[b] == ri[b - 1]);
                if ri[b - 1] == m {
                } else {
                    let y = choose|y: int| 0 <= y < d.len() && d[y] == ri[b - 1];
                    assert(s[0].dist_bits <= s[y + 1].dist_bits);
                }
            } else if a > 0 {
                assert(r[a] == ri[a - 1] && r[b] == ri[b - 1]);
            }
        }
        let xm = choose|x: int| 0 <= x < ri.len() && ri[x] == m;
        assert(r[xm + 1] == m);
        assert forall|y: int| 0 <= y < s.len() implies exists|x: int|
            0 <= x < r.len() && (#[trigger] r[x]) == (#[trigger] s[y]) by {
            if y == 0 {
                assert(r[0] == s[0]);
            } else {
                assert(d[y - 1] == s[y]);
                let x = choose|x: int| 0 <= x < ri.len() && ri[x] == d[y - 1];
                assert(r[x + 1] == s[y]);
            }
        }
    } else {
        assert(r =~= seq![m] + s);
        assert forall|a: int, b: int| 0 <= a <= b < r.len() implies r[a].dist_bits
            <= r[b].dist_bits by {
            if a == 0 && b > 0 {
                assert(r[b] == s[b - 1]);
                assert(m.dist_bits <= s[0].dist_bits);
                assert(s[0].dist_bits <= s[b - 1].dist_bits);
            } else if a > 0 {
                assert(r[a] == s[a - 1] && r[b] == s[b - 1]);
            }
        }
        assert(r[0] == m);
        assert forall|y: int| 0 <= y < s.len() implies exists|x: int|
            0 <= x < r.len() && (#[trigger] r[x]) == (#[trigger] s[y]) by {
            assert(r[y + 1] == s[y]);
        }
        assert forall|x: int| 0 <= x < r.len() implies ((#[trigger] r[x]) == m || exists|y: int|
            0 <= y < s.len() && s[y] == r[x]) by {
            if x > 0 {
                assert(s[x - 1] == r[x]);
            }
        }
    }
}

proof fn lemma_sort_members_sorted(s: Seq<GroupMember>)
    ensures
        members_sorted(sort_members(s)),
        sort_members(s).len() == s.len(),
    decreases s.len(),
{
    if s.len() > 0 {
        let d = s.drop_last();
        lemma_sort_members_sorted(d);
        lemma_insert_member_props(s.last(), sort_members(d));
    }
}

/// Every member of the unsorted list appears in the sorted one.
proof fn lemma_sort_members_contains(s: Seq<GroupMember>)
    ensures
        sort_members(s).len() == s.len(),
        forall|y: int|
            0 <= y < s.len() ==> exists|x: int|
                0 <= x < s.len() && sort_members(s)[x] == (#[trigger] s[y]),
    decreases s.len(),
{
    if s.len() > 0 {
        let d = s.drop_last();
        lemma_sort_members_contains(d);
        lemma_sort_members_sorted(d);
        lemma_insert_member_props(s.last(), sort_members(d));
        let r = sort_members(s);
        assert(r == insert_member(s.last(), sort_members(d)));
        assert forall|y: int| 0 <= y < s.len() implies exists|x: int|
            0 <= x < s.len() && r[x] == (#[trigger] s[y]) by {
            if y == s.len() - 1 {
                let x = choose|x: int| 0 <= x < r.len() && r[x] == s.last();
            } else {
                assert(d[y] == s[y]);
                let x0 = choose|x0: int| 0 <= x0 < d.len() && sort_members(d)[x0] == d[y];
                let x = choose|x: int| 0 <= x < r.len() && r[x] == sort_members(d)[x0];
            }
        }
    }
}

/// Among sorted members one of which sits at distance zero, the first is
/// at distance zero.
proof fn lemma_sorted_head_zero(s: Seq<GroupMember>)
    requires
        s.len() >= 1,
        members_sorted(s),
        exists|j: int| 0 <= j < s.len() && (#[trigger] s[j]).dist_bits == 0,
    ensures
        s[0].dist_bits == 0,
{
    let j = choose|j: int| 0 <= j < s.len() && (#[trigger] s[j]).dist_bits == 0;
    assert(s[0].dist_bits <= s[j].dist_bits);
}

/// Average order is total.
proof fn lemma_grp_le_total(a: (Seq<GroupMember>, nat), b: (Seq<GroupMember>, nat))
    ensures
        grp_le(a, b) || grp_le(b, a),
{
}

/// Average order is transitive over groups with at least two members.
proof fn lemma_grp_le_trans(
    a: (Seq<GroupMember>, nat),
    b: (Seq<GroupMember>, nat),
    c: (Seq<GroupMember>, nat),
)
    requires
        a.0.len() >= 2,
        b.0.len() >= 2,
        c.0.len() >= 2,
        grp_le(a, b),
        grp_le(b, c),
    ensures
        grp_le(a, c),
{
    let an = a.0.len() - 1;
    let bn = b.0.len() - 1;
    let cn = c.0.len() - 1;
    assert(a.1 * cn <= c.1 * an) by (nonlinear_arith)
        requires
            an >= 1,
            bn >= 1,
            cn >= 1,
            a.1 >= 0,
            b.1 >= 0,
            c.1 >= 0,
            a.1 * bn <= b.1 * an,
            b.1 * cn <= c.1 * bn,
    ;
}

proof fn lemma_insert_grp_props(g: (Seq<GroupMember>, nat), s: Seq<(Seq<GroupMember>, nat)>)
    requires
        g.0.len() >= 2,
        forall|y: int| 0 <= y < s.len() ==> (#[trigger] s[y]).0.len() >= 2,
        grps_sorted(s),
    ensures
        grps_sorted(insert_grp(g, s)),
        insert_grp(g, s).len() == s.len() + 1,
        forall|x: int|
            0 <= x < insert_grp(g, s).len() ==> ((#[trigger] insert_grp(g, s)[x]) == g || exists|
                y: int,
            | 0 <= y < s.len() && s[y] == insert_grp(g, s)[x]),
    decreases s.len(),
{
    let r = insert_grp(g, s);
    if s.len() == 0 {
        assert(r[0] == g);
    } else if grp_le(s[0], g) {
        let d = s.drop_first();
        assert forall|a: int, b: int| 0 <= a <= b < d.len() implies grp_le(d[a], d[b]) by {
            assert(d[a] == s[a + 1] && d[b] == s[b + 1]);
        }
        assert forall|y: int| 0 <= y < d.len() implies (#[trigger] d[y]).0.len() >= 2 by {
            assert(d[y] == s[y + 1]);
        }
        lemma_insert_grp_props(g, d);
        let ri = insert_grp(g, d);
        assert(r =~= seq![s[0]] + ri);
        assert forall|x: int| 0 <= x < r.len() implies ((#[trigger] r[x]) == g || exists|y: int|
            0 <= y < s.len() && s[y] == r[x]) by {
            if x == 0 {
                assert(s[0] == r[0]);
            } else {
                assert(r[x] == ri[x - 1]);
                if ri[x - 1] == g {
                } else {
                    let y = choose|y: int| 0 <= y < d.len() && d[y] == ri[x - 1];
                    assert(s[y + 1] == r[x]);
                }
            }
        }
        assert forall|a: int, b: int| 0 <= a <= b < r.len() implies grp_le(r[a], r[b]) by {
            if a == 0 && b > 0 {
                assert(r[b] == ri[b - 1]);
                if ri[b - 1] == g {
                } else {
                    let y = choose|y: int| 0 <= y < d.len() && d[y] == ri[b - 1];
                    assert(grp_le(s[0], s[y + 1]));
                }
            } else if a > 0 {
                assert(r[a] == ri[a - 1] && r[b] == ri[b - 1]);
            }
        }
    } else {
        assert(r =~= seq![g] + s);
        lemma_grp_le_total(s[0], g);
        assert(grp_le(g, s[0]));
        assert forall|a: int, b: int| 0 <= a <= b < r.len() implies grp_le(r[a], r[b]) by {
            if a == 0 && b > 0 {
                assert(r[b] == s[b - 1]);
                assert(grp_le(s[0], s[b - 1]));
                lemma_grp_le_trans(g, s[0], s[b - 1]);
            } else if a > 0 {
                assert(r[a] == s[a - 1] && r[b] == s[b - 1]);
            }
        }
        assert forall|x: int| 0 <= x < r.len() implies ((#[trigger] r[x]) == g || exists|y: int|
            0 <= y < s.len() && s[y] == r[x]) by {
            if x > 0 {
                assert(s[x - 1] == r[x]);
            }
        }
    }
}

proof fn lemma_sort_grps_props(s: Seq<(Seq<GroupMember>, nat)>)
    requires
        forall|y: int| 0 <= y < s.len() ==> (#[trigger] s[y]).0.len() >= 2,
    ensures
        grps_sorted(sort_grps(s)),
        sort_grps(s).len() == s.len(),
        forall|x: int|
            0 <= x < s.len() ==> exists|y: int|
                0 <= y < s.len() && (#[trigger] sort_grps(s)[x]) == s[y],
    decreases s.len(),
{
    if s.len() > 0 {
        let d = s.drop_last();
        assert forall|y: int| 0 <= y < d.len() implies (#[trigger] d[y]).0.len() >= 2 by {
            assert(d[y] == s[y]);
        }
        lemma_sort_grps_props(d);
        let sd = sort_grps(d);
        assert forall|y: int| 0 <= y < sd.len() implies (#[trigger] sd[y]).0.len() >= 2 by {
            let y0 = choose|y0: int| 0 <= y0 < d.len() && sd[y] == d[y0];
        }
        lemma_insert_grp_props(s.last(), sd);
        let r = sort_grps(s);
        assert(r == insert_grp(s.last(), sd));
        assert forall|x: int| 0 <= x < s.len() implies exists|y: int|
            0 <= y < s.len() && (#[trigger] r[x]) == s[y] by {
            if r[x] == s.last() {
                assert(r[x] == s[s.len() - 1]);
            } else {
                let y0 = choose|y0: int| 0 <= y0 < sd.len() && sd[y0] == r[x];
                let y1 = choose|y1: int| 0 <= y1 < d.len() && sd[y0] == d[y1];
                assert(d[y1] == s[y1]);
            }
        }
    }
}

/// The raw groups of the anchor walk all have at least two members and the
/// anchor, at distance zero, first.
proof fn lemma_run_groups_raw(dec: Seq<Seq<u8>>, vis: Seq<bool>, i: int, thr: u32)
    ensures
        forall|k: int|
            0 <= k < spec_run(dec, vis, i, thr).len() ==> {
                let g = #[trigger] spec_run(dec, vis, i, thr)[k];
                g.len() >= 2 && g[0].dist_bits == 0
            },
    decreases dec.len() - i,
{
    let n = dec.len() as int;
    if 0 <= i && i < n {
        if vis[i] {
            lemma_run_groups_raw(dec, vis, i + 1, thr);
            assert(spec_run(dec, vis, i, thr) == spec_run(dec, vis, i + 1, thr));
            assert forall|k: int| 0 <= k < spec_run(dec, vis, i, thr).len() implies {
                let g = #[trigger] spec_run(dec, vis, i, thr)[k];
                g.len() >= 2 && g[0].dist_bits == 0
            } by {
                assert(spec_run(dec, vis, i, thr)[k] == spec_run(dec, vis, i + 1, thr)[k]);
            }
        } else {
            let ms = scan_range(dec, vis, i, i + 1, n, thr);
            let g0 = seq![GroupMember { index: i as usize, dist_bits: 0 }] + ms;
            let vis2 = mark(vis, i, ms);
            lemma_run_groups_raw(dec, vis2, i + 1, thr);
            let rest = spec_run(dec, vis2, i + 1, thr);
            if g0.len() >= 2 {
                assert forall|k: int| 0 <= k < spec_run(dec, vis, i, thr).len() implies {
                    let g = #[trigger] spec_run(dec, vis, i, thr)[k];
                    g.len() >= 2 && g[0].dist_bits == 0
                } by {
                    if k == 0 {
                        assert(spec_run(dec, vis, i, thr)[0] == g0);
                        assert(g0[0].dist_bits == 0);
                    } else {
                        assert(spec_run(dec, vis, i, thr)[k] == rest[k - 1]);
                    }
                }
            } else {
                assert(spec_run(dec, vis, i, thr) == rest);
                assert forall|k: int| 0 <= k < spec_run(dec, vis, i, thr).len() implies {
                    let g = #[trigger] spec_run(dec, vis, i, thr)[k];
                    g.len() >= 2 && g[0].dist_bits == 0
                } by {
                    assert(spec_run(dec, vis, i, thr)[k] == rest[k]);
                }
            }
        }
    }
}

/// Every emitted group has at least two members, opens with its anchor at
/// distance zero, and lists members in non-decreasing distance to the
/// anchor; the groups themselves come in ascending average distance.
pub proof fn lemma_groups_well_formed(dec: Seq<Seq<u8>>, thr: u32)
    ensures
        forall|k: int|
            0 <= k < spec_groups(dec, thr).len() ==> group_wf(#[trigger] spec_groups(dec, thr)[k]),
        grps_sorted(spec_groups(dec, thr)),
{
    if dec.len() >= 2 {
        let vis0 = Seq::new(dec.len(), |k: int| false);
        let raw = spec_run(dec, vis0, 0, thr);
        lemma_run_groups_raw(dec, vis0, 0, thr);
        let mapped = map_finalize(raw);
        assert forall|k: int| 0 <= k < mapped.len() implies group_wf(#[trigger] mapped[k]) by {
            let g = raw[k];
            lemma_sort_members_sorted(g);
            lemma_sort_members_contains(g);
            assert(mapped[k] == finalize(g));
            assert(g[0].dist_bits == 0);
            let x = choose|x: int| 0 <= x < g.len() && sort_members(g)[x] == g[0];
            lemma_sorted_head_zero(sort_members(g));
        }
        assert forall|y: int| 0 <= y < mapped.len() implies (#[trigger] mapped[y]).0.len() >= 2 by {
            assert(group_wf(mapped[y]));
        }
        lemma_sort_grps_props(mapped);
        assert forall|k: int| 0 <= k < spec_groups(dec, thr).len() implies group_wf(
            #[trigger] spec_groups(dec, thr)[k],
        ) by {
            let y = choose|y: int| 0 <= y < mapped.len() && spec_groups(dec, thr)[k] == mapped[y];
            assert(group_wf(mapped[y]));
        }
    }
}

/// Three items where only the second lies within the threshold of the
/// first produce exactly one group: the first item as anchor, the second
/// as its lone member, and the third left out.
pub proof fn lemma_three_item_group(dec: Seq<Seq<u8>>, thr: u32)
    requires
        dec.len() == 3,
        spec_hamming(dec[0], dec[1]) <= thr,
        spec_hamming(dec[0], dec[2]) > thr,
    ensures
        ({
            let d01 = spec_hamming(dec[0], dec[1]) as u32;
            let members = seq![
                GroupMember { index: 0, dist_bits: 0 },
                GroupMember { index: 1, dist_bits: d01 },
            ];
            spec_groups(dec, thr) == seq![(members, d01 as nat)]
        }),
{
    let d01 = spec_hamming(dec[0], dec[1]) as u32;
    let a0 = GroupMember { index: 0, dist_bits: 0 };
    let m1 = GroupMember { index: 1, dist_bits: d01 };
    let vis0 = Seq::new(3, |k: int| false);
    // the first anchor's scan claims item 1 and passes item 2 over
    assert(scan_range(dec, vis0, 0, 3, 3, thr) =~= Seq::<GroupMember>::empty());
    assert(scan_range(dec, vis0, 0, 2, 3, thr) =~= Seq::<GroupMember>::empty());
    assert(scan_range(dec, vis0, 0, 1, 3, thr) =~= seq![m1]);
    let g = seq![a0] + seq![m1];
    assert(seq![a0] + scan_range(dec, vis0, 0, 1, 3, thr) =~= g);
    let vis2 = mark(vis0, 0, seq![m1]);
    assert(vis2[1]) by {
        assert(seq![m1][0].index == 1);
        assert(contains_index(seq![m1], 1));
    }
    assert(!vis2[2]) by {
        if contains_index(seq![m1], 2) {
            let j = choose|j: int| 0 <= j < seq![m1].len() && (#[trigger] seq![m1][j]).index == 2;
            assert(seq![m1][j] == m1);
        }
    }
    // past item 1 nothing is left: item 2 anchors a group of one, dropped
    let ms2 = scan_range(dec, vis2, 2, 3, 3, thr);
    assert(ms2 =~= Seq::<GroupMember>::empty());
    let vis3 = mark(vis2, 2, ms2);
    assert(spec_run(dec, vis3, 3, thr) =~= Seq::<Seq<GroupMember>>::empty());
    assert((seq![GroupMember { index: 2, dist_bits: 0 }] + ms2).len() == 1);
    assert(spec_run(dec, vis2, 2, thr) =~= Seq::<Seq<GroupMember>>::empty());
    assert(spec_run(dec, vis2, 1, thr) =~= Seq::<Seq<GroupMember>>::empty());
    assert(spec_run(dec, vis0, 0, thr) =~= seq![g]);
    // finishing the one group keeps the anchor first and sums one distance
    assert(sort_members(g) =~= seq![a0, m1]) by {
        assert(g.drop_last() =~= seq![a0]);
        assert(g.last() == m1);
        assert(seq![a0].drop_last() =~= Seq::<GroupMember>::empty());
        assert(sort_members(Seq::<GroupMember>::empty()) == Seq::<GroupMember>::empty());
        assert(sort_members(seq![a0]) =~= insert_member(a0, Seq::<GroupMember>::empty()));
        assert(sort_members(seq![a0]) =~= seq![a0]);
        assert(insert_member(m1, seq![a0]) =~= seq![a0] + insert_member(
            m1,
            seq![a0].drop_first(),
        ));
        assert(seq![a0].drop_first() =~= Seq::<GroupMember>::empty());
        assert(insert_member(m1, Seq::<GroupMember>::empty()) =~= seq![m1]);
    }
    assert(sum_dists(g) == d01 as nat) by {
        assert(g.drop_first() =~= seq![m1]);
        assert(seq![m1].drop_first() =~= Seq::<GroupMember>::empty());
        assert(sum_dists(Seq::<GroupMember>::empty()) == 0);
        assert(sum_dists(seq![m1]) == d01 as nat);
    }
    let fg = (seq![a0, m1], d01 as nat);
    assert(map_finalize(seq![g]) =~= seq![fg]) by {
        assert(map_finalize(seq![g])[0] == finalize(g));
        assert(finalize(g) == (sort_members(g), sum_dists(g)));
    }
    assert(sort_grps(seq![fg]) =~= seq![fg]) by {
        assert(seq![fg].drop_last() =~= Seq::<(Seq<GroupMember>, nat)>::empty());
        assert(sort_grps(Seq::<(Seq<GroupMember>, nat)>::empty()) == Seq::<(
            Seq<GroupMember>,
            nat,
        )>::empty());
        assert(seq![fg].last() == fg);
        assert(insert_grp(fg, Seq::<(Seq<GroupMember>, nat)>::empty()) =~= seq![fg]);
    }
    assert(spec_groups(dec, thr) =~= seq![fg]) by {
        assert(Seq::new(dec.len(), |k: int| false) =~= vis0);
        assert(map_finalize(spec_run(dec, Seq::new(dec.len(), |k: int| false), 0, thr))
            =~= seq![fg]);
    }
}

/// Inserting a member places it exactly at the first position whose
/// distance exceeds its own.
proof fn lemma_insert_member_split(m: GroupMember, s: Seq<GroupMember>, p: int)
    requires
        0 <= p <= s.len(),
        forall|j: int| 0 <= j < p ==> (#[trigger] s[j]).dist_bits <= m.dist_bits,
        p < s.len() ==> !(s[p].dist_bits <= m.dist_bits),
    ensures
        insert_member(m, s) =~= s.subrange(0, p) + seq![m] + s.subrange(p, s.len() as int),
    decreases s.len(),
{
    if s.len() == 0 {
    } else if p == 0 {
    } else {
        let d = s.drop_first();
        assert forall|j: int| 0 <= j < p - 1 implies (#[trigger] d[j]).dist_bits
            <= m.dist_bits by {
            assert(d[j] == s[j + 1]);
        }
        if p - 1 < d.len() {
            assert(d[p - 1] == s[p]);
        }
        lemma_insert_member_split(m, d, p - 1);
        assert(s[0].dist_bits <= m.dist_bits);
        assert(insert_member(m, s) == seq![s[0]] + insert_member(m, d));
        assert(seq![s[0]] + (d.subrange(0, p - 1) + seq![m] + d.subrange(p - 1, d.len() as int))
            =~= s.subrange(0, p) + seq![m] + s.subrange(p, s.len() as int));
    }
}

/// Place one member into an already sorted list, behind its equals.
fn insert_sorted_member(out: &mut Vec<GroupMember>, m: GroupMember)
    ensures
        final(out)@ == insert_member(m, old(out)@),
{
    let n = out.len();
    let mut p: usize = 0;
    while p < n && out[p].dist_bits <= m.dist_bits
        invariant
            n == out@.len(),
            out@ == old(out)@,
            0 <= p <= n,
            forall|j: int| 0 <= j < p ==> (#[trigger] out@[j]).dist_bits <= m.dist_bits,
        decreases n - p,
    {
        p = p + 1;
    }
    proof {
        lemma_insert_member_split(m, out@, p as int);
    }
    out.insert(p, m);
    proof {
        assert(final(out)@ =~= old(out)@.subrange(0, p as int) + seq![m] + old(out)@.subrange(
            p as int,
            old(out)@.len() as int,
        ));
    }
}

/// Sort a group's members by ascending distance to the anchor, stably.
fn sorted_members(v: &Vec<GroupMember>) -> (r: Vec<GroupMember>)
    ensures
        r@ == sort_members(v@),
{
    let n = v.len();
    let mut out: Vec<GroupMember> = Vec::new();
    let mut k: usize = 0;
    while k < n
        invariant
            n == v@.len(),
            0 <= k <= n,
            out@ == sort_members(v@.take(k as int)),
        decreases n - k,
    {
        insert_sorted_member(&mut out, v[k]);
        proof {
            assert(v@.take(k + 1).drop_last() =~= v@.take(k as int));
            assert(v@.take(k + 1).last() == v@[k as int]);
        }
        k = k + 1;
    }
    proof {
        assert(v@.take(n as int) =~= v@);
    }
    out
}

/// Inserting a group places it exactly at the first position whose average
/// distance exceeds its own.
proof fn lemma_insert_grp_split(g: (Seq<GroupMember>, nat), s: Seq<(Seq<GroupMember>, nat)>, p: int)
    requires
        0 <= p <= s.len(),
        forall|j: int| 0 <= j < p ==> grp_le(#[trigger] s[j], g),
        p < s.len() ==> !grp_le(s[p], g),
    ensures
        insert_grp(g, s) =~= s.subrange(0, p) + seq![g] + s.subrange(p, s.len() as int),
    decreases s.len(),
{
    if s.len() == 0 {
    } else if p == 0 {
    } else {
        let d = s.drop_first();
        assert forall|j: int| 0 <= j < p - 1 implies grp_le(#[trigger] d[j], g) by {
            assert(d[j] == s[j + 1]);
        }
        if p - 1 < d.len() {
            assert(d[p - 1] == s[p]);
        }
        lemma_insert_grp_split(g, d, p - 1);
        assert(grp_le(s[0], g));
        assert(insert_grp(g, s) == seq![s[0]] + insert_grp(g, d));
        assert(seq![s[0]] + (d.subrange(0, p - 1) + seq![g] + d.subrange(p - 1, d.len() as int))
            =~= s.subrange(0, p) + seq![g] + s.subrange(p, s.len() as int));
    }
}

/// Average-distance order between two groups, compared without division.
fn grp_le_exec(a: &Group, b: &Group) -> (r: bool)
    requires
        a.members@.len() >= 1,
        b.members@.len() >= 1,
    ensures
        r == grp_le(group_model(*a), group_model(*b)),
{
    let an = (a.members.len() - 1) as u128;
    let bn = (b.members.len() - 1) as u128;
    proof {
        assert((a.dist_sum as u128) * bn <= 0xFFFF_FFFF_FFFF_FFFF * 0xFFFF_FFFF_FFFF_FFFF)
            by (nonlinear_arith)
            requires
                a.dist_sum <= 0xFFFF_FFFF_FFFF_FFFFu64,
                bn <= 0xFFFF_FFFF_FFFF_FFFFu128,
        ;
        assert((b.dist_sum as u128) * an <= 0xFFFF_FFFF_FFFF_FFFF * 0xFFFF_FFFF_FFFF_FFFF)
            by (nonlinear_arith)
            requires
                b.dist_sum <= 0xFFFF_FFFF_FFFF_FFFFu64,
                an <= 0xFFFF_FFFF_FFFF_FFFFu128,
        ;
    }
    (a.dist_sum as u128) * bn <= (b.dist_sum as u128) * an
}

/// Place one group into an already sorted list, behind its equals.
fn insert_sorted_group(out: &mut Vec<Group>, g: Group)
    requires
        g.members@.len() >= 1,
        forall|j: int| 0 <= j < old(out)@.len() ==> (#[trigger] old(out)@[j]).members@.len() >= 1,
    ensures
        groups_model(final(out)@) == insert_grp(group_model(g), groups_model(old(out)@)),
        forall|j: int| 0 <= j < final(out)@.len() ==> (#[trigger] final(out)@[j]).members@.len() >= 1,
{
    let n = out.len();
    let mut p: usize = 0;
    while p < n && grp_le_exec(&out[p], &g)
        invariant
            n == out@.len(),
            out@ == old(out)@,
            g.members@.len() >= 1,
            forall|j: int| 0 <= j < n ==> (#[trigger] out@[j]).members@.len() >= 1,
            0 <= p <= n,
            forall|j: int|
                0 <= j < p ==> grp_le(group_model(#[trigger] out@[j]), group_model(g)),
        decreases n - p,
    {
        p = p + 1;
    }
    proof {
        let gm = groups_model(out@);
        assert forall|j: int| 0 <= j < p implies grp_le(#[trigger] gm[j], group_model(g)) by {
            assert(gm[j] == group_model(out@[j]));
        }
        if (p as int) < n {
            assert(gm[p as int] == group_model(out@[p as int]));
        }
        lemma_insert_grp_split(group_model(g), gm, p as int);
    }
    out.insert(p, g);
    proof {
        let pre = old(out)@;
        let gm = groups_model(pre);
        assert(groups_model(final(out)@) =~= gm.subrange(0, p as int) + seq![group_model(g)]
            + gm.subrange(p as int, pre.len() as int));
    }
}

/// Group near-duplicates among decoded hashes. Walks items in order; each
/// unclaimed item anchors a group and claims every later unclaimed item
/// whose distance to the anchor is within `threshold`. Only groups of two
/// or more are returned, each with members sorted by ascending distance to
/// the anchor (the anchor first) and its distance sum attached, the groups
/// themselves sorted by ascending average distance. Fewer than two items
/// give no groups.
pub fn group_decoded(decoded: &Vec<Vec<u8>>, threshold: u32) -> (r: Vec<Group>)
    requires
        uniform_hashes(decoded.deep_view()),
        decoded@.len() <= 0xFFFF_FFFF,
    ensures
        groups_model(r@) == spec_groups(decoded.deep_view(), threshold),
{
    let n = decoded.len();
    let mut groups: Vec<Group> = Vec::new();
    if n < 2 {
        proof {
            assert(groups_model(groups@) =~= spec_groups(decoded.deep_view(), threshold));
        }
        return groups;
    }
    let ghost dv = decoded.deep_view();
    let mut visited: Vec<bool> = vec![false; n];
    let ghost vis_init = Seq::new(n as nat, |k: int| false);
    proof {
        assert(visited@ =~= vis_init);
    }
    let ghost mut raw_done: Seq<Seq<GroupMember>> = Seq::empty();
    let mut i: usize = 0;
    proof {
        assert(spec_run(dv, vis_init, 0, threshold) =~= raw_done + spec_run(
            dv,
            visited@,
            0,
            threshold,
        ));
        assert(groups_model(groups@) =~= map_finalize(raw_done));
    }
    while i < n
        invariant
            n == decoded@.len(),
            2 <= n <= 0xFFFF_FFFF,
            dv == decoded.deep_view(),
            uniform_hashes(dv),
            visited@.len() == n,
            0 <= i <= n,
            forall|j: int| 0 <= j < groups@.len() ==> (#[trigger] groups@[j]).members@.len() >= 1,
            groups_model(groups@) == map_finalize(raw_done),
            spec_run(dv, vis_init, 0, threshold) == raw_done + spec_run(
                dv,
                visited@,
                i as int,
                threshold,
            ),
        decreases n - i,
    {
        if !visited[i] {
            let ghost vis0 = visited@;
            let vi = &mut visited[i];
            *vi = true;
            let mut members: Vec<GroupMember> = Vec::new();
            members.push(GroupMember { index: i, dist_bits: 0 });
            let mut dist_sum: u64 = 0;
            let mut j: usize = i + 1;
            proof {
                assert(visited@ =~= mark(
                    vis0,
                    i as int,
                    scan_range(dv, vis0, i as int, i as int + 1, j as int, threshold),
                ));
                assert(members@ =~= seq![GroupMember { index: i, dist_bits: 0 }] + scan_range(
                    dv,
                    vis0,
                    i as int,
                    i as int + 1,
                    j as int,
                    threshold,
                ));
            }
            while j < n
                invariant
                    n == decoded@.len(),
                    2 <= n <= 0xFFFF_FFFF,
                    dv == decoded.deep_view(),
                    uniform_hashes(dv),
                    i < n,
                    i + 1 <= j <= n,
                    visited@.len() == n,
                    vis0.len() == n,
                    !vis0[i as int],
                    members@ == seq![GroupMember { index: i, dist_bits: 0 }] + scan_range(
                        dv,
                        vis0,
                        i as int,
                        i as int + 1,
                        j as int,
                        threshold,
                    ),
                    dist_sum == sum_dists(
                        scan_range(dv, vis0, i as int, i as int + 1, j as int, threshold),
                    ),
                    dist_sum <= (j - i - 1) as int * 0xFFFF_FFFF,
                    visited@ == mark(
                        vis0,
                        i as int,
                        scan_range(dv, vis0, i as int, i as int + 1, j as int, threshold),
                    ),
                decreases n - j,
            {
                let ghost scan_j = scan_range(
                    dv,
                    vis0,
                    i as int,
                    i as int + 1,
                    j as int,
                    threshold,
                );
                let ghost scan_j1 = scan_range(
                    dv,
                    vis0,
                    i as int,
                    i as int + 1,
                    j as int + 1,
                    threshold,
                );
                proof {
                    lemma_scan_range_indices(dv, vis0, i as int, i as int + 1, j as int, threshold);
                    assert(!contains_index(scan_j, j as int));
                    assert(visited@[j as int] == vis0[j as int]);
                    lemma_scan_range_snoc(dv, vis0, i as int, i as int + 1, j as int, threshold);
                }
                if !visited[j] {
                    proof {
                        assert(dv[i as int] == decoded@[i as int]@);
                        assert(dv[j as int] == decoded@[j as int]@);
                    }
                    let d = hamming_bytes(decoded[i].as_slice(), decoded[j].as_slice());
                    if d <= threshold {
                        let vj = &mut visited[j];
                        *vj = true;
                        members.push(GroupMember { index: j, dist_bits: d });
                        proof {
                            assert(scan_j1 =~= scan_j.push(
                                GroupMember { index: j, dist_bits: d },
                            ));
                            assert(members@ =~= seq![GroupMember { index: i, dist_bits: 0 }]
                                + scan_j1);
                            assert(sum_dists(scan_j1) == sum_dists(scan_j) + d) by {
                                lemma_sum_dists_concat(
                                    scan_j,
                                    seq![GroupMember { index: j, dist_bits: d }],
                                );
                                assert(scan_j1 =~= scan_j + seq![
                                    GroupMember { index: j, dist_bits: d },
                                ]);
                                reveal_with_fuel(sum_dists, 3);
                                assert(seq![GroupMember { index: j, dist_bits: d }].drop_first()
                                    =~= Seq::<GroupMember>::empty());
                                assert(sum_dists(Seq::<GroupMember>::empty()) == 0);
                                assert(sum_dists(seq![GroupMember { index: j, dist_bits: d }])
                                    == d);
                            }
                            assert((j - i - 1) as int * 0xFFFF_FFFF + 0xFFFF_FFFF == (j - i) as int
                                * 0xFFFF_FFFF) by (nonlinear_arith);
                            assert((j - i) as int * 0xFFFF_FFFF <= 0xFFFF_FFFF * 0xFFFF_FFFF)
                                by (nonlinear_arith)
                                requires
                                    0 <= (j - i) as int <= 0xFFFF_FFFF,
                            ;
                            assert forall|k: int| 0 <= k < n implies mark(
                                vis0,
                                i as int,
                                scan_j1,
                            )[k] == visited@.update(j as int, true)[k] by {
                                lemma_contains_index_snoc(
                                    scan_j,
                                    GroupMember { index: j, dist_bits: d },
                                    k,
                                );
                                assert(scan_j1 =~= scan_j.push(
                                    GroupMember { index: j, dist_bits: d },
                                ));
                            }
                            assert(visited@ =~= mark(vis0, i as int, scan_j1));
                        }
                        dist_sum = dist_sum + d as u64;
                    } else {
                        proof {
                            assert(scan_j1 =~= scan_j);
                        }
                    }
                } else {
                    proof {
                        assert(scan_j1 =~= scan_j);
                    }
                }
                j = j + 1;
            }
            let ghost full = scan_range(dv, vis0, i as int, i as int + 1, n as int, threshold);
            let ghost g = seq![GroupMember { index: i, dist_bits: 0 }] + full;
            proof {
                // the spec takes this anchor's step on the loop-head state
                assert(spec_run(dv, vis0, i as int, threshold) == if g.len() >= 2 {
                    seq![g] + spec_run(dv, mark(vis0, i as int, full), i as int + 1, threshold)
                } else {
                    spec_run(dv, mark(vis0, i as int, full), i as int + 1, threshold)
                });
            }
            if members.len() > 1 {
                let sm = sorted_members(&members);
                proof {
                    lemma_sort_members_len(members@);
                }
                let ghost groups0 = groups@;
                let ghost raw0 = raw_done;
                let ghost newg = Group { members: sm, dist_sum };
                groups.push(Group { members: sm, dist_sum });
                proof {
                    raw_done = raw0 + seq![g];
                    assert(members@.drop_first() =~= full);
                    assert(sum_dists(members@) == sum_dists(full));
                    assert(members@ == g);
                    assert(group_model(newg) == finalize(g));
                    assert(groups@ =~= groups0.push(newg));
                    assert(groups_model(groups0).len() == map_finalize(raw0).len());
                    assert(groups0.len() == raw0.len());
                    assert(groups@.len() == raw_done.len());
                    assert forall|k: int|
                        0 <= k < groups@.len() implies groups_model(groups@)[k] == map_finalize(
                        raw_done,
                    )[k] by {
                        if k < groups0.len() {
                            assert(groups@[k] == groups0[k]);
                            assert(raw_done[k] == raw0[k]);
                            assert(groups_model(groups0)[k] == map_finalize(raw0)[k]);
                        } else {
                            assert(groups@[k] == newg);
                            assert(raw_done[k] == g);
                        }
                    }
                    assert(groups_model(groups@) =~~= map_finalize(raw_done));
                    assert(spec_run(dv, vis_init, 0, threshold) =~= raw_done + spec_run(
                        dv,
                        visited@,
                        i as int + 1,
                        threshold,
                    ));
                }
            } else {
                proof {
                    assert(members@.len() == 1);
                    assert(g.len() == 1);
                    assert(spec_run(dv, vis_init, 0, threshold) =~= raw_done + spec_run(
                        dv,
                        visited@,
                        i as int + 1,
                        threshold,
                    ));
                }
            }
        } else {
            proof {
                assert(spec_run(dv, visited@, i as int, threshold) == spec_run(
                    dv,
                    visited@,
                    i as int + 1,
                    threshold,
                ));
            }
        }
        i = i + 1;
    }
    proof {
        assert(spec_run(dv, visited@, n as int, threshold) =~= Seq::<Seq<GroupMember>>::empty());
        assert(raw_done =~= spec_run(dv, vis_init, 0, threshold));
        assert(spec_groups(dv, threshold) == sort_grps(map_finalize(raw_done)));
    }
    let r = sorted_groups(groups);
    r
}

/// Sort groups by ascending average member distance, stably.
fn sorted_groups(gs: Vec<Group>) -> (r: Vec<Group>)
    requires
        forall|j: int| 0 <= j < gs@.len() ==> (#[trigger] gs@[j]).members@.len() >= 1,
    ensures
        groups_model(r@) == sort_grps(groups_model(gs@)),
{
    let ghost gs0 = gs@;
    let mut rest = gs;
    let mut out: Vec<Group> = Vec::new();
    let mut k: usize = 0;
    let n = rest.len();
    while k < n
        invariant
            n == gs0.len(),
            0 <= k <= n,
            rest@ == gs0.skip(k as int),
            forall|j: int| 0 <= j < gs0.len() ==> (#[trigger] gs0[j]).members@.len() >= 1,
            forall|j: int| 0 <= j < out@.len() ==> (#[trigger] out@[j]).members@.len() >= 1,
            groups_model(out@) == sort_grps(groups_model(gs0.take(k as int))),
        decreases n - k,
    {
        proof {
            assert(rest@[0] == gs0[k as int]);
        }
        let g = rest.remove(0);
        insert_sorted_group(&mut out, g);
        proof {
            let tk = groups_model(gs0.take(k + 1));
            assert(tk.drop_last() =~= groups_model(gs0.take(k as int)));
            assert(tk.last() == group_model(gs0[k as int]));
            assert(rest@ =~= gs0.skip(k + 1));
        }
        k = k + 1;
    }
    proof {
        assert(gs0.take(n as int) =~= gs0);
    }
    out
}

/// Every result's stored hash is valid base64.
pub open spec fn all_hashes_decode(items: Seq<PipelineResult>) -> bool {
    forall|i: int|
        0 <= i < items.len() ==> b64_bytes_of((#[trigger] items[i]).perceptual_hash@) is Some
}

/// The hash bytes behind each result, in the results' order.
pub open spec fn decoded_hashes(items: Seq<PipelineResult>) -> Seq<Seq<u8>> {
    Seq::new(items.len(), |i: int| b64_bytes_of(items[i].perceptual_hash@)->0)
}

/// Group near-duplicate results within `threshold` bits of an anchor.
/// Fewer than two results give no groups without looking at the hashes.
/// Otherwise each stored hash is decoded once and the bytes handed to
/// `group_decoded`; the call comes back empty-handed when some hash is not
/// valid base64 or the hashes do not share one length, which cannot happen
/// for results of one homogeneous run.
pub fn group_duplicates(items: &Vec<PipelineResult>, threshold: u32) -> (r: Option<Vec<Group>>)
    requires
        items@.len() <= 0xFFFF_FFFF,
    ensures
        items@.len() < 2 ==> (r matches Some(g) && g@.len() == 0),
        items@.len() >= 2 ==> (r is Some <==> (all_hashes_decode(items@) && uniform_hashes(
            decoded_hashes(items@),
        ))),
        r matches Some(g) ==> groups_model(g@) == spec_groups(decoded_hashes(items@), threshold),
{
    let n = items.len();
    if n < 2 {
        let g: Vec<Group> = Vec::new();
        proof {
            assert(groups_model(g@) =~= spec_groups(decoded_hashes(items@), threshold));
        }
        return Some(g);
    }
    let mut decoded: Vec<Vec<u8>> = Vec::new();
    let mut i: usize = 0;
    while i < n
        invariant
            n == items@.len(),
            2 <= n,
            0 <= i <= n,
            decoded@.len() == i,
            forall|k: int|
                0 <= k < i ==> b64_bytes_of((#[trigger] items@[k]).perceptual_hash@) is Some,
            forall|k: int|
                0 <= k < i ==> (#[trigger] decoded@[k])@ == b64_bytes_of(
                    items@[k].perceptual_hash@,
                )->0,
        decreases n - i,
    {
        let d = decode_hash_b64(items[i].perceptual_hash.as_str());
        match d {
            None => {
                proof {
                    assert(!all_hashes_decode(items@));
                }
                return None;
            },
            Some(v) => {
                decoded.push(v);
            },
        }
        i = i + 1;
    }
    let ghost dh = decoded_hashes(items@);
    proof {
        assert forall|k: int| 0 <= k < n implies #[trigger] decoded.deep_view()[k] == dh[k] by {
            assert(decoded.deep_view()[k] =~= decoded@[k]@);
        }
        assert(decoded.deep_view() =~= dh);
    }
    if n > 0 {
        let l0 = decoded[0].len();
        if l0 > HAMMING_MAX_LEN {
            proof {
                assert(dh[0] == decoded@[0]@);
                assert(!uniform_hashes(dh));
            }
            return None;
        }
        let mut j: usize = 1;
        while j < n
            invariant
                n == items@.len(),
                2 <= n,
                decoded@.len() == n,
                dh == decoded_hashes(items@),
                decoded.deep_view() == dh,
                l0 == dh[0].len(),
                1 <= j <= n,
                forall|k: int| 0 <= k < j ==> (#[trigger] dh[k]).len() == l0,
            decreases n - j,
        {
            proof {
                assert(dh[j as int] == decoded@[j as int]@);
            }
            if decoded[j].len() != l0 {
                proof {
                    assert(!uniform_hashes(dh));
                }
                return None;
            }
            j = j + 1;
        }
    }
    proof {
        assert(uniform_hashes(decoded.deep_view()));
        assert(all_hashes_decode(items@));
    }
    let g = group_decoded(&decoded, threshold);
    Some(g)
}

} // verus!
