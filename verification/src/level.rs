//! The level: tube sequence, seeded generation, selection state machine,
//! aggregate completion scoring, and the layout grid factor.

use crate::fraction::Fraction;
use crate::rng::{
    lemma_shuffle_step_pointwise, mix, next_state, shuffle, shuffle_state, shuffle_step,
    spec_shuffle, swap_at, LevelRng,
};
use crate::tube::{
    color_total, drain_rest, drain_take, fill_merged, lemma_drain, lemma_drain_then_fill_restores,
    lemma_fill_merged, lemma_max_color_total_bounds, lemma_seg_sum_nonneg, max_color_total,
    same_shell, seg_sum, segs_wf, ColorTube, ColorTubeContent,
};
use vstd::prelude::*;

verus! {

/// A tube that belongs to a level: well formed, with the level's shared
/// capacity, and with its transient selection flags cleared.
pub open spec fn tube_ok(t: ColorTube, cap: u32) -> bool {
    &&& t.wf()
    &&& t.capacity == cap
    &&& !t.hovered
    &&& !t.mousedown
    &&& !t.clicked
    &&& t.keycode is None
}

/// The segment sequences of a sequence of tubes.
pub open spec fn tube_views(ts: Seq<ColorTube>) -> Seq<Seq<ColorTubeContent>> {
    ts.map_values(|t: ColorTube| t@)
}

/// Total amount of one color across a sequence of tubes.
pub open spec fn total_color(tss: Seq<Seq<ColorTubeContent>>, color: u32) -> int
    decreases tss.len(),
{
    if tss.len() == 0 {
        0
    } else {
        total_color(tss.drop_last(), color) + color_total(tss.last(), color)
    }
}

/// Number of occurrences of one color in a palette.
pub open spec fn count_color(palette: Seq<u32>, color: u32) -> int
    decreases palette.len(),
{
    if palette.len() == 0 {
        0
    } else {
        count_color(palette.drop_last(), color) + if palette.last() == color {
            1int
        } else {
            0int
        }
    }
}

/// All palette entries differ.
pub open spec fn distinct_colors(palette: Seq<u32>) -> bool {
    forall|i: int, j: int| 0 <= i < j < palette.len() ==> palette[i] != palette[j]
}

/// A tube holding exactly one run of `amt` units (or nothing when `amt` is
/// zero): the shape of a source tube during generation.
pub open spec fn single_run(t: Seq<ColorTubeContent>, amt: int) -> bool {
    if amt <= 0 {
        t.len() == 0
    } else {
        t.len() == 1 && t[0].amount == amt
    }
}

/// Views of the source tubes before shuffling: one fully-filled tube per
/// palette color, in palette order.
pub open spec fn spec_sources(palette: Seq<u32>, capacity: u32) -> Seq<Seq<ColorTubeContent>> {
    Seq::new(
        palette.len(),
        |i: int| seq![ColorTubeContent { color: palette[i], amount: capacity }],
    )
}

/// Views of `n` empty tubes.
pub open spec fn empty_views(n: int) -> Seq<Seq<ColorTubeContent>> {
    Seq::new(n as nat, |i: int| Seq::<ColorTubeContent>::empty())
}

/// The one unit drained from the top of a source tube during a pass.
pub open spec fn unit_from(src: Seq<ColorTubeContent>) -> ColorTubeContent {
    ColorTubeContent { color: src.last().color, amount: 1u32 }
}

/// Source views after the first `k` sources of a pass gave up one unit.
pub open spec fn pass_srcs_upto(srcs: Seq<Seq<ColorTubeContent>>, k: int) -> Seq<
    Seq<ColorTubeContent>,
> {
    Seq::new(
        srcs.len(),
        |i: int|
            if i < k {
                drain_rest(srcs[i], 1)
            } else {
                srcs[i]
            },
    )
}

/// Destination views after the first `k` destinations of a pass received
/// one unit from the same-index source.
pub open spec fn pass_dsts_upto(
    srcs: Seq<Seq<ColorTubeContent>>,
    dsts: Seq<Seq<ColorTubeContent>>,
    k: int,
) -> Seq<Seq<ColorTubeContent>> {
    Seq::new(
        dsts.len(),
        |i: int|
            if i < k {
                fill_merged(dsts[i], unit_from(srcs[i]))
            } else {
                dsts[i]
            },
    )
}

/// Generation state after `r` full passes, each pass draining one unit from
/// every source into the same-index destination and then shuffling the
/// destination tubes as a whole: the source views, the destination views,
/// and the stream counter.
pub open spec fn gen_rounds(
    srcs: Seq<Seq<ColorTubeContent>>,
    dsts: Seq<Seq<ColorTubeContent>>,
    st: u64,
    r: int,
) -> (Seq<Seq<ColorTubeContent>>, Seq<Seq<ColorTubeContent>>, u64)
    decreases r,
{
    if r <= 0 {
        (srcs, dsts, st)
    } else {
        let (s1, d1, st1) = gen_rounds(srcs, dsts, st, r - 1);
        let s2 = pass_srcs_upto(s1, s1.len() as int);
        let d2 = pass_dsts_upto(s1, d1, d1.len() as int);
        (s2, spec_shuffle(d2, st1), shuffle_state(st1, d2.len() - 1))
    }
}

/// The exact tube views a generated level holds, as a function of the
/// palette, the capacity, and the seed alone: generation is deterministic.
pub open spec fn spec_generate(palette: Seq<u32>, capacity: u32, seed: u64) -> Seq<
    Seq<ColorTubeContent>,
> {
    let srcs1 = spec_shuffle(spec_sources(palette, capacity), seed);
    let st1 = shuffle_state(seed, palette.len() - 1);
    let rounds = gen_rounds(srcs1, empty_views(palette.len() as int), st1, capacity as int);
    rounds.1 + empty_views(2)
}

/// Taking views commutes with the shuffle's remaining work: the views of
/// shuffled tubes are the shuffled views.
pub proof fn lemma_tube_views_shuffle_step(ts: Seq<ColorTube>, st: u64, i: int)
    requires
        i < ts.len(),
        i < u64::MAX,
    ensures
        tube_views(shuffle_step(ts, st, i)) == shuffle_step(tube_views(ts), st, i),
    decreases i,
{
    if i >= 1 {
        let st2 = next_state(st);
        let j = (mix(st2) % ((i + 1) as u64)) as int;
        assert(0 <= j <= i);
        assert(tube_views(swap_at(ts, i, j)) =~= swap_at(tube_views(ts), i, j));
        lemma_tube_views_shuffle_step(swap_at(ts, i, j), st2, i - 1);
    }
}

/// Replacing one tube changes a per-color total by the difference of the
/// old and new tube's own totals.
pub proof fn lemma_total_color_update(
    tss: Seq<Seq<ColorTubeContent>>,
    k: int,
    t: Seq<ColorTubeContent>,
    color: u32,
)
    requires
        0 <= k < tss.len(),
    ensures
        total_color(tss.update(k, t), color) == total_color(tss, color) - color_total(
            tss[k],
            color,
        ) + color_total(t, color),
    decreases tss.len(),
{
    if k == tss.len() - 1 {
        assert(tss.update(k, t).drop_last() =~= tss.drop_last());
        assert(tss.update(k, t).last() == t);
    } else {
        assert(tss.update(k, t).drop_last() =~= tss.drop_last().update(k, t));
        assert(tss.update(k, t).last() == tss.last());
        lemma_total_color_update(tss.drop_last(), k, t, color);
    }
}

/// Shuffling tubes never changes a per-color total: it only rearranges
/// whole tubes.
pub proof fn lemma_total_color_shuffle_step(
    tss: Seq<Seq<ColorTubeContent>>,
    st: u64,
    i: int,
    color: u32,
)
    requires
        i < tss.len(),
        i < u64::MAX,
    ensures
        total_color(shuffle_step(tss, st, i), color) == total_color(tss, color),
    decreases i,
{
    if i >= 1 {
        let st2 = next_state(st);
        let j = (mix(st2) % ((i + 1) as u64)) as int;
        assert(0 <= j <= i);
        lemma_total_color_update(tss, i, tss[j], color);
        lemma_total_color_update(tss.update(i, tss[j]), j, tss[i], color);
        lemma_total_color_shuffle_step(swap_at(tss, i, j), st2, i - 1, color);
    }
}

/// A sequence of empty tubes holds nothing of any color.
pub proof fn lemma_total_color_all_empty(tss: Seq<Seq<ColorTubeContent>>, color: u32)
    requires
        forall|k: int| 0 <= k < tss.len() ==> (#[trigger] tss[k]).len() == 0,
    ensures
        total_color(tss, color) == 0,
    decreases tss.len(),
{
    if tss.len() > 0 {
        lemma_total_color_all_empty(tss.drop_last(), color);
    }
}

/// The sources hold `capacity` units of a color for each of its palette
/// occurrences, and nothing of any other color.
pub proof fn lemma_sources_total(palette: Seq<u32>, capacity: u32, color: u32)
    ensures
        total_color(spec_sources(palette, capacity), color) == capacity * count_color(
            palette,
            color,
        ),
    decreases palette.len(),
{
    let ss = spec_sources(palette, capacity);
    if palette.len() == 0 {
        assert(ss.len() == 0);
    } else {
        lemma_sources_total(palette.drop_last(), capacity, color);
        assert(ss.drop_last() =~= spec_sources(palette.drop_last(), capacity));
        let lastv = ss.last();
        assert(lastv == seq![ColorTubeContent { color: palette.last(), amount: capacity }]);
        assert(lastv.drop_last() =~= Seq::<ColorTubeContent>::empty());
        assert(color_total(Seq::<ColorTubeContent>::empty(), color) == 0);
        assert(lastv.last() == ColorTubeContent { color: palette.last(), amount: capacity });
        assert(color_total(lastv, color) == if palette.last() == color {
            capacity as int
        } else {
            0int
        });
        assert(capacity * (count_color(palette.drop_last(), color) + 1) == capacity * count_color(
            palette.drop_last(),
            color,
        ) + capacity) by (nonlinear_arith);
    }
}

/// In a palette of distinct colors, each entry occurs exactly once.
pub proof fn lemma_distinct_count(palette: Seq<u32>, k: int)
    requires
        distinct_colors(palette),
        0 <= k < palette.len(),
    ensures
        count_color(palette, palette[k]) == 1,
{
    lemma_count_color_le(palette, palette.len() as int, palette[k], k);
    assert(palette.take(palette.len() as int) =~= palette);
}

/// A color at position `w` is counted once among the first `i` entries, and
/// under distinctness no other entry adds to its count.
proof fn lemma_count_color_le(palette: Seq<u32>, i: int, color: u32, w: int)
    requires
        distinct_colors(palette),
        0 <= w < palette.len(),
        palette[w] == color,
        0 <= i <= palette.len(),
    ensures
        count_color(palette.take(i), color) == if w < i {
            1int
        } else {
            0int
        },
    decreases i,
{
    if i > 0 {
        lemma_count_color_le(palette, i - 1, color, w);
        assert(palette.take(i).drop_last() =~= palette.take(i - 1));
        assert(palette.take(i).last() == palette[i - 1]);
    }
}

/// `f` is the smallest factor of `n` that is at least two (and therefore
/// prime); a prime `n` is its own smallest factor.
pub open spec fn is_least_factor(n: int, f: int) -> bool {
    &&& 2 <= f <= n
    &&& n % f == 0
    &&& forall|k: int| 2 <= k < f ==> #[trigger] (n % k) != 0
}

/// Build a level's tubes from a palette, a capacity, and a seed (the level
/// index): one fully-filled source tube per palette color, shuffled by the
/// seeded stream; then `capacity` passes, each draining one unit from every
/// source into the same-index destination and reshuffling the destination
/// tubes as a whole; then two spare empty tubes. The result is an exact
/// function of the three inputs (`spec_generate`), so the same seed always
/// rebuilds the same level, and every palette color's total across all
/// tubes equals `capacity` times its palette occurrences.
pub fn generate_tubes(palette: &Vec<u32>, capacity: u32, seed: u64) -> (tubes: Vec<ColorTube>)
    requires
        capacity > 0,
        palette@.len() + 2 <= usize::MAX,
    ensures
        tube_views(tubes@) == spec_generate(palette@, capacity, seed),
        tubes@.len() == palette@.len() + 2,
        forall|i: int| 0 <= i < tubes@.len() ==> tube_ok(#[trigger] tubes@[i], capacity),
        forall|i: int| 0 <= i < palette@.len() ==> seg_sum((#[trigger] tubes@[i])@) == capacity,
        forall|i: int| palette@.len() <= i < tubes@.len() ==> (#[trigger] tubes@[i])@.len() == 0,
        forall|c: u32|
            #[trigger] total_color(tube_views(tubes@), c) == capacity * count_color(palette@, c),
{
    let n = palette.len();
    let mut rng = LevelRng::from_seed(seed);

    // One fully-filled source tube per palette color, in palette order.
    let mut srcs: Vec<ColorTube> = Vec::new();
    let mut i: usize = 0;
    while i < n
        invariant
            i <= n,
            n == palette@.len(),
            capacity > 0,
            srcs@.len() == i,
            forall|k: int| 0 <= k < i ==> tube_ok(#[trigger] srcs@[k], capacity),
            forall|k: int|
                0 <= k < i ==> (#[trigger] srcs@[k])@ == spec_sources(palette@, capacity)[k],
        decreases n - i,
    {
        let mut contents: Vec<ColorTubeContent> = Vec::new();
        contents.push(ColorTubeContent::new(palette[i], capacity));
        proof {
            assert(contents@.drop_last() =~= Seq::<ColorTubeContent>::empty());
            assert(seg_sum(Seq::<ColorTubeContent>::empty()) == 0);
            assert(seg_sum(contents@) == capacity);
            assert(segs_wf(contents@));
            assert(contents@ =~= spec_sources(palette@, capacity)[i as int]);
        }
        srcs.push(ColorTube::new(capacity, contents));
        i = i + 1;
    }
    proof {
        assert(tube_views(srcs@) =~= spec_sources(palette@, capacity));
    }

    // Shuffle the source tubes with the seeded stream.
    let ghost srcs0_views = tube_views(srcs@);
    let ghost srcs_built = srcs@;
    shuffle(&mut srcs, &mut rng);
    let ghost sv1 = tube_views(srcs@);
    let ghost st1 = rng.state;
    proof {
        lemma_tube_views_shuffle_step(srcs_built, seed, n as int - 1);
        assert(sv1 == spec_shuffle(srcs0_views, seed));
        let p = |t: ColorTube| tube_ok(t, capacity) && single_run(t@, capacity as int);
        assert forall|k: int| 0 <= k < srcs_built.len() implies p(#[trigger] srcs_built[k]) by {
            assert(tube_ok(srcs_built[k], capacity));
            assert(srcs_built[k]@ == spec_sources(palette@, capacity)[k]);
            assert(single_run(srcs_built[k]@, capacity as int));
        }
        lemma_shuffle_step_pointwise(srcs_built, seed, n as int - 1, p);
        assert forall|k: int|
            0 <= k < n implies tube_ok(#[trigger] srcs@[k], capacity) && single_run(
            srcs@[k]@,
            capacity as int,
        ) by {
            assert(p(shuffle_step(srcs_built, seed, n as int - 1)[k]));
        }
    }

    // Empty destination tubes, one per source.
    let mut dsts: Vec<ColorTube> = Vec::new();
    let mut i2: usize = 0;
    while i2 < n
        invariant
            i2 <= n,
            capacity > 0,
            dsts@.len() == i2,
            forall|k: int|
                0 <= k < i2 ==> tube_ok(#[trigger] dsts@[k], capacity) && dsts@[k]@.len() == 0,
        decreases n - i2,
    {
        let empty_contents: Vec<ColorTubeContent> = Vec::new();
        dsts.push(ColorTube::new(capacity, empty_contents));
        i2 = i2 + 1;
    }
    let ghost dv0 = empty_views(n as int);
    proof {
        assert(tube_views(dsts@) =~~= dv0);
        assert forall|c: u32| #[trigger] total_color(dv0, c) == 0 by {
            lemma_total_color_all_empty(dv0, c);
        }
    }

    // The passes: each drains one unit from every source into the
    // same-index destination, then shuffles the destination tubes.
    let mut r: u32 = 0;
    while r < capacity
        invariant
            r <= capacity,
            capacity > 0,
            n == palette@.len(),
            srcs@.len() == n,
            dsts@.len() == n,
            sv1.len() == n,
            dv0 == empty_views(n as int),
            n + 2 <= usize::MAX,
            tube_views(srcs@) == gen_rounds(sv1, dv0, st1, r as int).0,
            tube_views(dsts@) == gen_rounds(sv1, dv0, st1, r as int).1,
            rng.state == gen_rounds(sv1, dv0, st1, r as int).2,
            forall|k: int|
                0 <= k < n ==> tube_ok(#[trigger] srcs@[k], capacity) && single_run(
                    srcs@[k]@,
                    capacity - r,
                ),
            forall|k: int|
                0 <= k < n ==> tube_ok(#[trigger] dsts@[k], capacity) && seg_sum(dsts@[k]@)
                    == r as int,
            forall|c: u32|
                #[trigger] total_color(tube_views(srcs@), c) + total_color(tube_views(dsts@), c)
                    == total_color(sv1, c),
        decreases capacity - r,
    {
        let ghost sv_r = tube_views(srcs@);
        let ghost dv_r = tube_views(dsts@);
        let ghost st_r = rng.state;
        let mut i3: usize = 0;
        while i3 < n
            invariant
                i3 <= n,
                capacity > 0,
                r < capacity,
                n == srcs@.len(),
                n == dsts@.len(),
                sv_r.len() == n,
                dv_r.len() == n,
                rng.state == st_r,
                tube_views(srcs@) == pass_srcs_upto(sv_r, i3 as int),
                tube_views(dsts@) == pass_dsts_upto(sv_r, dv_r, i3 as int),
                forall|k: int| 0 <= k < n ==> tube_ok(#[trigger] srcs@[k], capacity),
                forall|k: int| 0 <= k < n ==> tube_ok(#[trigger] dsts@[k], capacity),
                forall|k: int| 0 <= k < i3 ==> single_run((#[trigger] srcs@[k])@, capacity - r - 1),
                forall|k: int| i3 <= k < n ==> single_run((#[trigger] srcs@[k])@, capacity - r),
                forall|k: int| 0 <= k < i3 ==> seg_sum((#[trigger] dsts@[k])@) == r + 1,
                forall|k: int| i3 <= k < n ==> seg_sum((#[trigger] dsts@[k])@) == r as int,
                forall|c: u32|
                    #[trigger] total_color(tube_views(srcs@), c) + total_color(
                        tube_views(dsts@),
                        c,
                    ) == total_color(sv_r, c) + total_color(dv_r, c),
            decreases n - i3,
        {
            let ghost srcs_pre = srcs@;
            let ghost dsts_pre = dsts@;
            // Drain exactly one unit from source tube `i3`.
            let mut src = srcs.remove(i3);
            proof {
                assert(src == srcs_pre[i3 as int]);
                assert(tube_views(srcs_pre)[i3 as int] == srcs_pre[i3 as int]@);
                assert(pass_srcs_upto(sv_r, i3 as int)[i3 as int] == sv_r[i3 as int]);
                assert(src@ == sv_r[i3 as int]);
                assert(src@.len() == 1 && src@[0].amount == capacity - r);
                assert(src@.last() == src@[0]);
                lemma_drain(src@, 1);
                assert(drain_take(src@, 1) is Some);
            }
            let drained = src.drain(1);
            let content = drained.unwrap();
            srcs.insert(i3, src);
            proof {
                assert(content == unit_from(sv_r[i3 as int]));
                assert(srcs@ =~= srcs_pre.update(i3 as int, srcs@[i3 as int]));
                assert(tube_views(srcs@) =~= tube_views(srcs_pre).update(
                    i3 as int,
                    srcs@[i3 as int]@,
                ));
                assert(srcs@[i3 as int]@ == drain_rest(sv_r[i3 as int], 1));
                assert(tube_views(srcs@) =~= pass_srcs_upto(sv_r, i3 as int + 1));
                // The drained source holds one unit less, in a single run.
                assert(sv_r[i3 as int].drop_last().len() == 0);
                if capacity - r == 1 {
                    assert(single_run(srcs@[i3 as int]@, capacity - r - 1));
                } else {
                    assert(srcs@[i3 as int]@ == sv_r[i3 as int].drop_last().push(
                        ColorTubeContent {
                            color: sv_r[i3 as int].last().color,
                            amount: (sv_r[i3 as int].last().amount - 1) as u32,
                        },
                    ));
                    assert(single_run(srcs@[i3 as int]@, capacity - r - 1));
                }
            }
            // Pour the unit into destination tube `i3`, merge-or-append.
            let mut dst = dsts.remove(i3);
            proof {
                assert(dst == dsts_pre[i3 as int]);
                assert(tube_views(dsts_pre)[i3 as int] == dsts_pre[i3 as int]@);
                assert(pass_dsts_upto(sv_r, dv_r, i3 as int)[i3 as int] == dv_r[i3 as int]);
                assert(dst@ == dv_r[i3 as int]);
                assert(seg_sum(dst@) == r as int);
            }
            let _leftover = dst.fill_unchecked(content);
            dsts.insert(i3, dst);
            proof {
                assert(dsts@ =~= dsts_pre.update(i3 as int, dsts@[i3 as int]));
                assert(tube_views(dsts@) =~= tube_views(dsts_pre).update(
                    i3 as int,
                    dsts@[i3 as int]@,
                ));
                assert(dsts@[i3 as int]@ == fill_merged(dv_r[i3 as int], unit_from(
                    sv_r[i3 as int],
                )));
                assert(tube_views(dsts@) =~= pass_dsts_upto(sv_r, dv_r, i3 as int + 1));
                // One unit moved: per-color totals across both groups stand.
                assert forall|c: u32|
                    #[trigger] total_color(tube_views(srcs@), c) + total_color(
                        tube_views(dsts@),
                        c,
                    ) == total_color(sv_r, c) + total_color(dv_r, c) by {
                    lemma_total_color_update(
                        tube_views(srcs_pre),
                        i3 as int,
                        srcs@[i3 as int]@,
                        c,
                    );
                    lemma_total_color_update(
                        tube_views(dsts_pre),
                        i3 as int,
                        dsts@[i3 as int]@,
                        c,
                    );
                    lemma_drain(sv_r[i3 as int], 1);
                    lemma_fill_merged(dv_r[i3 as int], unit_from(sv_r[i3 as int]));
                    assert(tube_views(srcs_pre)[i3 as int] == sv_r[i3 as int]);
                    assert(tube_views(dsts_pre)[i3 as int] == dv_r[i3 as int]);
                }
            }
            i3 = i3 + 1;
        }
        // Shuffle the destination tubes as a whole.
        let ghost dsts_passed = dsts@;
        proof {
            assert(tube_views(dsts_passed) == pass_dsts_upto(sv_r, dv_r, n as int));
        }
        shuffle(&mut dsts, &mut rng);
        proof {
            lemma_tube_views_shuffle_step(dsts_passed, st_r, n as int - 1);
            let p = |t: ColorTube| tube_ok(t, capacity) && seg_sum(t@) == r + 1;
            assert forall|k: int| 0 <= k < dsts_passed.len() implies p(#[trigger] dsts_passed[k]) by {
                assert(tube_ok(dsts_passed[k], capacity));
                assert(seg_sum(dsts_passed[k]@) == r + 1);
            }
            lemma_shuffle_step_pointwise(dsts_passed, st_r, n as int - 1, p);
            assert forall|k: int|
                0 <= k < n implies tube_ok(#[trigger] dsts@[k], capacity) && seg_sum(dsts@[k]@)
                    == r + 1 by {
                assert(p(shuffle_step(dsts_passed, st_r, n as int - 1)[k]));
            }
            assert forall|c: u32|
                #[trigger] total_color(tube_views(dsts@), c) == total_color(
                    tube_views(dsts_passed),
                    c,
                ) by {
                lemma_total_color_shuffle_step(tube_views(dsts_passed), st_r, n as int - 1, c);
            }
            // This pass is exactly one unfolding of the generation rounds.
            assert(gen_rounds(sv1, dv0, st1, r as int + 1) == (
                pass_srcs_upto(sv_r, n as int),
                spec_shuffle(pass_dsts_upto(sv_r, dv_r, n as int), st_r),
                shuffle_state(st_r, n as int - 1),
            ));
        }
        r = r + 1;
    }

    // Two spare empty tubes for maneuvering.
    let ghost dsts_rounds = dsts@;
    let empty_a: Vec<ColorTubeContent> = Vec::new();
    dsts.push(ColorTube::new(capacity, empty_a));
    let empty_b: Vec<ColorTubeContent> = Vec::new();
    dsts.push(ColorTube::new(capacity, empty_b));
    proof {
        assert(tube_views(dsts@) =~~= tube_views(dsts_rounds) + empty_views(2));
        assert(tube_views(dsts@) == spec_generate(palette@, capacity, seed));
        // Conservation: the sources are empty now, so everything the
        // palette supplied sits in the returned tubes.
        let vfin = tube_views(dsts@);
        assert forall|c: u32|
            #[trigger] total_color(vfin, c) == capacity * count_color(palette@, c) by {
            assert forall|k: int|
                0 <= k < tube_views(srcs@).len() implies (#[trigger] tube_views(srcs@)[k]).len()
                    == 0 by {
                assert(tube_views(srcs@)[k] == srcs@[k]@);
                assert(single_run(srcs@[k]@, capacity - capacity));
            }
            lemma_total_color_all_empty(tube_views(srcs@), c);
            assert(total_color(tube_views(dsts_rounds), c) == total_color(sv1, c));
            lemma_total_color_shuffle_step(srcs0_views, seed, n as int - 1, c);
            assert(total_color(sv1, c) == total_color(srcs0_views, c));
            lemma_sources_total(palette@, capacity, c);
            // Peel the two appended empty tubes off the total.
            assert(vfin.last().len() == 0);
            assert(color_total(vfin.last(), c) == 0);
            assert(vfin.drop_last().last().len() == 0);
            assert(color_total(vfin.drop_last().last(), c) == 0);
            assert(vfin.drop_last().drop_last() =~~= tube_views(dsts_rounds));
            assert(total_color(vfin, c) == total_color(vfin.drop_last(), c));
            assert(total_color(vfin.drop_last(), c) == total_color(
                vfin.drop_last().drop_last(),
                c,
            ));
        }
    }
    dsts
}

/// Smallest factor of `n` that is at least two, by trial division. Used to
/// pick a visually balanced column count for the tube grid.
pub fn smallest_factor(n: usize) -> (f: usize)
    requires
        n >= 2,
    ensures
        is_least_factor(n as int, f as int),
{
    let mut i: usize = 2;
    while i < n
        invariant
            2 <= i <= n,
            forall|k: int| 2 <= k < i ==> #[trigger] (n as int % k) != 0,
        decreases n - i,
    {
        if n % i == 0 {
            return i;
        }
        i = i + 1;
    }
    assert(n as int % (n as int) == 0);
    n
}

/// The amount a transfer asks the source for: everything that could
/// possibly fit into the destination.
pub open spec fn transfer_request(dst: Seq<ColorTubeContent>, cap: u32) -> u32 {
    (cap - seg_sum(dst)) as u32
}

/// Whether the player pour goes through: the source yields something and
/// the destination is empty or its top color matches.
pub open spec fn transfer_accepted(
    src: Seq<ColorTubeContent>,
    dst: Seq<ColorTubeContent>,
    cap: u32,
) -> bool {
    &&& drain_take(src, transfer_request(dst, cap)) is Some
    &&& (dst.len() == 0 || dst.last().color == drain_take(
        src,
        transfer_request(dst, cap),
    )->Some_0.color)
}

/// The source's segments after a transfer attempt: drained when the pour
/// went through, untouched otherwise (a rejected pour returns its content).
pub open spec fn transfer_src(
    src: Seq<ColorTubeContent>,
    dst: Seq<ColorTubeContent>,
    cap: u32,
) -> Seq<ColorTubeContent> {
    if transfer_accepted(src, dst, cap) {
        drain_rest(src, transfer_request(dst, cap))
    } else {
        src
    }
}

/// The destination's segments after a transfer attempt.
pub open spec fn transfer_dst(
    src: Seq<ColorTubeContent>,
    dst: Seq<ColorTubeContent>,
    cap: u32,
) -> Seq<ColorTubeContent> {
    if transfer_accepted(src, dst, cap) {
        fill_merged(dst, drain_take(src, transfer_request(dst, cap))->Some_0)
    } else {
        dst
    }
}

/// Nothing is lost in a transfer attempt: for every color, the two tubes
/// hold together afterwards exactly what they held together before, and the
/// overall amounts balance the same way.
pub proof fn lemma_transfer_conserves(
    src: Seq<ColorTubeContent>,
    dst: Seq<ColorTubeContent>,
    cap: u32,
    color: u32,
)
    requires
        segs_wf(src),
        segs_wf(dst),
        seg_sum(src) <= cap,
        seg_sum(dst) <= cap,
    ensures
        color_total(transfer_src(src, dst, cap), color) + color_total(
            transfer_dst(src, dst, cap),
            color,
        ) == color_total(src, color) + color_total(dst, color),
        seg_sum(transfer_src(src, dst, cap)) + seg_sum(transfer_dst(src, dst, cap)) == seg_sum(src)
            + seg_sum(dst),
{
    if transfer_accepted(src, dst, cap) {
        let req = transfer_request(dst, cap);
        let unit = drain_take(src, req)->Some_0;
        lemma_drain(src, req);
        lemma_seg_sum_nonneg(dst);
        lemma_fill_merged(dst, unit);
    }
}

/// Across a whole tube sequence, a transfer attempt between two of its
/// tubes changes no per-color total: play never creates or loses a unit.
pub proof fn lemma_transfer_total_color(
    tss: Seq<Seq<ColorTubeContent>>,
    i: int,
    j: int,
    cap: u32,
    color: u32,
)
    requires
        0 <= i < tss.len(),
        0 <= j < tss.len(),
        i != j,
        segs_wf(tss[i]),
        segs_wf(tss[j]),
        seg_sum(tss[i]) <= cap,
        seg_sum(tss[j]) <= cap,
    ensures
        total_color(
            tss.update(i, transfer_src(tss[i], tss[j], cap)).update(
                j,
                transfer_dst(tss[i], tss[j], cap),
            ),
            color,
        ) == total_color(tss, color),
{
    let src2 = transfer_src(tss[i], tss[j], cap);
    let dst2 = transfer_dst(tss[i], tss[j], cap);
    lemma_total_color_update(tss, i, src2, color);
    lemma_total_color_update(tss.update(i, src2), j, dst2, color);
    lemma_transfer_conserves(tss[i], tss[j], cap, color);
    assert(tss.update(i, src2)[j] == tss[j]);
}

/// A pour against a non-empty destination whose top color differs from the
/// source's top run is rejected, and a rejected pour changes neither tube.
pub proof fn lemma_transfer_mismatch_unchanged(
    src: Seq<ColorTubeContent>,
    dst: Seq<ColorTubeContent>,
    cap: u32,
)
    requires
        dst.len() > 0,
        src.len() > 0,
        dst.last().color != src.last().color,
    ensures
        transfer_src(src, dst, cap) == src,
        transfer_dst(src, dst, cap) == dst,
{
}

/// Attempt the player pour from `src` into `dst`: drain as much as the
/// destination could hold, pour it if the color rule allows, and put it
/// back untouched otherwise — a rejected transfer changes neither tube.
pub fn transfer_between(src: &mut ColorTube, dst: &mut ColorTube)
    requires
        old(src).wf(),
        old(dst).wf(),
        old(src).capacity == old(dst).capacity,
    ensures
        final(src).wf(),
        final(dst).wf(),
        final(src).capacity == old(src).capacity,
        final(dst).capacity == old(dst).capacity,
        same_shell(*final(src), *old(src)),
        same_shell(*final(dst), *old(dst)),
        final(src)@ == transfer_src(old(src)@, old(dst)@, old(dst).capacity),
        final(dst)@ == transfer_dst(old(src)@, old(dst)@, old(dst).capacity),
{
    let req = dst.remaining_capacity();
    proof {
        lemma_drain(old(src)@, req);
    }
    let drained = src.drain(req);
    match drained {
        None => {},
        Some(content) => {
            let back = dst.fill(content);
            match back {
                None => {},
                Some(content2) => {
                    proof {
                        lemma_drain_then_fill_restores(old(src)@, req);
                    }
                    let back2 = src.fill_unchecked(content2);
                    proof {
                        assert(back2 is None);
                        assert(src@ == old(src)@);
                    }
                },
            }
        },
    }
}

/// Aggregate completion numerator: the main-color total of every non-empty
/// tube, summed.
pub open spec fn completion_num(ts: Seq<ColorTube>) -> int
    decreases ts.len(),
{
    if ts.len() == 0 {
        0
    } else {
        completion_num(ts.drop_last()) + if seg_sum(ts.last()@) > 0 {
            max_color_total(ts.last()@)
        } else {
            0int
        }
    }
}

/// Number of non-empty tubes.
pub open spec fn nonempty_count(ts: Seq<ColorTube>) -> int
    decreases ts.len(),
{
    if ts.len() == 0 {
        0
    } else {
        nonempty_count(ts.drop_last()) + if seg_sum(ts.last()@) > 0 {
            1int
        } else {
            0int
        }
    }
}

/// Stepping the aggregate numerator and the non-empty count over one more
/// tube.
proof fn lemma_completion_take_step(ts: Seq<ColorTube>, i: int)
    requires
        0 <= i < ts.len(),
    ensures
        completion_num(ts.take(i + 1)) == completion_num(ts.take(i)) + if seg_sum(ts[i]@) > 0 {
            max_color_total(ts[i]@)
        } else {
            0int
        },
        nonempty_count(ts.take(i + 1)) == nonempty_count(ts.take(i)) + if seg_sum(ts[i]@) > 0 {
            1int
        } else {
            0int
        },
{
    assert(ts.take(i + 1).drop_last() =~= ts.take(i));
}

/// The aggregate numerator never exceeds the non-empty tube count times the
/// capacity, and neither is negative.
pub proof fn lemma_completion_bounds(ts: Seq<ColorTube>, cap: u32)
    requires
        forall|i: int| 0 <= i < ts.len() ==> (#[trigger] ts[i]).wf() && ts[i].capacity == cap,
    ensures
        0 <= nonempty_count(ts) <= ts.len(),
        0 <= completion_num(ts) <= nonempty_count(ts) * cap,
    decreases ts.len(),
{
    if ts.len() > 0 {
        assert forall|i: int|
            0 <= i < ts.drop_last().len() implies (#[trigger] ts.drop_last()[i]).wf()
                && ts.drop_last()[i].capacity == cap by {
            assert(ts.drop_last()[i] == ts[i]);
        }
        lemma_completion_bounds(ts.drop_last(), cap);
        lemma_max_color_total_bounds(ts.last()@);
        assert((nonempty_count(ts.drop_last()) + 1) * cap == nonempty_count(ts.drop_last()) * cap
            + cap) by (nonlinear_arith);
    }
}

/// Win condition: the aggregate completion equals exactly one precisely
/// when every non-empty tube is filled to capacity with a single color.
pub proof fn lemma_completion_exactly_one(ts: Seq<ColorTube>, cap: u32)
    requires
        cap > 0,
        forall|i: int| 0 <= i < ts.len() ==> (#[trigger] ts[i]).wf() && ts[i].capacity == cap,
    ensures
        completion_num(ts) == nonempty_count(ts) * cap <==> forall|i: int|
            0 <= i < ts.len() && seg_sum((#[trigger] ts[i])@) > 0 ==> max_color_total(ts[i]@)
                == cap,
    decreases ts.len(),
{
    if ts.len() > 0 {
        assert forall|i: int|
            0 <= i < ts.drop_last().len() implies (#[trigger] ts.drop_last()[i]).wf()
                && ts.drop_last()[i].capacity == cap by {
            assert(ts.drop_last()[i] == ts[i]);
        }
        lemma_completion_exactly_one(ts.drop_last(), cap);
        lemma_completion_bounds(ts.drop_last(), cap);
        lemma_max_color_total_bounds(ts.last()@);
        assert((nonempty_count(ts.drop_last()) + 1) * cap == nonempty_count(ts.drop_last()) * cap
            + cap) by (nonlinear_arith);
        assert forall|i: int| 0 <= i < ts.drop_last().len() implies ts.drop_last()[i]
            == ts[i] by {}
        assert(ts.last() == ts[ts.len() - 1]);
    }
}

/// The twelve-color palette the game ships with, as distinct color
/// identifiers in display order.
pub fn default_palette() -> (p: Vec<u32>)
    ensures
        p@.len() == 12,
        forall|i: int| 0 <= i < 12 ==> p@[i] == i,
        distinct_colors(p@),
{
    let mut p: Vec<u32> = Vec::new();
    let mut i: u32 = 0;
    while i < 12
        invariant
            i <= 12,
            p@.len() == i,
            forall|k: int| 0 <= k < i ==> p@[k] == k,
        decreases 12 - i,
    {
        p.push(i);
        i = i + 1;
    }
    p
}

/// One game session: the current level's tubes, the palette and capacity
/// they were generated from, the level index (the generation seed), the
/// grid factor for layout, and the pending selection.
pub struct GameState {
    pub tube_capacity: u32,
    pub palette: Vec<u32>,
    pub tubes: Vec<ColorTube>,
    pub tubes_factor: usize,
    pub selected_tube: Option<usize>,
    pub level: u64,
}

impl GameState {
    /// The session invariant: a positive capacity, a palette of distinct
    /// colors, one tube per palette color plus the two spares, every tube
    /// well formed with the shared capacity, a grid factor matching the
    /// tube count, and a selection that indexes an existing tube.
    pub open spec fn wf(self) -> bool {
        &&& self.tube_capacity > 0
        &&& distinct_colors(self.palette@)
        &&& self.palette@.len() + 2 <= usize::MAX
        &&& self.tubes@.len() == self.palette@.len() + 2
        &&& forall|i: int|
            0 <= i < self.tubes@.len() ==> (#[trigger] self.tubes@[i]).wf()
                && self.tubes@[i].capacity == self.tube_capacity
        &&& is_least_factor(self.tubes@.len() as int, self.tubes_factor as int)
        &&& self.selected_tube matches Some(i) ==> i < self.tubes@.len()
    }

    /// Start a session on level one.
    pub fn new(palette: Vec<u32>, capacity: u32) -> (g: GameState)
        requires
            capacity > 0,
            distinct_colors(palette@),
            palette@.len() + 2 <= usize::MAX,
        ensures
            g.wf(),
            g.level == 1,
            g.tube_capacity == capacity,
            g.palette == palette,
            g.selected_tube is None,
            tube_views(g.tubes@) == spec_generate(palette@, capacity, 1),
            forall|k: int|
                0 <= k < palette@.len() ==> total_color(
                    tube_views(g.tubes@),
                    #[trigger] palette@[k],
                ) == capacity,
    {
        let tubes = generate_tubes(&palette, capacity, 1);
        let factor = smallest_factor(tubes.len());
        proof {
            assert forall|k: int|
                0 <= k < palette@.len() implies total_color(
                tube_views(tubes@),
                #[trigger] palette@[k],
            ) == capacity by {
                lemma_distinct_count(palette@, k);
            }
        }
        GameState {
            tube_capacity: capacity,
            palette,
            tubes,
            tubes_factor: factor,
            selected_tube: None,
            level: 1,
        }
    }

    /// Discard the tubes and rebuild them from the current level index;
    /// any pending selection is dropped with them. The same level index
    /// always rebuilds the same layout, and each palette color's total
    /// across the new tubes equals the capacity.
    pub fn new_tubes(&mut self)
        requires
            old(self).wf(),
        ensures
            final(self).wf(),
            final(self).tube_capacity == old(self).tube_capacity,
            final(self).palette == old(self).palette,
            final(self).level == old(self).level,
            final(self).selected_tube is None,
            tube_views(final(self).tubes@) == spec_generate(
                old(self).palette@,
                old(self).tube_capacity,
                old(self).level,
            ),
            forall|k: int|
                0 <= k < old(self).palette@.len() ==> total_color(
                    tube_views(final(self).tubes@),
                    #[trigger] old(self).palette@[k],
                ) == old(self).tube_capacity,
    {
        let tubes = generate_tubes(&self.palette, self.tube_capacity, self.level);
        let factor = smallest_factor(tubes.len());
        self.tubes = tubes;
        self.tubes_factor = factor;
        self.selected_tube = None;
        proof {
            assert forall|k: int|
                0 <= k < self.palette@.len() implies total_color(
                tube_views(self.tubes@),
                #[trigger] self.palette@[k],
            ) == self.tube_capacity by {
                lemma_distinct_count(self.palette@, k);
            }
        }
    }

    /// Move to the next level: bump the level index and rebuild the tubes.
    pub fn skip_level(&mut self)
        requires
            old(self).wf(),
            old(self).level < u64::MAX,
        ensures
            final(self).wf(),
            final(self).tube_capacity == old(self).tube_capacity,
            final(self).palette == old(self).palette,
            final(self).level == old(self).level + 1,
            final(self).selected_tube is None,
            tube_views(final(self).tubes@) == spec_generate(
                old(self).palette@,
                old(self).tube_capacity,
                (old(self).level + 1) as u64,
            ),
    {
        self.level = self.level + 1;
        self.new_tubes();
    }

    /// Aggregate completion: the average per-tube completion fraction over
    /// all non-empty tubes, as an exact rational. A level with no content
    /// at all counts as complete.
    pub fn complete_pct(&self) -> (r: Fraction)
        requires
            self.wf(),
            self.tubes@.len() * self.tube_capacity <= u64::MAX,
        ensures
            r.wf(),
            nonempty_count(self.tubes@) == 0 ==> r.num == 1 && r.den == 1,
            nonempty_count(self.tubes@) > 0 ==> r.num == completion_num(self.tubes@) && r.den
                == nonempty_count(self.tubes@) * self.tube_capacity,
    {
        let ghost ts = self.tubes@;
        let cap = self.tube_capacity;
        let mut sum: u64 = 0;
        let mut count: u64 = 0;
        let mut i: usize = 0;
        proof {
            assert(ts.take(0) =~= Seq::<ColorTube>::empty());
        }
        while i < self.tubes.len()
            invariant
                self.wf(),
                ts == self.tubes@,
                cap == self.tube_capacity,
                ts.len() * cap <= u64::MAX,
                i <= ts.len(),
                sum == completion_num(ts.take(i as int)),
                count == nonempty_count(ts.take(i as int)),
                count <= i,
                sum <= count * cap,
            decreases ts.len() - i,
        {
            proof {
                lemma_completion_take_step(ts, i as int);
                assert((count + 1) * cap == count * cap + cap) by (nonlinear_arith);
                assert(count * cap <= ts.len() * cap && (i + 1) * cap <= ts.len() * cap) by (nonlinear_arith)
                    requires
                        count + 1 <= i + 1 <= ts.len(),
                        cap >= 0,
                ;
            }
            let t = &self.tubes[i];
            let rem = t.remaining_capacity();
            if rem != t.capacity {
                proof {
                    lemma_seg_sum_nonneg(t@);
                    lemma_max_color_total_bounds(t@);
                    assert(count * cap + cap <= ts.len() * cap) by (nonlinear_arith)
                        requires
                            count + 1 <= ts.len(),
                            cap >= 0,
                    ;
                }
                let f = t.complete_pct();
                sum = sum + f.num;
                count = count + 1;
            } else {
                proof {
                    lemma_seg_sum_nonneg(t@);
                }
            }
            i = i + 1;
        }
        proof {
            assert(ts.take(ts.len() as int) =~= ts);
        }
        if count == 0 {
            Fraction::one()
        } else {
            proof {
                assert(1 * cap <= count * cap && count * cap <= ts.len() * cap) by (nonlinear_arith)
                    requires
                        1 <= count <= ts.len(),
                        cap >= 1,
                ;
            }
            Fraction::new(sum, count * (cap as u64))
        }
    }

    /// One step of the selection state machine, on a "tube activated"
    /// event. With nothing selected, the tube becomes selected; activating
    /// the selected tube again deselects it without touching any contents;
    /// activating a different tube attempts exactly one transfer from the
    /// selected tube into it (a rejected transfer changes nothing) and the
    /// selection always returns to none. An out-of-range index is ignored.
    pub fn handle_tube_activation(&mut self, tube_index: usize)
        requires
            old(self).wf(),
        ensures
            final(self).wf(),
            final(self).tube_capacity == old(self).tube_capacity,
            final(self).palette == old(self).palette,
            final(self).level == old(self).level,
            final(self).tubes_factor == old(self).tubes_factor,
            final(self).tubes@.len() == old(self).tubes@.len(),
            tube_index >= old(self).tubes@.len() ==> *final(self) == *old(self),
            tube_index < old(self).tubes@.len() ==> match old(self).selected_tube {
                None => final(self).selected_tube == Some(tube_index) && final(self).tubes@ == old(
                    self,
                ).tubes@,
                Some(prev) => final(self).selected_tube is None && if prev == tube_index {
                    final(self).tubes@ == old(self).tubes@
                } else {
                    &&& final(self).tubes@[prev as int]@ == transfer_src(
                        old(self).tubes@[prev as int]@,
                        old(self).tubes@[tube_index as int]@,
                        old(self).tube_capacity,
                    )
                    &&& final(self).tubes@[tube_index as int]@ == transfer_dst(
                        old(self).tubes@[prev as int]@,
                        old(self).tubes@[tube_index as int]@,
                        old(self).tube_capacity,
                    )
                    &&& same_shell(
                        final(self).tubes@[prev as int],
                        old(self).tubes@[prev as int],
                    )
                    &&& same_shell(
                        final(self).tubes@[tube_index as int],
                        old(self).tubes@[tube_index as int],
                    )
                    &&& forall|k: int|
                        0 <= k < old(self).tubes@.len() && k != prev && k != tube_index
                            ==> final(self).tubes@[k] == old(self).tubes@[k]
                },
            },
    {
        if tube_index >= self.tubes.len() {
            return ;
        }
        match self.selected_tube {
            None => {
                self.selected_tube = Some(tube_index);
            },
            Some(prev) => {
                if prev == tube_index {
                    self.selected_tube = None;
                } else {
                    let (lo, hi) = if prev < tube_index {
                        (prev, tube_index)
                    } else {
                        (tube_index, prev)
                    };
                    let ghost tubes0 = self.tubes@;
                    let mut t_hi = self.tubes.remove(hi);
                    let mut t_lo = self.tubes.remove(lo);
                    proof {
                        assert(t_hi == tubes0[hi as int]);
                        assert(t_lo == tubes0[lo as int]);
                    }
                    if prev < tube_index {
                        transfer_between(&mut t_lo, &mut t_hi);
                    } else {
                        transfer_between(&mut t_hi, &mut t_lo);
                    }
                    self.tubes.insert(lo, t_lo);
                    self.tubes.insert(hi, t_hi);
                    self.selected_tube = None;
                    proof {
                        assert(self.tubes@ =~= tubes0.update(
                            lo as int,
                            self.tubes@[lo as int],
                        ).update(hi as int, self.tubes@[hi as int]));
                    }
                }
            },
        }
    }
}

} // verus!
