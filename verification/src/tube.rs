//! The tube data model: a capacity-bounded stack of color segments.
//!
//! A tube stores color runs bottom-to-top. Filling merges a segment into the
//! top run when the colors match and stacks a new run otherwise; draining
//! removes from the top run only and never crosses a color boundary. The
//! stored segments always satisfy three invariants: the total amount never
//! exceeds the capacity, adjacent segments never share a color, and no
//! zero-amount segment is ever stored.

use crate::fraction::Fraction;
use vstd::prelude::*;

verus! {

/// A contiguous run of one color inside a tube. Colors are identifiers
/// assigned by the palette; amounts are whole quantity units (a standard
/// pour moves one unit, but any positive amount can be drained or filled,
/// splitting a run at an arbitrary point).
#[derive(Clone, Copy, Debug, PartialEq, Eq, Structural)]
pub struct ColorTubeContent {
    pub color: u32,
    pub amount: u32,
}

impl ColorTubeContent {
    pub fn new(color: u32, amount: u32) -> (c: ColorTubeContent)
        ensures
            c == (ColorTubeContent { color, amount }),
    {
        ColorTubeContent { color, amount }
    }
}

/// Total amount stored in a sequence of segments.
pub open spec fn seg_sum(s: Seq<ColorTubeContent>) -> int
    decreases s.len(),
{
    if s.len() == 0 {
        0
    } else {
        seg_sum(s.drop_last()) + s.last().amount
    }
}

/// Total amount of one color in a sequence of segments, across all its
/// runs, contiguous or not.
pub open spec fn color_total(s: Seq<ColorTubeContent>, color: u32) -> int
    decreases s.len(),
{
    if s.len() == 0 {
        0
    } else {
        color_total(s.drop_last(), color) + if s.last().color == color {
            s.last().amount as int
        } else {
            0int
        }
    }
}

/// Some segment of the sequence has the given color.
pub open spec fn color_present(s: Seq<ColorTubeContent>, color: u32) -> bool {
    exists|i: int| 0 <= i < s.len() && s[i].color == color
}

/// Structural well-formedness of stored segments: every amount is positive
/// and adjacent segments never share a color.
pub open spec fn segs_wf(s: Seq<ColorTubeContent>) -> bool {
    &&& forall|i: int| 0 <= i < s.len() ==> (#[trigger] s[i]).amount > 0
    &&& forall|i: int, j: int| 0 <= i < j < s.len() && j == i + 1 ==> s[i].color != s[j].color
}

/// The segments after a merge-or-append fill of `c` (assuming it fits):
/// merged into the top run when the colors match, stacked on top otherwise.
pub open spec fn fill_merged(s: Seq<ColorTubeContent>, c: ColorTubeContent) -> Seq<
    ColorTubeContent,
> {
    if s.len() > 0 && s.last().color == c.color {
        s.drop_last().push(
            ColorTubeContent { color: c.color, amount: (s.last().amount + c.amount) as u32 },
        )
    } else {
        s.push(c)
    }
}

/// The amount a drain request of `req` actually removes: the request,
/// clamped to the top run (draining never crosses a color boundary).
pub open spec fn drained_amount(s: Seq<ColorTubeContent>, req: u32) -> u32 {
    if s.len() == 0 {
        0u32
    } else if req <= s.last().amount {
        req
    } else {
        s.last().amount
    }
}

/// The segment a drain request returns: nothing for an empty tube or a zero
/// request, otherwise the drained part of the top run.
pub open spec fn drain_take(s: Seq<ColorTubeContent>, req: u32) -> Option<ColorTubeContent> {
    if s.len() == 0 || req == 0 {
        None::<ColorTubeContent>
    } else {
        Some(ColorTubeContent { color: s.last().color, amount: drained_amount(s, req) })
    }
}

/// The segments left behind by a drain request.
pub open spec fn drain_rest(s: Seq<ColorTubeContent>, req: u32) -> Seq<ColorTubeContent> {
    if s.len() == 0 || req == 0 {
        s
    } else if req >= s.last().amount {
        s.drop_last()
    } else {
        s.drop_last().push(
            ColorTubeContent { color: s.last().color, amount: (s.last().amount - req) as u32 },
        )
    }
}

/// Largest per-color total among the colors of the first `i` segments.
pub open spec fn prefix_best(s: Seq<ColorTubeContent>, i: int) -> int
    decreases i,
{
    if i <= 0 {
        0
    } else {
        let t = color_total(s, s[i - 1].color);
        let b = prefix_best(s, i - 1);
        if t > b {
            t
        } else {
            b
        }
    }
}

/// Largest per-color total among all colors present in the segments.
pub open spec fn max_color_total(s: Seq<ColorTubeContent>) -> int {
    prefix_best(s, s.len() as int)
}

/// `c` is the main color of the segments: it is present, its total is
/// maximal, and ties go to the smallest color identifier.
pub open spec fn is_main_color(s: Seq<ColorTubeContent>, c: u32) -> bool {
    &&& color_present(s, c)
    &&& forall|d: u32|
        #[trigger] color_present(s, d) ==> color_total(s, d) < color_total(s, c) || (color_total(
            s,
            d,
        ) == color_total(s, c) && c <= d)
}

pub proof fn lemma_seg_sum_nonneg(s: Seq<ColorTubeContent>)
    ensures
        seg_sum(s) >= 0,
    decreases s.len(),
{
    if s.len() > 0 {
        lemma_seg_sum_nonneg(s.drop_last());
    }
}

pub proof fn lemma_color_total_bounds(s: Seq<ColorTubeContent>, color: u32)
    ensures
        0 <= color_total(s, color) <= seg_sum(s),
    decreases s.len(),
{
    if s.len() > 0 {
        lemma_color_total_bounds(s.drop_last(), color);
    }
}

/// The top segment's amount never exceeds the total.
pub proof fn lemma_last_le_sum(s: Seq<ColorTubeContent>)
    requires
        s.len() > 0,
    ensures
        s.last().amount <= seg_sum(s),
{
    lemma_seg_sum_nonneg(s.drop_last());
}

/// A well-formed non-empty sequence holds a positive total.
pub proof fn lemma_seg_sum_pos(s: Seq<ColorTubeContent>)
    requires
        segs_wf(s),
        s.len() > 0,
    ensures
        seg_sum(s) >= 1,
{
    lemma_seg_sum_nonneg(s.drop_last());
}

/// Stepping a prefix sum over one more segment.
pub proof fn lemma_seg_sum_take_step(s: Seq<ColorTubeContent>, i: int)
    requires
        0 <= i < s.len(),
    ensures
        seg_sum(s.take(i + 1)) == seg_sum(s.take(i)) + s[i].amount,
{
    assert(s.take(i + 1).drop_last() =~= s.take(i));
}

/// Prefix sums never exceed the total.
pub proof fn lemma_seg_sum_take_le(s: Seq<ColorTubeContent>, i: int)
    requires
        0 <= i <= s.len(),
    ensures
        seg_sum(s.take(i)) <= seg_sum(s),
    decreases s.len() - i,
{
    if i == s.len() {
        assert(s.take(i) =~= s);
    } else {
        lemma_seg_sum_take_step(s, i);
        lemma_seg_sum_take_le(s, i + 1);
    }
}

/// Stepping a prefix color total over one more segment.
pub proof fn lemma_color_total_take_step(s: Seq<ColorTubeContent>, color: u32, i: int)
    requires
        0 <= i < s.len(),
    ensures
        color_total(s.take(i + 1), color) == color_total(s.take(i), color) + if s[i].color
            == color {
            s[i].amount as int
        } else {
            0int
        },
{
    assert(s.take(i + 1).drop_last() =~= s.take(i));
}

/// Effect of a merge-or-append fill on totals and well-formedness.
pub proof fn lemma_fill_merged(s: Seq<ColorTubeContent>, c: ColorTubeContent)
    requires
        segs_wf(s),
        c.amount > 0,
        seg_sum(s) + c.amount <= u32::MAX,
    ensures
        segs_wf(fill_merged(s, c)),
        seg_sum(fill_merged(s, c)) == seg_sum(s) + c.amount,
        forall|d: u32|
            #[trigger] color_total(fill_merged(s, c), d) == color_total(s, d) + if c.color == d {
                c.amount as int
            } else {
                0int
            },
        fill_merged(s, c).len() > 0,
{
    lemma_seg_sum_nonneg(s.drop_last());
    if s.len() > 0 && s.last().color == c.color {
        let merged = ColorTubeContent {
            color: c.color,
            amount: (s.last().amount + c.amount) as u32,
        };
        let r = s.drop_last().push(merged);
        lemma_last_le_sum(s);
        assert(r.drop_last() =~= s.drop_last());
        assert forall|d: u32| #[trigger]
            color_total(r, d) == color_total(s, d) + if c.color == d {
                c.amount as int
            } else {
                0int
            } by {
            assert(color_total(r, d) == color_total(r.drop_last(), d) + if r.last().color == d {
                r.last().amount as int
            } else {
                0int
            });
        }
    } else {
        let r = s.push(c);
        assert(r.drop_last() =~= s);
        assert(r.last() == c);
    }
}

/// Effect of a drain on totals and well-formedness.
pub proof fn lemma_drain(s: Seq<ColorTubeContent>, req: u32)
    requires
        segs_wf(s),
    ensures
        segs_wf(drain_rest(s, req)),
        seg_sum(drain_rest(s, req)) == seg_sum(s) - match drain_take(s, req) {
            Some(c) => c.amount as int,
            None => 0int,
        },
        forall|d: u32|
            #[trigger] color_total(drain_rest(s, req), d) == color_total(s, d) - (match drain_take(
                s,
                req,
            ) {
                Some(c) => if c.color == d {
                    c.amount as int
                } else {
                    0int
                },
                None => 0int,
            }),
        drain_take(s, req) matches Some(c) ==> c.amount > 0 && c.amount == drained_amount(s, req)
            && c.color == s.last().color,
{
    if s.len() == 0 || req == 0 {
    } else if req >= s.last().amount {
        assert(drain_rest(s, req) =~= s.drop_last());
    } else {
        let kept = ColorTubeContent { color: s.last().color, amount: (s.last().amount - req) as u32 };
        let r = s.drop_last().push(kept);
        assert(r.drop_last() =~= s.drop_last());
        assert(r.last() == kept);
        assert forall|d: u32| #[trigger]
            color_total(r, d) == color_total(s, d) - (if s.last().color == d {
                req as int
            } else {
                0int
            }) by {
            assert(color_total(r, d) == color_total(r.drop_last(), d) + if r.last().color == d {
                r.last().amount as int
            } else {
                0int
            });
        }
    }
}

/// Round-trip law: draining any amount and pouring the returned segment
/// straight back (merge-or-append) restores the segments exactly, and the
/// returned segment always fits back in.
pub proof fn lemma_drain_then_fill_restores(s: Seq<ColorTubeContent>, req: u32)
    requires
        segs_wf(s),
    ensures
        drain_take(s, req) matches Some(c) ==> fill_merged(drain_rest(s, req), c) == s && seg_sum(
            drain_rest(s, req),
        ) + c.amount == seg_sum(s),
{
    if s.len() > 0 && req > 0 {
        let c = drain_take(s, req)->Some_0;
        lemma_drain(s, req);
        let rest = drain_rest(s, req);
        if req >= s.last().amount {
            assert(rest == s.drop_last());
            if rest.len() > 0 {
                assert(s[s.len() - 2].color != s[s.len() - 1].color);
                assert(rest.last() == s[s.len() - 2]);
                assert(fill_merged(rest, c) == rest.push(c));
                assert(rest.push(c) =~= s);
            } else {
                assert(fill_merged(rest, c) =~= s);
            }
        } else {
            assert(rest.last().color == c.color);
            assert(rest.len() == s.len());
            let merged = ColorTubeContent {
                color: c.color,
                amount: (rest.last().amount + c.amount) as u32,
            };
            assert(merged == s.last());
            assert(rest.drop_last() =~= s.drop_last());
            assert(fill_merged(rest, c) == rest.drop_last().push(merged));
            assert(rest.drop_last().push(merged) =~= s);
        }
    }
}

/// A capacity-bounded stack of color segments, with the transient selection
/// flags the renderer reads for visual feedback.
#[derive(Debug)]
pub struct ColorTube {
    pub hovered: bool,
    pub mousedown: bool,
    pub clicked: bool,
    pub keycode: Option<char>,
    pub capacity: u32,
    pub contents: Vec<ColorTubeContent>,
}

impl View for ColorTube {
    type V = Seq<ColorTubeContent>;

    open spec fn view(&self) -> Seq<ColorTubeContent> {
        self.contents@
    }
}

/// Two tubes agree on everything but their contents: same capacity, same
/// transient selection flags, same shortcut symbol.
pub open spec fn same_shell(a: ColorTube, b: ColorTube) -> bool {
    &&& a.capacity == b.capacity
    &&& a.hovered == b.hovered
    &&& a.mousedown == b.mousedown
    &&& a.clicked == b.clicked
    &&& a.keycode == b.keycode
}

impl ColorTube {
    /// The tube invariant: positive capacity, well-formed segments, and a
    /// total that fits the capacity.
    pub open spec fn wf(self) -> bool {
        &&& self.capacity > 0
        &&& segs_wf(self@)
        &&& seg_sum(self@) <= self.capacity
    }

    pub fn new(capacity: u32, contents: Vec<ColorTubeContent>) -> (t: ColorTube)
        requires
            capacity > 0,
            segs_wf(contents@),
            seg_sum(contents@) <= capacity,
        ensures
            t.wf(),
            t@ == contents@,
            t.capacity == capacity,
            !t.hovered && !t.mousedown && !t.clicked,
            t.keycode is None,
    {
        ColorTube {
            hovered: false,
            mousedown: false,
            clicked: false,
            keycode: None,
            capacity,
            contents,
        }
    }

    /// Read-only access to the stored segments, bottom to top.
    pub fn segments(&self) -> (s: &Vec<ColorTubeContent>)
        ensures
            s@ == self@,
    {
        &self.contents
    }

    /// Total amount currently stored.
    pub fn amount(&self) -> (a: u32)
        requires
            self.wf(),
        ensures
            a == seg_sum(self@),
    {
        let ghost full = self@;
        let mut a: u32 = 0;
        let mut i: usize = 0;
        proof {
            assert(full.take(0) =~= Seq::<ColorTubeContent>::empty());
        }
        while i < self.contents.len()
            invariant
                self.wf(),
                full == self@,
                i <= self.contents.len(),
                a == seg_sum(full.take(i as int)),
            decreases self.contents.len() - i,
        {
            proof {
                lemma_seg_sum_take_step(full, i as int);
                lemma_seg_sum_take_le(full, i as int + 1);
                lemma_seg_sum_nonneg(full.take(i as int));
            }
            a = a + self.contents[i].amount;
            i = i + 1;
        }
        proof {
            assert(full.take(i as int) =~= full);
        }
        a
    }

    /// Free space left: capacity minus the stored amount.
    pub fn remaining_capacity(&self) -> (r: u32)
        requires
            self.wf(),
        ensures
            r == self.capacity - seg_sum(self@),
    {
        proof {
            lemma_seg_sum_nonneg(self@);
        }
        self.capacity - self.amount()
    }

    /// Total amount of one color, across all its runs.
    pub fn amount_of_color(&self, color: u32) -> (a: u32)
        requires
            self.wf(),
        ensures
            a == color_total(self@, color),
    {
        let ghost full = self@;
        let mut a: u32 = 0;
        let mut i: usize = 0;
        proof {
            assert(full.take(0) =~= Seq::<ColorTubeContent>::empty());
        }
        while i < self.contents.len()
            invariant
                self.wf(),
                full == self@,
                i <= self.contents.len(),
                a == color_total(full.take(i as int), color),
            decreases self.contents.len() - i,
        {
            proof {
                lemma_color_total_take_step(full, color, i as int);
                lemma_color_total_bounds(full.take(i as int + 1), color);
                lemma_seg_sum_take_le(full, i as int + 1);
            }
            if self.contents[i].color == color {
                a = a + self.contents[i].amount;
            }
            i = i + 1;
        }
        proof {
            assert(full.take(i as int) =~= full);
        }
        a
    }

    /// The color whose total amount in the tube is the largest; ties go to
    /// the smallest color identifier. `None` only for an empty tube.
    pub fn main_color(&self) -> (r: Option<u32>)
        requires
            self.wf(),
        ensures
            r is Some <==> self@.len() > 0,
            r matches Some(c) ==> is_main_color(self@, c) && color_total(self@, c)
                == max_color_total(self@),
    {
        let ghost full = self@;
        if self.contents.len() == 0 {
            return None;
        }
        let mut best_color = self.contents[0].color;
        let mut best_total = self.amount_of_color(best_color);
        let mut i: usize = 1;
        while i < self.contents.len()
            invariant
                self.wf(),
                full == self@,
                1 <= i <= self.contents.len(),
                exists|k: int| 0 <= k < i && full[k].color == best_color,
                best_total == color_total(full, best_color),
                forall|k: int|
                    0 <= k < i ==> color_total(full, (#[trigger] full[k]).color) < best_total || (
                    color_total(full, full[k].color) == best_total && best_color <= full[k].color),
            decreases self.contents.len() - i,
        {
            let c = self.contents[i].color;
            let t = self.amount_of_color(c);
            if t > best_total || (t == best_total && c < best_color) {
                best_color = c;
                best_total = t;
            }
            i = i + 1;
        }
        proof {
            assert forall|d: u32| #[trigger]
                color_present(full, d) implies color_total(full, d) < color_total(full, best_color)
                || (color_total(full, d) == color_total(full, best_color) && best_color <= d) by {
                let k = choose|k: int| 0 <= k < full.len() && full[k].color == d;
                assert(color_total(full, full[k].color) < best_total || (color_total(
                    full,
                    full[k].color,
                ) == best_total && best_color <= full[k].color));
            }
            assert(color_present(full, best_color));
            lemma_max_is_main(full, best_color);
        }
        Some(best_color)
    }

    /// Fraction of the full capacity occupied by one color, an exact
    /// rational in the unit interval.
    pub fn color_pct(&self, color: u32) -> (r: Fraction)
        requires
            self.wf(),
        ensures
            r.den == self.capacity,
            r.num == color_total(self@, color),
            r.wf(),
    {
        let amt = self.amount_of_color(color);
        proof {
            lemma_color_total_bounds(self@, color);
        }
        Fraction::new(amt as u64, self.capacity as u64)
    }

    /// Fraction of the capacity occupied by the main color; an empty tube
    /// counts as complete.
    pub fn complete_pct(&self) -> (r: Fraction)
        requires
            self.wf(),
        ensures
            r.den == self.capacity,
            r.wf(),
            self@.len() == 0 ==> r.num == r.den,
            self@.len() > 0 ==> r.num == max_color_total(self@),
    {
        match self.main_color() {
            Some(color) => self.color_pct(color),
            None => Fraction::new(self.capacity as u64, self.capacity as u64),
        }
    }

    /// Merge-or-append fill: accepts the segment whenever capacity allows,
    /// regardless of color; returns the segment back, unchanged, only when
    /// it would overflow. Used where color-matching rules must not apply
    /// (level generation, returning rejected content to its source).
    pub fn fill_unchecked(&mut self, content: ColorTubeContent) -> (rejected: Option<
        ColorTubeContent,
    >)
        requires
            old(self).wf(),
            content.amount > 0,
        ensures
            final(self).wf(),
            final(self).capacity == old(self).capacity,
            final(self).hovered == old(self).hovered,
            final(self).mousedown == old(self).mousedown,
            final(self).clicked == old(self).clicked,
            final(self).keycode == old(self).keycode,
            seg_sum(old(self)@) + content.amount > old(self).capacity ==> rejected == Some(content)
                && final(self)@ == old(self)@,
            seg_sum(old(self)@) + content.amount <= old(self).capacity ==> rejected is None
                && final(self)@ == fill_merged(old(self)@, content) && seg_sum(final(self)@)
                == seg_sum(old(self)@) + content.amount,
    {
        let rem = self.remaining_capacity();
        if rem < content.amount {
            return Some(content);
        }
        proof {
            lemma_fill_merged(self@, content);
        }
        let n = self.contents.len();
        if n == 0 {
            self.contents.push(content);
        } else {
            let top = self.contents[n - 1];
            if top.color != content.color {
                self.contents.push(content);
            } else {
                proof {
                    lemma_last_le_sum(self@);
                }
                let merged = ColorTubeContent {
                    color: top.color,
                    amount: top.amount + content.amount,
                };
                let _ = self.contents.pop();
                self.contents.push(merged);
            }
        }
        proof {
            assert(self@ =~= fill_merged(old(self)@, content));
        }
        None
    }

    /// Player-move fill: same capacity check as the merge-or-append fill,
    /// but also rejects (returns the segment untouched) when the tube is
    /// non-empty and its top color differs from the segment's color.
    pub fn fill(&mut self, content: ColorTubeContent) -> (rejected: Option<ColorTubeContent>)
        requires
            old(self).wf(),
            content.amount > 0,
        ensures
            final(self).wf(),
            final(self).capacity == old(self).capacity,
            final(self).hovered == old(self).hovered,
            final(self).mousedown == old(self).mousedown,
            final(self).clicked == old(self).clicked,
            final(self).keycode == old(self).keycode,
            rejected == (if seg_sum(old(self)@) + content.amount > old(self).capacity || (old(
                self,
            )@.len() > 0 && old(self)@.last().color != content.color) {
                Some(content)
            } else {
                None::<ColorTubeContent>
            }),
            rejected is Some ==> final(self)@ == old(self)@,
            rejected is None ==> final(self)@ == fill_merged(old(self)@, content) && seg_sum(
                final(self)@,
            ) == seg_sum(old(self)@) + content.amount,
    {
        let rem = self.remaining_capacity();
        if rem < content.amount {
            return Some(content);
        }
        let n = self.contents.len();
        if n == 0 {
            proof {
                lemma_fill_merged(self@, content);
            }
            self.contents.push(content);
            proof {
                assert(self@ =~= fill_merged(old(self)@, content));
            }
            None
        } else {
            let top = self.contents[n - 1];
            if top.color == content.color {
                proof {
                    lemma_fill_merged(self@, content);
                    lemma_last_le_sum(self@);
                }
                let merged = ColorTubeContent {
                    color: top.color,
                    amount: top.amount + content.amount,
                };
                let _ = self.contents.pop();
                self.contents.push(merged);
                proof {
                    assert(self@ =~= fill_merged(old(self)@, content));
                }
                None
            } else {
                Some(content)
            }
        }
    }

    /// Drain up to `amount` units from the top run. The request is clamped
    /// to the stored total; `None` means the clamped request was zero. The
    /// drain never reaches below the top run: a differently-colored segment
    /// underneath is never touched.
    pub fn drain(&mut self, amount: u32) -> (drained: Option<ColorTubeContent>)
        requires
            old(self).wf(),
        ensures
            final(self).wf(),
            final(self).capacity == old(self).capacity,
            final(self).hovered == old(self).hovered,
            final(self).mousedown == old(self).mousedown,
            final(self).clicked == old(self).clicked,
            final(self).keycode == old(self).keycode,
            drained == drain_take(old(self)@, amount),
            final(self)@ == drain_rest(old(self)@, amount),
            seg_sum(final(self)@) == seg_sum(old(self)@) - match drained {
                Some(c) => c.amount as int,
                None => 0int,
            },
    {
        proof {
            lemma_drain(old(self)@, amount);
        }
        let total = self.amount();
        let mut amt = amount;
        if amt > total {
            amt = total;
        }
        if amt == 0 {
            proof {
                if self.contents.len() > 0 {
                    lemma_seg_sum_pos(self@);
                }
            }
            return None;
        }
        let top = self.contents[self.contents.len() - 1];
        let d = if amt > top.amount {
            top.amount
        } else {
            amt
        };
        proof {
            lemma_last_le_sum(self@);
            assert(d == drained_amount(old(self)@, amount));
        }
        let _ = self.contents.pop();
        if d < top.amount {
            self.contents.push(ColorTubeContent { color: top.color, amount: top.amount - d });
            proof {
                assert(self@ =~= drain_rest(old(self)@, amount));
            }
        } else {
            proof {
                assert(self@ =~= drain_rest(old(self)@, amount));
            }
        }
        Some(ColorTubeContent { color: top.color, amount: d })
    }
}

/// A present color whose total dominates every present color's total (with
/// ties going to the smaller identifier) realizes the maximum total.
pub proof fn lemma_max_is_main(s: Seq<ColorTubeContent>, c: u32)
    requires
        color_present(s, c),
        forall|d: u32|
            #[trigger] color_present(s, d) ==> color_total(s, d) < color_total(s, c) || (
            color_total(s, d) == color_total(s, c) && c <= d),
    ensures
        is_main_color(s, c),
        color_total(s, c) == max_color_total(s),
{
    lemma_prefix_best_bounds(s, s.len() as int);
    let k = choose|k: int| 0 <= k < s.len() && color_total(s, s[k].color) == max_color_total(s);
    assert(color_present(s, s[k].color));
    let m = choose|m: int| 0 <= m < s.len() && s[m].color == c;
    lemma_prefix_best_covers(s, s.len() as int, m);
}

/// The largest per-color total is never negative and never exceeds the
/// stored total.
pub proof fn lemma_max_color_total_bounds(s: Seq<ColorTubeContent>)
    ensures
        0 <= max_color_total(s) <= seg_sum(s),
{
    lemma_prefix_best_bounds(s, s.len() as int);
    lemma_seg_sum_nonneg(s);
    if s.len() > 0 {
        let k = choose|k: int|
            0 <= k < s.len() && color_total(s, (#[trigger] s[k]).color) == max_color_total(s);
        lemma_color_total_bounds(s, s[k].color);
    }
}

/// The prefix maximum is realized by some segment's color (for non-empty
/// prefixes) and is never negative.
proof fn lemma_prefix_best_bounds(s: Seq<ColorTubeContent>, i: int)
    requires
        0 <= i <= s.len(),
    ensures
        prefix_best(s, i) >= 0,
        i > 0 ==> exists|k: int| 0 <= k < i && color_total(s, (#[trigger] s[k]).color)
            == prefix_best(s, i),
    decreases i,
{
    if i > 0 {
        lemma_prefix_best_bounds(s, i - 1);
        let t = color_total(s, s[i - 1].color);
        let b = prefix_best(s, i - 1);
        lemma_color_total_bounds(s, s[i - 1].color);
        if t >= b {
            assert(prefix_best(s, i) == t);
            assert(0 <= i - 1 < i && color_total(s, (s[i - 1]).color) == prefix_best(s, i));
        } else {
            assert(i - 1 > 0);
            let k = choose|k: int|
                0 <= k < i - 1 && color_total(s, (#[trigger] s[k]).color) == prefix_best(s, i - 1);
            assert(0 <= k < i && color_total(s, (s[k]).color) == prefix_best(s, i));
        }
    }
}

/// Every covered segment's color total is bounded by the prefix maximum.
proof fn lemma_prefix_best_covers(s: Seq<ColorTubeContent>, i: int, k: int)
    requires
        0 <= k < i <= s.len(),
    ensures
        color_total(s, s[k].color) <= prefix_best(s, i),
    decreases i,
{
    if k < i - 1 {
        lemma_prefix_best_covers(s, i - 1, k);
    }
}

} // verus!
