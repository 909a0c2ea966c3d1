//! Walking along a path.
//!
//! A path is a sequence of waypoints. Every leg of a path runs along a line
//! of the grid, so its length is a whole number of steps.

use crate::action::MoveToBuildingAction;
use crate::position::{is_integer_sqrt, squared_distance, Pos};
use crate::troop::Troop;
use vstd::prelude::*;

verus! {

/// The distance in steps between two points on one line of the grid.
pub open spec fn span(a: Pos, b: Pos) -> int {
    (if a.x >= b.x {
        a.x - b.x
    } else {
        b.x - a.x
    }) + (if a.y >= b.y {
        a.y - b.y
    } else {
        b.y - a.y
    })
}

/// Whether two points lie on one line of the grid.
pub open spec fn aligned(a: Pos, b: Pos) -> bool {
    a.x == b.x || a.y == b.y
}

/// Where a walker from `from` along `path` stands after `i` waypoints.
pub open spec fn waypoint(from: Pos, path: Seq<Pos>, i: int) -> Pos {
    if i <= 0 {
        from
    } else {
        path[i - 1]
    }
}

/// Whether the leg to the waypoint `i` of the walk from `from` along `path`
/// runs along a line of the grid.
pub open spec fn leg_aligned(from: Pos, path: Seq<Pos>, i: int) -> bool {
    aligned(waypoint(from, path, i), path[i])
}

/// Whether every leg of the walk from `from` along `path` runs along a line
/// of the grid.
pub open spec fn legs_aligned(from: Pos, path: Seq<Pos>) -> bool {
    forall|i: int| 0 <= i < path.len() ==> #[trigger] leg_aligned(from, path, i)
}

/// The length in steps of the walk from `from` along `path`.
pub open spec fn legs_length(from: Pos, path: Seq<Pos>) -> int
    decreases path.len(),
{
    if path.len() == 0 {
        0
    } else {
        legs_length(from, path.drop_last()) + span(
            waypoint(from, path, path.len() - 1),
            path.last(),
        )
    }
}

/// The point `t` steps from `a` on the way to `b`.
pub open spec fn toward(a: Pos, b: Pos, t: int) -> Pos {
    Pos {
        x: (if b.x > a.x {
            a.x + t
        } else if b.x < a.x {
            a.x - t
        } else {
            a.x as int
        }) as i32,
        y: (if b.y > a.y {
            a.y + t
        } else if b.y < a.y {
            a.y - t
        } else {
            a.y as int
        }) as i32,
    }
}

/// The ticks that it takes to cover `distance` steps at `speed` steps a
/// tick: the quotient, rounded up.
pub open spec fn ticks_to_cover(distance: int, speed: int) -> int {
    (distance + speed - 1) / speed
}

/// A span of time as a fraction of ticks: `num / den` ticks.
///
/// The time that it takes to cover `num` steps at `den` steps a tick, or to
/// wear down `num` life units at `den` life units a tick.
pub struct Span {
    pub num: int,
    pub den: int,
}

impl Span {
    /// Whether `self` is shorter than `other`.
    pub open spec fn shorter(self, other: Span) -> bool {
        self.num * other.den < other.num * self.den
    }

    /// Whether `self` is no longer than `other`.
    pub open spec fn no_longer(self, other: Span) -> bool {
        self.num * other.den <= other.num * self.den
    }

    /// Whether `self` is as long as `other`.
    pub open spec fn as_long(self, other: Span) -> bool {
        self.num * other.den == other.num * self.den
    }

    /// Whether `self` comes first of the two: it is shorter, or it is as
    /// long and written with a denominator that is no greater.
    pub open spec fn comes_first(self, other: Span) -> bool {
        self.shorter(other) || (self.as_long(other) && self.den <= other.den)
    }

    /// The whole ticks that cover the span: the fraction, rounded up.
    pub open spec fn ceiling(self) -> int {
        ticks_to_cover(self.num, self.den)
    }
}

/// A span of time as a fraction of ticks, in machine words.
#[derive(Copy, Clone, Debug, PartialEq, Eq, Structural)]
pub struct Fraction {
    pub num: u128,
    pub den: u128,
}

impl View for Fraction {
    type V = Span;

    open spec fn view(&self) -> Span {
        Span { num: self.num as int, den: self.den as int }
    }
}

impl Fraction {
    /// Whether `self` is shorter than `other`.
    ///
    /// The products that decide it must fit a machine word, but for the one
    /// on the side of `self` where `self` is longer at a glance.
    pub fn is_shorter(&self, other: &Fraction) -> (shorter: bool)
        requires
            self.den > 0,
            other.den > 0,
            other.num * self.den <= u128::MAX,
            self.num <= other.num * self.den ==> self.num * other.den <= u128::MAX,
        ensures
            shorter == self@.shorter(other@),
    {
        let right = other.num * self.den;
        if self.num > right {
            assert(self.num * other.den >= self.num) by (nonlinear_arith)
                requires
                    other.den >= 1,
                    self.num >= 0,
            ;
            false
        } else {
            self.num * other.den < right
        }
    }

    /// Whether `self` is as long as `other`.
    ///
    /// The products that decide it must fit a machine word, as for
    /// [`Fraction::is_shorter`].
    pub fn is_as_long(&self, other: &Fraction) -> (same: bool)
        requires
            self.den > 0,
            other.den > 0,
            other.num * self.den <= u128::MAX,
            self.num <= other.num * self.den ==> self.num * other.den <= u128::MAX,
        ensures
            same == self@.as_long(other@),
    {
        let right = other.num * self.den;
        if self.num > right {
            assert(self.num * other.den >= self.num) by (nonlinear_arith)
                requires
                    other.den >= 1,
                    self.num >= 0,
            ;
            false
        } else {
            self.num * other.den == right
        }
    }

    /// The whole ticks that cover the span: the fraction, rounded up.
    pub fn whole_ticks(&self) -> (ticks: u128)
        requires
            self.den > 0,
        ensures
            ticks == self@.ceiling(),
            ticks <= self.num,
            ticks == 0 <==> self.num == 0,
            self.den * ticks >= self.num,
            ticks > 0 ==> self.den * (ticks - 1) < self.num,
    {
        if self.num == 0 {
            assert(self@.ceiling() == 0) by (nonlinear_arith)
                requires
                    self@.ceiling() == (0 + self.den - 1) / (self.den as int),
                    self.den > 0,
            ;
            0
        } else {
            let ticks = (self.num - 1) / self.den + 1;
            let ghost n = self.num as int;
            let ghost d = self.den as int;
            assert(ticks == (n + d - 1) / d && 0 < ticks <= n && d * ticks >= n && d * (ticks - 1)
                < n) by (nonlinear_arith)
                requires
                    ticks == (n - 1) / d + 1,
                    n >= 1,
                    d >= 1,
            ;
            ticks
        }
    }
}

/// A span that is no longer than one that is no longer than a third is no
/// longer than the third.
pub proof fn lemma_no_longer_carries(a: Span, b: Span, c: Span)
    requires
        a.den > 0,
        b.den > 0,
        c.den > 0,
        a.num >= 0,
        b.num >= 0,
        c.num >= 0,
        a.no_longer(b),
        b.no_longer(c),
    ensures
        a.no_longer(c),
{
    let (an, ad, bn, bd, cn, cd) = (a.num, a.den, b.num, b.den, c.num, c.den);
    assert(an * cd <= cn * ad) by (nonlinear_arith)
        requires
            an * bd <= bn * ad,
            bn * cd <= cn * bd,
            ad > 0,
            bd > 0,
            cd > 0,
            an >= 0,
            bn >= 0,
            cn >= 0,
    ;
}

/// A span that comes first of two, of which the second comes first of
/// itself and a third, comes first of itself and the third.
pub proof fn lemma_comes_first_carries(a: Span, b: Span, c: Span)
    requires
        a.den > 0,
        b.den > 0,
        c.den > 0,
        a.num >= 0,
        b.num >= 0,
        c.num >= 0,
        a.comes_first(b),
        b.comes_first(c),
    ensures
        a.comes_first(c),
{
    let (an, ad, bn, bd, cn, cd) = (a.num, a.den, b.num, b.den, c.num, c.den);
    lemma_no_longer_carries(a, b, c);
    if a.shorter(b) || b.shorter(c) {
        assert(an * cd != cn * ad) by (nonlinear_arith)
            requires
                an * bd < bn * ad || bn * cd < cn * bd,
                an * bd <= bn * ad,
                bn * cd <= cn * bd,
                ad > 0,
                bd > 0,
                cd > 0,
                an >= 0,
                bn >= 0,
                cn >= 0,
        ;
    } else {
        lemma_no_longer_carries(c, b, a);
    }
}

/// Whether a walker from `from` along `path` with `budget` steps to spend
/// stops at `pos`, having passed `idx` waypoints.
///
/// The walker passes every waypoint that the budget reaches. If waypoints
/// remain it stops on the leg to the next one, where the budget ends;
/// otherwise it stops at the last waypoint.
pub open spec fn is_stop(from: Pos, path: Seq<Pos>, budget: int, pos: Pos, idx: int) -> bool {
    &&& 0 <= idx <= path.len()
    &&& legs_length(from, path.take(idx)) <= budget
    &&& if idx < path.len() {
        &&& legs_length(from, path.take(idx + 1)) > budget
        &&& pos == toward(
            waypoint(from, path, idx),
            path[idx],
            budget - legs_length(from, path.take(idx)),
        )
    } else {
        pos == waypoint(from, path, idx)
    }
}

/// Whether a walker from `from` along `path` with `budget` steps to spend
/// comes to stand at `pos`, having walked `walked`, with `rest` before it.
///
/// If the budget covers the path, the walker stands on the last waypoint,
/// the way walked is the whole path, and what is left is that waypoint.
/// Otherwise the walker stops on a leg, the way walked ends there, and what
/// is left starts there.
pub open spec fn is_advance(
    from: Pos,
    path: Seq<Pos>,
    budget: int,
    pos: Pos,
    walked: Seq<Pos>,
    rest: Seq<Pos>,
) -> bool {
    exists|idx: int|
        {
            &&& #[trigger] is_stop(from, path, budget, pos, idx)
            &&& if idx == path.len() {
                &&& walked == path
                &&& rest == seq![pos]
            } else {
                &&& walked == path.take(idx).push(pos)
                &&& rest == seq![pos] + path.skip(idx)
            }
        }
}

/// On one line of the grid the distance rounded down is the distance.
pub proof fn lemma_distance_on_line(a: Pos, b: Pos, d: int)
    requires
        aligned(a, b),
        is_integer_sqrt(squared_distance(a, b), d),
    ensures
        d == span(a, b),
{
    let s = span(a, b);
    assert(squared_distance(a, b) == s * s) by (nonlinear_arith)
        requires
            aligned(a, b),
            s == span(a, b),
    ;
    assert(d == s) by (nonlinear_arith)
        requires
            0 <= d,
            0 <= s,
            d * d <= s * s < (d + 1) * (d + 1),
    ;
}

/// A walk is no shorter than any of its beginnings.
pub proof fn lemma_legs_length_grows(from: Pos, path: Seq<Pos>, i: int, j: int)
    requires
        0 <= i <= j <= path.len(),
    ensures
        0 <= legs_length(from, path.take(i)) <= legs_length(from, path.take(j)),
    decreases j - i, j,
{
    if i < j {
        lemma_legs_length_grows(from, path, i, j - 1);
        assert(path.take(j).drop_last() =~= path.take(j - 1));
    } else if i > 0 {
        lemma_legs_length_grows(from, path, i - 1, j - 1);
        assert(path.take(j).drop_last() =~= path.take(j - 1));
    }
}

/// The length of a walk in two parts is the sum of the lengths of the
/// parts.
pub proof fn lemma_legs_length_concat(from: Pos, first: Seq<Pos>, second: Seq<Pos>)
    ensures
        legs_length(from, first + second) == legs_length(from, first) + legs_length(
            waypoint(from, first, first.len() as int),
            second,
        ),
    decreases second.len(),
{
    let whole = first + second;
    let middle = waypoint(from, first, first.len() as int);
    if second.len() == 0 {
        assert(whole =~= first);
    } else {
        assert(whole.drop_last() =~= first + second.drop_last());
        lemma_legs_length_concat(from, first, second.drop_last());
        assert(waypoint(from, whole, whole.len() - 1) == waypoint(
            middle,
            second,
            second.len() - 1,
        ));
    }
}

/// A point on a leg lies on the line of the leg and splits its length.
pub proof fn lemma_toward(a: Pos, b: Pos, t: int)
    requires
        aligned(a, b),
        0 <= t <= span(a, b),
    ensures
        aligned(a, toward(a, b, t)),
        aligned(toward(a, b, t), b),
        span(a, toward(a, b, t)) == t,
        span(toward(a, b, t), b) == span(a, b) - t,
        t == span(a, b) ==> toward(a, b, t) == b,
        t == 0 ==> toward(a, b, t) == a,
{
}

/// The steps that a walker covers in `ticks` ticks at `speed` steps a tick.
pub fn steps_within(speed: u64, ticks: u64) -> (steps: u128)
    ensures
        steps == speed * ticks,
{
    assert(speed * ticks <= 0xffff_ffff_ffff_ffff * 0xffff_ffff_ffff_ffff) by (nonlinear_arith)
        requires
            0 <= speed <= 0xffff_ffff_ffff_ffff,
            0 <= ticks <= 0xffff_ffff_ffff_ffff,
    ;
    speed as u128 * ticks as u128
}

/// The whole ticks in which a walker covers `steps` steps at `speed` steps a
/// tick, where that is at most `limit`.
fn whole_ticks(steps: u128, speed: u64, Ghost(limit): Ghost<u64>) -> (ticks: u64)
    requires
        1 <= speed <= 3,
        steps <= speed * limit,
    ensures
        ticks == steps as int / speed as int,
{
    let s = speed as u128;
    let ticks = steps / s;
    assert(ticks <= limit) by (nonlinear_arith)
        requires
            ticks == steps as int / s as int,
            steps <= s * limit,
            1 <= s,
    ;
    ticks as u64
}

/// The length in steps of the leg from `a` to `b`.
pub fn leg_length(a: Pos, b: Pos) -> (steps: u64)
    requires
        aligned(a, b),
    ensures
        steps == span(a, b),
        steps <= 0xffff_ffff,
{
    let steps = a.distance(b);
    proof {
        lemma_distance_on_line(a, b, steps as int);
    }
    steps
}

/// The time that `troop` needs to walk `path` from its first waypoint to
/// its last: the length of the path over the speed of the troop.
pub fn get_total_completion_time_to_travel(path: &Vec<Pos>, troop: &Troop) -> (time: Fraction)
    requires
        path@.len() > 0 ==> legs_aligned(path@[0], path@),
    ensures
        path@.len() == 0 ==> time.num == 0,
        path@.len() > 0 ==> time.num == legs_length(path@[0], path@),
        time.den == troop.tpe.tick_steps(),
        time.num <= 0xffff_ffff_ffff_ffff_ffff_ffff,
{
    let speed = troop.tpe.steps_per_tick() as u128;
    if path.len() == 0 {
        return Fraction { num: 0, den: speed };
    }
    let mut current_pos = path[0];
    let mut total_distance: u128 = 0;
    let mut i: usize = 0;
    while i < path.len()
        invariant
            path@.len() > 0,
            legs_aligned(path@[0], path@),
            i <= path@.len(),
            current_pos == waypoint(path@[0], path@, i as int),
            total_distance == legs_length(path@[0], path@.take(i as int)),
            total_distance <= i * 0x1_0000_0000,
        decreases path@.len() - i,
    {
        let pos = path[i];
        assert(leg_aligned(path@[0], path@, i as int));
        let distance_traveled = leg_length(current_pos, pos);
        proof {
            assert(path@.take(i + 1).drop_last() =~= path@.take(i as int));
        }
        total_distance += distance_traveled as u128;
        current_pos = pos;
        i += 1;
    }
    assert(path@.take(path@.len() as int) =~= path@);
    assert(i * 0x1_0000_0000 <= 0xffff_ffff_ffff_ffff * 0x1_0000_0000) by (nonlinear_arith)
        requires
            i <= 0xffff_ffff_ffff_ffff,
    ;
    Fraction { num: total_distance, den: speed }
}

/// Walks `troop` along `path` for `time_limit` ticks and says where it
/// stops, how many waypoints it has passed and how many whole ticks it has
/// left at the end of the path.
pub fn follow_path_within_time(path: &Vec<Pos>, troop: &Troop, time_limit: u64) -> (stop: (
    Pos,
    usize,
    u64,
))
    requires
        legs_aligned(troop.pos, path@),
    ensures
        is_stop(troop.pos, path@, troop.tpe.tick_steps() * time_limit, stop.0, stop.1 as int),
        stop.2 == if stop.1 < path@.len() {
            0
        } else {
            (troop.tpe.tick_steps() * time_limit - legs_length(troop.pos, path@))
                / troop.tpe.tick_steps()
        },
{
    let speed = troop.tpe.steps_per_tick();
    let mut remaining_distance: u128 = steps_within(speed, time_limit);
    let ghost budget = remaining_distance as int;
    let mut current_pos = troop.pos;
    let mut current_pos_idx: usize = 0;

    while current_pos_idx < path.len()
        invariant
            legs_aligned(troop.pos, path@),
            current_pos_idx <= path@.len(),
            current_pos == waypoint(troop.pos, path@, current_pos_idx as int),
            remaining_distance == budget - legs_length(
                troop.pos,
                path@.take(current_pos_idx as int),
            ),
            budget == troop.tpe.tick_steps() * time_limit,
            speed == troop.tpe.tick_steps(),
            0 <= legs_length(troop.pos, path@.take(current_pos_idx as int)) <= budget,
        decreases path@.len() - current_pos_idx,
    {
        let pos = path[current_pos_idx];
        assert(leg_aligned(troop.pos, path@, current_pos_idx as int));
        let distance_traveled = leg_length(current_pos, pos);
        proof {
            assert(path@.take(current_pos_idx + 1).drop_last() =~= path@.take(
                current_pos_idx as int,
            ));
        }
        if distance_traveled as u128 > remaining_distance {
            // the budget ends on this leg
            let walked: i64 = remaining_distance as i64;
            proof {
                lemma_toward(current_pos, pos, walked as int);
            }
            let x: i64 = if pos.x > current_pos.x {
                current_pos.x as i64 + walked
            } else if pos.x < current_pos.x {
                current_pos.x as i64 - walked
            } else {
                current_pos.x as i64
            };
            let y: i64 = if pos.y > current_pos.y {
                current_pos.y as i64 + walked
            } else if pos.y < current_pos.y {
                current_pos.y as i64 - walked
            } else {
                current_pos.y as i64
            };
            let final_position = Pos { x: x as i32, y: y as i32 };
            assert(final_position == toward(current_pos, pos, walked as int));
            return (final_position, current_pos_idx, 0);
        }
        remaining_distance -= distance_traveled as u128;
        current_pos = pos;
        current_pos_idx += 1;
    }

    proof {
        assert(path@.take(path@.len() as int) =~= path@);
    }
    (current_pos, current_pos_idx, whole_ticks(remaining_distance, speed, Ghost(time_limit)))
}

/// A walk to a single waypoint is as long as its one leg.
pub proof fn lemma_legs_length_single(from: Pos, to: Pos)
    ensures
        legs_length(from, seq![to]) == span(from, to),
{
    reveal_with_fuel(legs_length, 2);
    assert(seq![to].drop_last() =~= Seq::<Pos>::empty());
}

/// The length of a walk is the length of its first leg and of the walk from
/// the first waypoint along the rest.
pub proof fn lemma_legs_length_front(from: Pos, path: Seq<Pos>)
    requires
        path.len() > 0,
    ensures
        legs_length(from, path) == span(from, path[0]) + legs_length(path[0], path.skip(1)),
{
    let first = seq![path[0]];
    lemma_legs_length_single(from, path[0]);
    assert(first + path.skip(1) =~= path);
    lemma_legs_length_concat(from, first, path.skip(1));
}

/// The way walked by a walker that stops on a leg is as long as its budget
/// and runs along the lines of the grid.
pub proof fn lemma_walked_on_leg(from: Pos, path: Seq<Pos>, budget: int, pos: Pos, idx: int)
    requires
        legs_aligned(from, path),
        is_stop(from, path, budget, pos, idx),
        idx < path.len(),
    ensures
        legs_aligned(from, path.take(idx).push(pos)),
        legs_length(from, path.take(idx).push(pos)) == budget,
        aligned(pos, path[idx]),
        span(pos, path[idx]) == legs_length(from, path.take(idx + 1)) - budget,
{
    let before = waypoint(from, path, idx);
    let spent = legs_length(from, path.take(idx));
    let walked = path.take(idx).push(pos);
    assert(leg_aligned(from, path, idx));
    assert(path.take(idx + 1).drop_last() =~= path.take(idx));
    assert(waypoint(from, path.take(idx + 1), idx) == before);
    assert(legs_length(from, path.take(idx + 1)) == spent + span(before, path[idx]));
    lemma_legs_length_grows(from, path, 0, idx);
    lemma_toward(before, path[idx], budget - spent);
    assert(walked.drop_last() =~= path.take(idx));
    assert(waypoint(from, walked, idx) == before);
    assert(legs_length(from, walked) == spent + span(before, pos));
    assert forall|i: int| 0 <= i < walked.len() implies #[trigger] leg_aligned(from, walked, i) by {
        if i < idx {
            assert(leg_aligned(from, path, i));
        }
    }
}

/// What is left of the path of a walker that stops on a leg is shorter than
/// the path by the budget and runs along the lines of the grid.
pub proof fn lemma_rest_on_leg(from: Pos, path: Seq<Pos>, budget: int, pos: Pos, idx: int)
    requires
        legs_aligned(from, path),
        is_stop(from, path, budget, pos, idx),
        idx < path.len(),
    ensures
        legs_aligned(pos, seq![pos] + path.skip(idx)),
        legs_length(pos, seq![pos] + path.skip(idx)) == legs_length(from, path) - budget,
        0 <= budget < legs_length(from, path),
{
    let rest = seq![pos] + path.skip(idx);
    let tail = path.skip(idx);
    lemma_walked_on_leg(from, path, budget, pos, idx);
    assert forall|i: int| 0 <= i < rest.len() implies #[trigger] leg_aligned(pos, rest, i) by {
        if i >= 2 {
            assert(leg_aligned(from, path, idx + i - 1));
        }
    }
    // the length of the whole path, cut after the leg of the stop
    assert(path.take(idx + 1) + path.skip(idx + 1) =~= path);
    lemma_legs_length_concat(from, path.take(idx + 1), path.skip(idx + 1));
    assert(waypoint(from, path.take(idx + 1), idx + 1) == path[idx]);
    // the length of what is left, cut at the same waypoint
    lemma_legs_length_single(pos, pos);
    lemma_legs_length_concat(pos, seq![pos], tail);
    lemma_legs_length_front(pos, tail);
    assert(tail.skip(1) =~= path.skip(idx + 1));
    lemma_legs_length_grows(from, path, 0, idx);
    lemma_legs_length_grows(from, path, idx + 1, path.len() as int);
    assert(path.take(path.len() as int) =~= path);
}

/// A walk of no length stays where it starts.
pub proof fn lemma_legs_length_zero(from: Pos, path: Seq<Pos>)
    requires
        legs_length(from, path) == 0,
    ensures
        forall|i: int| 0 <= i < path.len() ==> #[trigger] path[i] == from,
    decreases path.len(),
{
    if path.len() > 0 {
        lemma_legs_length_grows(from, path, 0, path.len() - 1);
        assert(path.take(path.len() - 1) =~= path.drop_last());
        lemma_legs_length_zero(from, path.drop_last());
        assert forall|i: int| 0 <= i < path.len() implies #[trigger] path[i] == from by {
            if i < path.len() - 1 {
                assert(path.drop_last()[i] == from);
            }
        }
    }
}

/// A walker whose budget is the length of its path stops at the last
/// waypoint, having passed them all, with nothing left to walk.
pub proof fn law_movement_exactness(from: Pos, path: Seq<Pos>, speed: int, ticks: int, pos: Pos, idx: int)
    requires
        path.len() > 0,
        speed > 0,
        legs_aligned(from, path),
        legs_length(from, path) == speed * ticks,
        is_stop(from, path, speed * ticks, pos, idx),
    ensures
        idx == path.len(),
        pos == path.last(),
        speed * ticks - legs_length(from, path) == 0,
        ticks_to_cover(legs_length(pos, seq![pos]), speed) == 0,
{
    if idx < path.len() {
        lemma_legs_length_grows(from, path, idx + 1, path.len() as int);
        assert(path.take(path.len() as int) =~= path);
    }
    lemma_legs_length_single(pos, pos);
    assert((0 + speed - 1) / speed == 0) by (nonlinear_arith)
        requires
            speed > 0,
    ;
}

/// A copy of the waypoints `from..to` of `path`.
fn copy_waypoints(path: &Vec<Pos>, from: usize, to: usize) -> (copy: Vec<Pos>)
    requires
        from <= to <= path@.len(),
    ensures
        copy@ == path@.subrange(from as int, to as int),
{
    let mut copy: Vec<Pos> = Vec::new();
    let mut i: usize = from;
    while i < to
        invariant
            from <= i <= to <= path@.len(),
            copy@ == path@.subrange(from as int, i as int),
        decreases to - i,
    {
        copy.push(path[i]);
        i += 1;
        assert(copy@ =~= path@.subrange(from as int, i as int));
    }
    copy
}

/// Moves `troop` along the path of `action` for `completion_time` ticks and
/// gives the way it has walked.
///
/// If the steps of the troop cover the path, the troop comes to stand on the
/// last waypoint, the way walked is the whole path, and the path of the
/// action shrinks to that waypoint. Otherwise the troop stops on a leg, the
/// way walked ends there, and the path of the action starts there.
pub fn complete_move_action(
    action: &mut MoveToBuildingAction,
    troop: &mut Troop,
    completion_time: u64,
) -> (walked: Vec<Pos>)
    requires
        old(action).path@.len() > 0,
        legs_aligned(old(troop).pos, old(action).path@),
    ensures
        final(troop).tpe == old(troop).tpe,
        final(action).target == old(action).target,
        is_advance(
            old(troop).pos,
            old(action).path@,
            old(troop).tpe.tick_steps() * completion_time,
            final(troop).pos,
            walked@,
            final(action).path@,
        ),
        final(action).path@.len() > 0,
        final(action).path@[0] == final(troop).pos,
        legs_aligned(final(troop).pos, final(action).path@),
        legs_aligned(old(troop).pos, walked@),
        legs_length(final(troop).pos, final(action).path@) == if old(troop).tpe.tick_steps()
            * completion_time >= legs_length(old(troop).pos, old(action).path@) {
            0
        } else {
            legs_length(old(troop).pos, old(action).path@) - old(troop).tpe.tick_steps()
                * completion_time
        },
        legs_length(old(troop).pos, walked@) == if old(troop).tpe.tick_steps() * completion_time
            >= legs_length(old(troop).pos, old(action).path@) {
            legs_length(old(troop).pos, old(action).path@)
        } else {
            old(troop).tpe.tick_steps() * completion_time
        },
        (final(troop).pos == old(action).path@.last() && final(action).path@.len() == 1)
            <==> old(troop).tpe.tick_steps() * completion_time >= legs_length(
            old(troop).pos,
            old(action).path@,
        ),
{
    let ghost from = troop.pos;
    let ghost path = action.path@;
    let ghost budget = troop.tpe.tick_steps() * completion_time;
    let (troop_new_pos, idx, _) = follow_path_within_time(&action.path, troop, completion_time);
    troop.pos = troop_new_pos;

    if idx == action.path.len() {
        // the steps cover the path
        let walked = copy_waypoints(&action.path, 0, idx);
        let mut new_path: Vec<Pos> = Vec::new();
        new_path.push(troop_new_pos);
        action.path = new_path;
        proof {
            assert(walked@ =~= path);
            assert(path.take(idx as int) =~= path);
            assert(action.path@ =~= seq![troop_new_pos]);
            lemma_legs_length_single(troop_new_pos, troop_new_pos);
            assert(leg_aligned(troop_new_pos, action.path@, 0));
            assert(is_stop(from, path, budget, troop_new_pos, idx as int));
            assert(walked@ == path);
            assert(action.path@ == seq![troop.pos]);
            assert(idx as int == path.len());
        }
        return walked;
    }
    // the troop stops on a leg: the path starts there from now on

    let mut path_walked = copy_waypoints(&action.path, 0, idx);
    path_walked.push(troop_new_pos);

    let rest = copy_waypoints(&action.path, idx, action.path.len());
    let mut new_path: Vec<Pos> = Vec::new();
    new_path.push(troop_new_pos);
    let mut i: usize = 0;
    while i < rest.len()
        invariant
            i <= rest@.len(),
            new_path@ == seq![troop_new_pos] + rest@.take(i as int),
        decreases rest@.len() - i,
    {
        new_path.push(rest[i]);
        i += 1;
        assert(new_path@ =~= seq![troop_new_pos] + rest@.take(i as int));
    }
    action.path = new_path;
    proof {
        assert(rest@.take(rest@.len() as int) =~= rest@);
        assert(rest@ =~= path.skip(idx as int));
        assert(path_walked@ =~= path.take(idx as int).push(troop_new_pos));
        lemma_walked_on_leg(from, path, budget, troop_new_pos, idx as int);
        lemma_rest_on_leg(from, path, budget, troop_new_pos, idx as int);
        assert(action.path@ =~= seq![troop_new_pos] + path.skip(idx as int));
        assert(action.path@.len() >= 2);
        assert(is_stop(from, path, budget, troop_new_pos, idx as int));
        assert(path_walked@ == path.take(idx as int).push(troop.pos));
        assert(action.path@ == seq![troop.pos] + path.skip(idx as int));
        assert(idx as int != path.len());
    }
    path_walked
}

} // verus!
