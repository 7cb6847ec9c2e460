//! Robots that move in straight lines on a floor that wraps around at its
//! edges.

use crate::arith::{fits, lemma_negative_remainder, one_if};
use vstd::arithmetic::overflow::CheckedU64;
use vstd::prelude::*;

verus! {

/// A robot: where it stands and how far it moves with every step, each as
/// x and y.
#[derive(Clone, Copy, Debug)]
pub struct State {
    pub pos: [i64; 2],
    pub vel: [i64; 2],
}

/// The remainder of `x` on division by `v` that is not negative.
fn wide_mod(x: i128, v: i64) -> (r: i64)
    requires
        v > 0,
        x > -0x8000_0000_0000_0000_0000_0000_0000_0000,
    ensures
        r == (x as int) % (v as int),
        0 <= r < v,
{
    if x >= 0 {
        ((x as u128) % (v as u128)) as i64
    } else {
        let a: u128 = (-x) as u128;
        let n: u128 = a % (v as u128);
        proof {
            lemma_negative_remainder(a as int, v as int);
        }
        if n == 0 {
            0
        } else {
            v - n as i64
        }
    }
}

/// The remainder of `x` on division by `v` that is not negative.
pub fn i64_mod(x: i64, v: i64) -> (r: i64)
    requires
        v > 0,
    ensures
        r == x % v,
        0 <= r < v,
{
    wide_mod(x as i128, v)
}

/// Where the robot stands after `steps` steps on a floor that is `width`
/// wide and `height` high.
pub open spec fn place(robot: State, steps: int, width: int, height: int) -> (int, int) {
    ((robot.pos[0] + steps * robot.vel[0]) % width, (robot.pos[1] + steps * robot.vel[1]) % height)
}

/// The place of a robot after `steps` steps.
pub fn place_after(robot: &State, steps: i64, width: i64, height: i64) -> (at: (i64, i64))
    requires
        width > 0,
        height > 0,
    ensures
        (at.0 as int, at.1 as int) == place(*robot, steps as int, width as int, height as int),
        0 <= at.0 < width,
        0 <= at.1 < height,
{
    let sx = steps as i128;
    let vx = robot.vel[0] as i128;
    let vy = robot.vel[1] as i128;
    assert(-0x4000_0000_0000_0000_0000_0000_0000_0000 <= sx * vx
        <= 0x4000_0000_0000_0000_0000_0000_0000_0000) by (nonlinear_arith)
        requires
            -0x8000_0000_0000_0000 <= sx <= 0x8000_0000_0000_0000,
            -0x8000_0000_0000_0000 <= vx <= 0x8000_0000_0000_0000,
    ;
    assert(-0x4000_0000_0000_0000_0000_0000_0000_0000 <= sx * vy
        <= 0x4000_0000_0000_0000_0000_0000_0000_0000) by (nonlinear_arith)
        requires
            -0x8000_0000_0000_0000 <= sx <= 0x8000_0000_0000_0000,
            -0x8000_0000_0000_0000 <= vy <= 0x8000_0000_0000_0000,
    ;
    let x = wide_mod(robot.pos[0] as i128 + sx * vx, width);
    let y = wide_mod(robot.pos[1] as i128 + sx * vy, height);
    (x, y)
}

/// The place lies in the quarter of the floor with the given number: 0 and
/// 1 left of the middle column, 2 and 3 right of it; 0 and 2 above the
/// middle row, 1 and 3 below it. The middle column and the middle row
/// belong to no quarter.
pub open spec fn in_quarter(at: (int, int), width: int, height: int, quarter: int) -> bool {
    let left = at.0 < width / 2;
    let right = at.0 > width / 2;
    let top = at.1 < height / 2;
    let bottom = at.1 > height / 2;
    if quarter == 0 {
        left && top
    } else if quarter == 1 {
        left && bottom
    } else if quarter == 2 {
        right && top
    } else {
        right && bottom
    }
}

/// The number of the first `upto` robots that stand in the quarter after
/// `steps` steps.
pub open spec fn quarter_count(
    robots: Seq<State>,
    steps: int,
    width: int,
    height: int,
    quarter: int,
    upto: int,
) -> int
    decreases upto,
{
    if upto <= 0 {
        0
    } else {
        quarter_count(robots, steps, width, height, quarter, upto - 1) + one_if(
            in_quarter(place(robots[upto - 1], steps, width, height), width, height, quarter),
        )
    }
}

/// The product of the numbers of robots in the four quarters of the floor
/// after `steps` steps; `None` where it does not fit in 64 bits.
pub fn part1(robots: &Vec<State>, steps: i64, x_width: i64, y_width: i64) -> (factor: Option<u64>)
    requires
        x_width > 0,
        y_width > 0,
    ensures
        ({
            let n = robots.len() as int;
            let w = x_width as int;
            let h = y_width as int;
            fits(
                factor,
                quarter_count(robots@, steps as int, w, h, 0, n) * quarter_count(
                    robots@,
                    steps as int,
                    w,
                    h,
                    1,
                    n,
                ) * quarter_count(robots@, steps as int, w, h, 2, n) * quarter_count(
                    robots@,
                    steps as int,
                    w,
                    h,
                    3,
                    n,
                ),
            )
        }),
{
    let mut counts: [u64; 4] = [0, 0, 0, 0];
    let mut i: usize = 0;
    while i < robots.len()
        invariant
            i <= robots.len(),
            x_width > 0,
            y_width > 0,
            forall|q: int|
                0 <= q < 4 ==> 0 <= #[trigger] counts[q] <= i && counts[q] == quarter_count(
                    robots@,
                    steps as int,
                    x_width as int,
                    y_width as int,
                    q,
                    i as int,
                ),
        decreases robots.len() - i,
    {
        let at = place_after(&robots[i], steps, x_width, y_width);
        let left = at.0 < x_width / 2;
        let right = at.0 > x_width / 2;
        let top = at.1 < y_width / 2;
        let bottom = at.1 > y_width / 2;
        let ghost before = counts;
        if left && top {
            counts[0] = counts[0] + 1;
        } else if left && bottom {
            counts[1] = counts[1] + 1;
        } else if right && top {
            counts[2] = counts[2] + 1;
        } else if right && bottom {
            counts[3] = counts[3] + 1;
        }
        assert forall|q: int| 0 <= q < 4 implies 0 <= #[trigger] counts[q] <= i + 1 && counts[q]
            == quarter_count(robots@, steps as int, x_width as int, y_width as int, q, i + 1) by {
            assert(before[q] == quarter_count(
                robots@,
                steps as int,
                x_width as int,
                y_width as int,
                q,
                i as int,
            ));
        }
        i += 1;
    }
    let product = CheckedU64::new(counts[0]).mul_value(counts[1]).mul_value(counts[2]).mul_value(
        counts[3],
    );
    product.to_option()
}

/// After `steps` steps no two of the robots stand on the same place.
pub open spec fn all_apart(robots: Seq<State>, steps: int, width: int, height: int) -> bool {
    forall|i: int, j: int|
        0 <= i < j < robots.len() ==> place(#[trigger] robots[i], steps, width, height) != place(
            #[trigger] robots[j],
            steps,
            width,
            height,
        )
}

fn apart_at(robots: &Vec<State>, steps: i64, width: i64, height: i64) -> (apart: bool)
    requires
        width > 0,
        height > 0,
    ensures
        apart == all_apart(robots@, steps as int, width as int, height as int),
{
    let mut places: Vec<(i64, i64)> = Vec::new();
    let mut i: usize = 0;
    while i < robots.len()
        invariant
            i <= robots.len(),
            width > 0,
            height > 0,
            places.len() == i,
            forall|k: int|
                0 <= k < i ==> (places[k].0 as int, places[k].1 as int) == place(
                    #[trigger] robots[k],
                    steps as int,
                    width as int,
                    height as int,
                ),
            forall|a: int, b: int|
                0 <= a < b < i ==> place(
                    #[trigger] robots[a],
                    steps as int,
                    width as int,
                    height as int,
                ) != place(#[trigger] robots[b], steps as int, width as int, height as int),
        decreases robots.len() - i,
    {
        let at = place_after(&robots[i], steps, width, height);
        let mut k: usize = 0;
        while k < i
            invariant
                k <= i,
                i < robots.len(),
                places.len() == i,
                (at.0 as int, at.1 as int) == place(
                    robots[i as int],
                    steps as int,
                    width as int,
                    height as int,
                ),
                forall|j: int|
                    0 <= j < i ==> (places[j].0 as int, places[j].1 as int) == place(
                        #[trigger] robots[j],
                        steps as int,
                        width as int,
                        height as int,
                    ),
                forall|j: int|
                    0 <= j < k ==> place(
                        #[trigger] robots[j],
                        steps as int,
                        width as int,
                        height as int,
                    ) != (at.0 as int, at.1 as int),
            decreases i - k,
        {
            if places[k].0 == at.0 && places[k].1 == at.1 {
                assert(place(robots[k as int], steps as int, width as int, height as int) == place(
                    robots[i as int],
                    steps as int,
                    width as int,
                    height as int,
                ));
                return false;
            }
            k += 1;
        }
        places.push(at);
        i += 1;
    }
    true
}

/// The smallest number of steps below `limit` after which no two robots
/// stand on the same place, if there is one.
pub fn part2(robots: &Vec<State>, x_width: i64, y_width: i64, limit: i64) -> (steps: Option<i64>)
    requires
        x_width > 0,
        y_width > 0,
    ensures
        match steps {
            Some(s) => 0 <= s < limit && all_apart(robots@, s as int, x_width as int, y_width as int)
                && forall|t: int|
                0 <= t < s ==> !#[trigger] all_apart(robots@, t, x_width as int, y_width as int),
            None => forall|t: int|
                0 <= t < limit ==> !#[trigger] all_apart(robots@, t, x_width as int, y_width as int),
        },
{
    let mut s: i64 = 0;
    while s < limit
        invariant
            0 <= s,
            x_width > 0,
            y_width > 0,
            forall|t: int|
                0 <= t < s ==> !#[trigger] all_apart(robots@, t, x_width as int, y_width as int),
        decreases limit - s,
    {
        if apart_at(robots, s, x_width, y_width) {
            return Some(s);
        }
        s += 1;
    }
    None
}

} // verus!
