use vstd::prelude::*;

verus! {

/// No point is placed above this level.
pub const MAX_LEVEL: usize = 32;

/// Draws 32 random bits with `rand::random`, from the generator that the
/// `rand` crate keeps for each thread. Nothing is claimed of the value drawn:
/// two calls may or may not agree. The generator is seeded, and from time to
/// time seeded anew, from the operating system, and panics if the operating
/// system gives it no randomness.
#[verifier::external_body]
fn random_draw() -> (draw: u32) {
    rand::random::<u32>()
}

/// A draw of 32 bits stands for the number `draw / 2^32` in `[0, 1)`. It
/// lets a point climb one level when that number is below `1 / m`. With `m`
/// zero or one every draw climbs.
pub open spec fn climbs(m: nat, draw: u32) -> bool {
    draw * m < 0x1_0000_0000
}

/// How many draws at the head of a sequence let a point climb.
pub open spec fn leading_climbs(m: nat, draws: Seq<u32>) -> nat
    decreases draws.len(),
{
    if draws.len() == 0 || !climbs(m, draws.first()) {
        0
    } else {
        1 + leading_climbs(m, draws.drop_first())
    }
}

/// The level that a sequence of draws gives: one for each draw that climbs,
/// up to the first that does not, and never above `MAX_LEVEL`.
pub open spec fn level_of(m: nat, draws: Seq<u32>) -> nat {
    if leading_climbs(m, draws) < MAX_LEVEL {
        leading_climbs(m, draws)
    } else {
        MAX_LEVEL as nat
    }
}

/// Tells whether a draw lets a point climb one level.
pub fn draw_climbs(m: usize, draw: u32) -> (up: bool)
    ensures
        up == climbs(m as nat, draw),
{
    let wide_m: u128 = m as u128;
    let wide_draw: u128 = draw as u128;
    assert(wide_draw * wide_m <= 0xffff_ffff * 0xffff_ffff_ffff_ffff) by (nonlinear_arith)
        requires
            0 <= wide_draw <= 0xffff_ffff,
            0 <= wide_m <= 0xffff_ffff_ffff_ffff,
    ;
    wide_draw * wide_m < 0x1_0000_0000
}

/// While the first `n` draws all climb, the count of leading climbs is `n`
/// more than that of the rest.
proof fn lemma_leading_prefix(m: nat, draws: Seq<u32>, n: nat)
    requires
        n <= draws.len(),
        forall|i: int| 0 <= i < n ==> climbs(m, draws[i]),
    ensures
        leading_climbs(m, draws) == n + leading_climbs(m, draws.skip(n as int)),
    decreases n,
{
    if n == 0 {
        assert(draws.skip(0) =~= draws);
    } else {
        let rest = draws.drop_first();
        assert forall|i: int| 0 <= i < n - 1 implies climbs(m, rest[i]) by {
            assert(rest[i] == draws[i + 1]);
        }
        lemma_leading_prefix(m, rest, (n - 1) as nat);
        assert(rest.skip(n - 1) =~= draws.skip(n as int));
    }
}

/// Computes the level that a given sequence of draws gives.
pub fn level_from_draws(m: usize, draws: &Vec<u32>) -> (level: usize)
    ensures
        level == level_of(m as nat, draws@),
        level <= MAX_LEVEL,
{
    let mut level: usize = 0;
    while level < MAX_LEVEL && level < draws.len() && draw_climbs(m, draws[level])
        invariant
            level <= MAX_LEVEL,
            level <= draws.len(),
            forall|i: int| 0 <= i < level ==> climbs(m as nat, draws[i]),
        decreases MAX_LEVEL - level,
    {
        level += 1;
    }
    proof {
        lemma_leading_prefix(m as nat, draws@, level as nat);
        let rest = draws@.skip(level as int);
        if level < draws.len() {
            assert(rest.first() == draws[level as int]);
        }
    }
    level
}

/// Draws a level for a new point: the level that `MAX_LEVEL` random draws
/// give. Draws behind the first that does not climb are not made.
pub fn sample_level(m: usize) -> (level: usize)
    ensures
        level <= MAX_LEVEL,
        exists|draws: Seq<u32>|
            draws.len() == MAX_LEVEL && level == #[trigger] level_of(m as nat, draws),
{
    let mut level: usize = 0;
    let mut climbing = true;
    let ghost mut seen: Seq<u32> = Seq::empty();
    while climbing && level < MAX_LEVEL
        invariant
            level <= MAX_LEVEL,
            climbing ==> seen.len() == level,
            !climbing ==> level < MAX_LEVEL && seen.len() == level + 1 && !climbs(
                m as nat,
                seen[level as int],
            ),
            forall|i: int| 0 <= i < level ==> climbs(m as nat, seen[i]),
        decreases MAX_LEVEL - level + if climbing { 1int } else { 0int },
    {
        let draw = random_draw();
        proof {
            seen = seen.push(draw);
        }
        if draw_climbs(m, draw) {
            level += 1;
        } else {
            climbing = false;
        }
    }
    proof {
        let drawn = seen + Seq::new((MAX_LEVEL - seen.len()) as nat, |i: int| 0u32);
        assert(drawn.len() == MAX_LEVEL);
        assert forall|i: int| 0 <= i < level implies climbs(m as nat, drawn[i]) by {
            assert(drawn[i] == seen[i]);
        }
        lemma_leading_prefix(m as nat, drawn, level as nat);
        let rest = drawn.skip(level as int);
        if level < MAX_LEVEL {
            assert(rest.first() == seen[level as int]);
        } else {
            assert(rest.len() == 0);
        }
        assert(level == level_of(m as nat, drawn));
    }
    level
}

} // verus!
