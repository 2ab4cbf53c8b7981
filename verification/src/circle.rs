use vstd::prelude::*;

verus! {

/// The circle method for a round-robin of `m` entrants (`m` even): entrant 0
/// stays put and the others turn one place per round. In round `round` the
/// seat `position` holds entrant `circle_index(m, round, position)`, and
/// seat `i` plays seat `m - 1 - i`.
pub open spec fn circle_index(m: int, round: int, position: int) -> int {
    if position == 0 {
        0
    } else {
        1 + (position - 1 - round) % (m - 1)
    }
}

pub proof fn lemma_circle_index_range(m: int, round: int, position: int)
    requires
        m >= 2,
        0 <= position < m,
    ensures
        0 <= circle_index(m, round, position) < m,
        position >= 1 ==> circle_index(m, round, position) >= 1,
{
    if position >= 1 {
        vstd::arithmetic::div_mod::lemma_mod_bound(position - 1 - round, m - 1);
    }
}

/// One more turn moves the entrant of the last seat to seat 1 and every
/// other entrant but the fixed one a seat further.
pub proof fn lemma_circle_rotate(m: int, round: int, position: int)
    requires
        m >= 2,
        0 <= position < m,
    ensures
        circle_index(m, round + 1, position) == if position == 0 {
            0
        } else if position == 1 {
            circle_index(m, round, m - 1)
        } else {
            circle_index(m, round, position - 1)
        },
{
    if position == 1 {
        vstd::arithmetic::div_mod::lemma_mod_add_multiples_vanish(-1 - round, m - 1);
        assert((m - 1) + (-1 - round) == m - 1 - 1 - round);
    }
}

/// Before the first turn every entrant sits in its own seat.
pub proof fn lemma_circle_start(m: int, position: int)
    requires
        m >= 2,
        0 <= position < m,
    ensures
        circle_index(m, 0, position) == position,
{
    if position >= 1 {
        vstd::arithmetic::div_mod::lemma_small_mod((position - 1) as nat, (m - 1) as nat);
    }
}

/// Game `i` of round `round` pairs entrants `a` and `b`, in either order.
pub open spec fn circle_meets(m: int, round: int, i: int, a: int, b: int) -> bool {
    let home = circle_index(m, round, i);
    let away = circle_index(m, round, m - 1 - i);
    (home == a && away == b) || (home == b && away == a)
}

/// `x` and `y` leave the same remainder modulo `n`.
pub open spec fn congruent(x: int, y: int, n: int) -> bool {
    x % n == y % n
}

proof fn lemma_congruent_shift(x: int, y: int, c: int, n: int)
    requires
        n > 0,
        congruent(x, y, n),
    ensures
        congruent(x + c, y + c, n),
{
    vstd::arithmetic::div_mod::lemma_add_mod_noop(x, c, n);
    vstd::arithmetic::div_mod::lemma_add_mod_noop(y, c, n);
}

proof fn lemma_congruent_mod(x: int, n: int)
    requires
        n > 0,
    ensures
        congruent(x % n, x, n),
{
    vstd::arithmetic::div_mod::lemma_mod_twice(x, n);
}

proof fn lemma_congruent_multiple(x: int, k: int, n: int)
    requires
        n > 0,
    ensures
        congruent(x + k * n, x, n),
{
    vstd::arithmetic::div_mod::lemma_mod_multiples_vanish(k, x, n);
    assert(n * k + x == x + k * n) by (nonlinear_arith);
}

/// Two remainders in `0..n` that are congruent are equal.
proof fn lemma_congruent_small(x: int, y: int, n: int)
    requires
        n > 0,
        0 <= x < n,
        0 <= y < n,
        congruent(x, y, n),
    ensures
        x == y,
{
    vstd::arithmetic::div_mod::lemma_small_mod(x as nat, n as nat);
    vstd::arithmetic::div_mod::lemma_small_mod(y as nat, n as nat);
}

/// Modulo an odd `n`, doubling loses nothing.
proof fn lemma_double_cancels(r1: int, r2: int, n: int)
    requires
        n > 0,
        n % 2 == 1,
        0 <= r1 < n,
        0 <= r2 < n,
        congruent(2 * r1, 2 * r2, n),
    ensures
        r1 == r2,
{
    let d = 2 * r1 - 2 * r2;
    vstd::arithmetic::div_mod::lemma_mod_equivalence(2 * r1, 2 * r2, n);
    assert(d % n == 0);
    vstd::arithmetic::div_mod::lemma_fundamental_div_mod(d, n);
    let q = d / n;
    assert(d == n * q);
    assert(-2 * n < d < 2 * n);
    assert(-2 < q < 2) by (nonlinear_arith)
        requires
            d == n * q,
            -2 * n < d < 2 * n,
            n > 0,
    ;
    if q == 0 {
        assert(d == 0) by (nonlinear_arith)
            requires
                d == n * q,
                q == 0,
        ;
    }
    if q == 1 || q == -1 {
        assert(d % 2 == 0);
        assert(false) by (nonlinear_arith)
            requires
                d == n * q,
                q == 1 || q == -1,
                n % 2 == 1,
                d % 2 == 0,
        ;
    }
}

/// Where entrant `x` (not 0) sits in round `round`.
pub open spec fn seat_of(m: int, round: int, x: int) -> int {
    if x == 0 {
        0
    } else {
        1 + (x - 1 + round) % (m - 1)
    }
}

/// Every entrant has a seat in every round, and only one.
pub proof fn lemma_seat_of(m: int, round: int, x: int, p: int)
    requires
        m >= 2,
        0 <= x < m,
        0 <= p < m,
    ensures
        0 <= seat_of(m, round, x) < m,
        circle_index(m, round, seat_of(m, round, x)) == x,
        circle_index(m, round, p) == x ==> p == seat_of(m, round, x),
{
    let n = m - 1;
    if x > 0 {
        let a = x - 1 + round;
        vstd::arithmetic::div_mod::lemma_mod_bound(a, n);
        lemma_congruent_mod(a, n);
        lemma_congruent_shift(a % n, a, -round, n);
        vstd::arithmetic::div_mod::lemma_small_mod((x - 1) as nat, n as nat);
        assert(circle_index(m, round, seat_of(m, round, x)) == x);
    }
    if circle_index(m, round, p) == x {
        if p > 0 {
            assert(x > 0) by {
                vstd::arithmetic::div_mod::lemma_mod_bound(p - 1 - round, n);
            }
            let b = p - 1 - round;
            // b % n == x - 1, so p - 1 == (x - 1 + round) % n
            lemma_congruent_mod(b, n);
            lemma_congruent_shift(b % n, b, round, n);
            vstd::arithmetic::div_mod::lemma_mod_bound(x - 1 + round, n);
            lemma_congruent_mod(x - 1 + round, n);
            assert(congruent(p - 1, (x - 1 + round) % n, n));
            lemma_congruent_small(p - 1, (x - 1 + round) % n, n);
        } else {
            assert(x == 0);
        }
    }
}

/// The circle method pairs any two different entrants in exactly one game
/// of one round.
pub proof fn lemma_circle_pairs_once(m: int, a: int, b: int)
    requires
        m >= 2,
        m % 2 == 0,
        0 <= a < m,
        0 <= b < m,
        a != b,
    ensures
        exists|round: int, i: int|
            0 <= round < m - 1 && 0 <= i < m / 2 && #[trigger] circle_meets(m, round, i, a, b),
        forall|r1: int, i1: int, r2: int, i2: int|
            0 <= r1 < m - 1 && 0 <= i1 < m / 2 && 0 <= r2 < m - 1 && 0 <= i2 < m / 2
                && #[trigger] circle_meets(m, r1, i1, a, b) && #[trigger] circle_meets(
                m,
                r2,
                i2,
                a,
                b,
            ) ==> r1 == r2 && i1 == i2,
{
    lemma_circle_meets_exists(m, a, b);
    assert forall|r1: int, i1: int, r2: int, i2: int|
        0 <= r1 < m - 1 && 0 <= i1 < m / 2 && 0 <= r2 < m - 1 && 0 <= i2 < m / 2
            && #[trigger] circle_meets(m, r1, i1, a, b) && #[trigger] circle_meets(
            m,
            r2,
            i2,
            a,
            b,
        ) implies r1 == r2 && i1 == i2 by {
        lemma_circle_meets_unique(m, a, b, r1, i1, r2, i2);
    }
}

/// The round in which two entrants other than 0 meet: doubling it gives
/// minus their seat sum.
proof fn lemma_pair_round(m: int, round: int, i: int)
    requires
        m >= 2,
        0 < i < m / 2,
        0 <= round,
    ensures
        congruent(
            (circle_index(m, round, i) - 1) + (circle_index(m, round, m - 1 - i) - 1) + 2 + 2
                * round,
            0,
            m - 1,
        ),
{
    let n = m - 1;
    let u = i - 1 - round;
    let v = m - 2 - i - round;
    lemma_congruent_mod(u, n);
    lemma_congruent_mod(v, n);
    assert(circle_index(m, round, i) - 1 == u % n);
    assert(circle_index(m, round, m - 1 - i) - 1 == v % n);
    vstd::arithmetic::div_mod::lemma_add_mod_noop(u, v, n);
    assert(u + v + 2 + 2 * round == n);
    vstd::arithmetic::div_mod::lemma_mod_self_0(n);
    vstd::arithmetic::div_mod::lemma_add_mod_noop(u % n + v % n, 2 + 2 * round, n);
    vstd::arithmetic::div_mod::lemma_add_mod_noop(u + v, 2 + 2 * round, n);
    assert((u % n + v % n) % n == (u + v) % n);
    vstd::arithmetic::div_mod::lemma_mod_twice(u % n + v % n, n);
    lemma_congruent_shift(u % n + v % n, u + v, 2 + 2 * round, n);
    vstd::arithmetic::div_mod::lemma_small_mod(0, n as nat);
}

proof fn lemma_circle_meets_unique(
    m: int,
    a: int,
    b: int,
    r1: int,
    i1: int,
    r2: int,
    i2: int,
)
    requires
        m >= 2,
        m % 2 == 0,
        0 <= a < m,
        0 <= b < m,
        a != b,
        0 <= r1 < m - 1,
        0 <= i1 < m / 2,
        0 <= r2 < m - 1,
        0 <= i2 < m / 2,
        circle_meets(m, r1, i1, a, b),
        circle_meets(m, r2, i2, a, b),
    ensures
        r1 == r2 && i1 == i2,
{
    let n = m - 1;
    lemma_circle_index_range(m, r1, i1);
    lemma_circle_index_range(m, r1, m - 1 - i1);
    lemma_circle_index_range(m, r2, i2);
    lemma_circle_index_range(m, r2, m - 1 - i2);
    if a == 0 || b == 0 {
        let c = if a == 0 {
            b
        } else {
            a
        };
        // Entrant 0 only sits in seat 0, so both games are game 0, whose
        // other seat holds `1 + (n - 1 - r) % n`.
        assert(i1 == 0 && i2 == 0);
        assert(circle_index(m, r1, m - 1) == c && circle_index(m, r2, m - 1) == c);
        lemma_seat_of(m, r1, c, m - 1);
        lemma_seat_of(m, r2, c, m - 1);
        lemma_congruent_mod(c - 1 + r1, n);
        lemma_congruent_mod(c - 1 + r2, n);
        assert(congruent(c - 1 + r1, c - 1 + r2, n));
        lemma_congruent_shift(c - 1 + r1, c - 1 + r2, 1 - c, n);
        lemma_congruent_small(r1, r2, n);
    } else {
        assert(i1 > 0 && i2 > 0);
        lemma_pair_round(m, r1, i1);
        lemma_pair_round(m, r2, i2);
        // Both rounds satisfy 2 * r == -(a + b) modulo n.
        assert(congruent((a - 1) + (b - 1) + 2 + 2 * r1, 0, n));
        assert(congruent((a - 1) + (b - 1) + 2 + 2 * r2, 0, n));
        lemma_congruent_shift((a - 1) + (b - 1) + 2 + 2 * r1, 0, -(a + b), n);
        lemma_congruent_shift((a - 1) + (b - 1) + 2 + 2 * r2, 0, -(a + b), n);
        assert(congruent(2 * r1, 2 * r2, n));
        assert(n % 2 == 1);
        lemma_double_cancels(r1, r2, n);
        // In one round entrant `a` has one seat.
        lemma_seat_of(m, r1, a, i1);
        lemma_seat_of(m, r1, a, m - 1 - i1);
        lemma_seat_of(m, r1, a, i2);
        lemma_seat_of(m, r1, a, m - 1 - i2);
    }
}

proof fn lemma_circle_meets_exists(m: int, a: int, b: int)
    requires
        m >= 2,
        m % 2 == 0,
        0 <= a < m,
        0 <= b < m,
        a != b,
    ensures
        exists|round: int, i: int|
            0 <= round < m - 1 && 0 <= i < m / 2 && #[trigger] circle_meets(m, round, i, a, b),
{
    let n = m - 1;
    let h = m / 2;
    if a == 0 || b == 0 {
        let c = if a == 0 {
            b
        } else {
            a
        };
        let round = n - c;
        assert(circle_index(m, round, m - 1) == 1 + (c - 1) % n);
        vstd::arithmetic::div_mod::lemma_small_mod((c - 1) as nat, n as nat);
        assert(circle_meets(m, round, 0, a, b));
    } else {
        let x = a - 1;
        let y = b - 1;
        let round = (-(x + y + 2) * h) % n;
        vstd::arithmetic::div_mod::lemma_mod_bound(-(x + y + 2) * h, n);
        // 2 * round == -(x + y + 2) modulo n, as 2 * h == n + 1.
        lemma_congruent_mod(-(x + y + 2) * h, n);
        assert(congruent(2 * round, 2 * (-(x + y + 2) * h), n)) by {
            vstd::arithmetic::div_mod::lemma_mul_mod_noop_right(2, -(x + y + 2) * h, n);
        }
        assert(2 * (-(x + y + 2) * h) == -(x + y + 2) + (-(x + y + 2)) * n) by (nonlinear_arith)
            requires
                2 * h == n + 1,
        ;
        lemma_congruent_multiple(-(x + y + 2), -(x + y + 2), n);
        assert(congruent(2 * round, -(x + y + 2), n));
        let u = (x + round) % n;
        vstd::arithmetic::div_mod::lemma_mod_bound(x + round, n);
        let seat = u + 1;
        assert(circle_index(m, round, seat) == a) by {
            lemma_congruent_mod(x + round, n);
            lemma_congruent_shift(u, x + round, -round, n);
            vstd::arithmetic::div_mod::lemma_small_mod(x as nat, n as nat);
        }
        // The seat across from `seat` holds `b`.
        let other = m - 1 - seat;
        assert(other - 1 - round == n - u - 2 - round);
        lemma_congruent_mod(x + round, n);
        vstd::arithmetic::div_mod::lemma_mod_twice(x + round, n);
        assert(congruent(u, x + round, n));
        lemma_congruent_shift(u, x + round, -(u + x + round), n);
        assert(congruent(-(x + round), -u, n));
        lemma_congruent_shift(-(x + round), -u, n - 2 - round, n);
        assert(congruent(n - x - 2 - 2 * round, other - 1 - round, n));
        lemma_congruent_shift(2 * round, -(x + y + 2), -2 * round + (x + y + 2), n);
        assert(congruent(x + y + 2, -2 * round, n));
        lemma_congruent_shift(x + y + 2, -2 * round, n - x - 2, n);
        assert(congruent(n + y, n - x - 2 - 2 * round, n));
        lemma_congruent_multiple(y, 1, n);
        assert(congruent(y, other - 1 - round, n));
        vstd::arithmetic::div_mod::lemma_small_mod(y as nat, n as nat);
        // `u` is not n - 1, else `a` and `b` would coincide: so the two seats
        // are 1 and above, and differ.
        assert(u != n - 1) by {
            if u == n - 1 {
                assert(congruent(n - 1, x + round, n));
                lemma_congruent_shift(n - 1, x + round, -round - n, n);
                assert(congruent(-1 - round, x - n, n));
                lemma_congruent_multiple(x - n, 1, n);
                assert(congruent(y, -1 - round, n));
                assert(congruent(x, y, n));
                vstd::arithmetic::div_mod::lemma_small_mod(x as nat, n as nat);
            }
        }
        assert(other >= 1);
        assert(circle_index(m, round, other) == b);
        assert(seat != other) by {
            if seat == other {
                assert(2 * seat == n);
                assert(false) by (nonlinear_arith)
                    requires
                        2 * seat == n,
                        n % 2 == 1,
                ;
            }
        }
        if seat < h {
            assert(circle_meets(m, round, seat, a, b));
        } else {
            assert(other < h);
            assert(m - 1 - other == seat);
            assert(circle_meets(m, round, other, a, b));
        }
    }
}

} // verus!
