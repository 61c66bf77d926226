//! The squares that pieces attack.
use crate::bitboard::Bitboard;
use crate::types::Color;
use vstd::arithmetic::div_mod::{lemma_fundamental_div_mod, lemma_mod_multiples_basic};
use vstd::prelude::*;

verus! {

/// The file of a square, from 0 for the a-file.
pub open spec fn file(s: int) -> int {
    s % 8
}

/// The rank of a square, from 0 for the first rank.
pub open spec fn rank(s: int) -> int {
    s / 8
}

pub open spec fn on_board(f: int, r: int) -> bool {
    0 <= f < 8 && 0 <= r < 8
}

pub open spec fn square(f: int, r: int) -> int {
    8 * r + f
}

pub open spec fn distance(a: int, b: int) -> int {
    if a >= b {
        a - b
    } else {
        b - a
    }
}

/// A king attacks the squares next to its own.
pub open spec fn king_hits(s: int, t: int) -> bool {
    &&& 0 <= t < 64
    &&& distance(file(s), file(t)) <= 1
    &&& distance(rank(s), rank(t)) <= 1
    &&& s != t
}

/// A knight attacks the squares two steps away in one direction and one in the other.
pub open spec fn knight_hits(s: int, t: int) -> bool {
    &&& 0 <= t < 64
    &&& {
        ||| distance(file(s), file(t)) == 1 && distance(rank(s), rank(t)) == 2
        ||| distance(file(s), file(t)) == 2 && distance(rank(s), rank(t)) == 1
    }
}

/// A pawn attacks the squares diagonally in front of it.
pub open spec fn pawn_hits(color: Color, s: int, t: int) -> bool {
    &&& 0 <= t < 64
    &&& distance(file(s), file(t)) == 1
    &&& rank(t) == (match color {
        Color::White => rank(s) + 1,
        Color::Black => rank(s) - 1,
    })
}

/// Whether `k` steps from a square in a direction stay on the board and meet no piece before the
/// last of them.
pub open spec fn reaches(occupied: spec_fn(int) -> bool, s: int, df: int, dr: int, k: int) -> bool {
    &&& k >= 1
    &&& on_board(file(s) + k * df, rank(s) + k * dr)
    &&& forall|j: int|
        1 <= j < k ==> !(#[trigger] occupied(square(file(s) + j * df, rank(s) + j * dr)))
}

/// Whether a square can be reached from another in a direction, up to and including the first
/// piece met.
pub open spec fn ray_hits(occupied: spec_fn(int) -> bool, s: int, df: int, dr: int, t: int) -> bool {
    exists|k: int|
        #[trigger] reaches(occupied, s, df, dr, k) && t == square(
            file(s) + k * df,
            rank(s) + k * dr,
        )
}

/// A bishop moves along diagonals.
pub open spec fn bishop_hits(occupied: spec_fn(int) -> bool, s: int, t: int) -> bool {
    ||| ray_hits(occupied, s, 1, 1, t)
    ||| ray_hits(occupied, s, 1, -1, t)
    ||| ray_hits(occupied, s, -1, 1, t)
    ||| ray_hits(occupied, s, -1, -1, t)
}

/// A rook moves along ranks and files.
pub open spec fn rook_hits(occupied: spec_fn(int) -> bool, s: int, t: int) -> bool {
    ||| ray_hits(occupied, s, 1, 0, t)
    ||| ray_hits(occupied, s, -1, 0, t)
    ||| ray_hits(occupied, s, 0, 1, t)
    ||| ray_hits(occupied, s, 0, -1, t)
}

fn apart(a: u8, b: u8) -> (r: u8)
    ensures
        r == distance(a as int, b as int),
{
    if a >= b { a - b } else { b - a }
}

/// The squares that a king attacks.
pub fn king_attacks(s: u8) -> (r: Bitboard)
    requires
        s < 64,
    ensures
        forall|t: int| #[trigger] r.has(t) == king_hits(s as int, t),
{
    let mut r = Bitboard::empty();
    let mut t: u8 = 0;
    while t < 64
        invariant
            s < 64,
            t <= 64,
            forall|u: int| #[trigger] r.has(u) == (u < t && king_hits(s as int, u)),
        decreases 64 - t,
    {
        if apart(s % 8, t % 8) <= 1 && apart(s / 8, t / 8) <= 1 && s != t {
            r = r.with(t);
        }
        t = t + 1;
    }
    r
}

/// The squares that a knight attacks.
pub fn knight_attacks(s: u8) -> (r: Bitboard)
    requires
        s < 64,
    ensures
        forall|t: int| #[trigger] r.has(t) == knight_hits(s as int, t),
{
    let mut r = Bitboard::empty();
    let mut t: u8 = 0;
    while t < 64
        invariant
            s < 64,
            t <= 64,
            forall|u: int| #[trigger] r.has(u) == (u < t && knight_hits(s as int, u)),
        decreases 64 - t,
    {
        let df: u8 = apart(s % 8, t % 8);
        let dr: u8 = apart(s / 8, t / 8);
        if (df == 1 && dr == 2) || (df == 2 && dr == 1) {
            r = r.with(t);
        }
        t = t + 1;
    }
    r
}

/// The squares that a side's pawns would attack from any square of a set.
pub fn pawn_attacks_setwise(pawns: Bitboard, color: Color) -> (r: Bitboard)
    ensures
        forall|t: int|
            #[trigger] r.has(t) == exists|s: int| #[trigger] pawns.has(s) && pawn_hits(color, s, t),
{
    let mut r = Bitboard::empty();
    let mut t: u8 = 0;
    while t < 64
        invariant
            t <= 64,
            forall|u: int|
                #[trigger] r.has(u) == (u < t && exists|s: int|
                    #[trigger] pawns.has(s) && pawn_hits(color, s, u)),
        decreases 64 - t,
    {
        let f: u8 = t % 8;
        let behind: Option<u8> = match color {
            Color::White => if t >= 8 { Some(t - 8) } else { None },
            Color::Black => if t < 56 { Some(t + 8) } else { None },
        };
        let mut hit = false;
        if let Some(b) = behind {
            hit = (f > 0 && pawns.contains(b - 1)) || (f < 7 && pawns.contains(b + 1));
        }
        assert(hit == exists|s: int| #[trigger] pawns.has(s) && pawn_hits(color, s, t as int)) by {
            if hit {
                let b = behind->0 as int;
                if f > 0 && pawns.has(b - 1) {
                    assert(pawn_hits(color, b - 1, t as int));
                } else {
                    assert(pawns.has(b + 1) && pawn_hits(color, b + 1, t as int));
                }
            } else if exists|s: int| #[trigger] pawns.has(s) && pawn_hits(color, s, t as int) {
                let s = choose|s: int| #[trigger] pawns.has(s) && pawn_hits(color, s, t as int);
                let b = behind->0 as int;
                assert(s == b - 1 || s == b + 1);
            }
        }
        if hit {
            r = r.with(t);
        }
        t = t + 1;
    }
    r
}

/// The squares that can be reached from a square in one direction.
fn ray(s: u8, occupied: Bitboard, df: i8, dr: i8) -> (r: Bitboard)
    requires
        s < 64,
        -1 <= df <= 1,
        -1 <= dr <= 1,
        df != 0 || dr != 0,
    ensures
        forall|t: int| #[trigger] r.has(t) == ray_hits(occupied.members(), s as int, df as int, dr as int, t),
{
    let ghost f0 = file(s as int);
    let ghost r0 = rank(s as int);
    let ghost dx = df as int;
    let ghost dy = dr as int;
    let mut r = Bitboard::empty();
    let mut f: i8 = (s % 8) as i8;
    let mut k: i8 = (s / 8) as i8;
    let ghost mut n: int = 0;
    let mut open = true;
    assert(0 * dx == 0 && 0 * dy == 0);
    while open
        invariant
            s < 64,
            -1 <= df <= 1,
            -1 <= dr <= 1,
            df != 0 || dr != 0,
            dx == df,
            dy == dr,
            f0 == file(s as int),
            r0 == rank(s as int),
            0 <= n <= 8,
            f == f0 + n * dx,
            k == r0 + n * dy,
            open ==> on_board(f as int, k as int),
            // Every square passed so far is in the set, and none of them but the last is occupied.
            open ==> forall|j: int|
                1 <= j <= n ==> !(#[trigger] occupied.members()(square(f0 + j * dx, r0 + j * dy))),
            forall|t: int|
                #[trigger] r.has(t) == exists|j: int|
                    #[trigger] reaches(occupied.members(), s as int, dx, dy, j) && j <= n && t == square(
                        f0 + j * dx,
                        r0 + j * dy,
                    ),
            !open ==> forall|j: int| #[trigger] reaches(occupied.members(), s as int, dx, dy, j) ==> j <= n,
        decreases (if open {
            8 - n + 1
        } else {
            0
        }),
    {
        proof {
            lemma_step(f0, r0, dx, dy, n);
        }
        let next_f: i8 = f + df;
        let next_k: i8 = k + dr;
        let ghost before = r;
        if next_f < 0 || next_f > 7 || next_k < 0 || next_k > 7 {
            proof {
                assert forall|j: int| #[trigger] reaches(occupied.members(), s as int, dx, dy, j) implies j
                    <= n by {
                    lemma_off_board(f0, r0, dx, dy, n, j);
                }
            }
            open = false;
        } else {
            let t: u8 = (8 * next_k + next_f) as u8;
            let ghost m = n + 1;
            proof {
                assert(reaches(occupied.members(), s as int, dx, dy, m));
                assert(t == square(f0 + m * dx, r0 + m * dy));
            }
            r = r.with(t);
            if occupied.contains(t) {
                proof {
                    assert forall|j: int| #[trigger] reaches(occupied.members(), s as int, dx, dy, j) implies j
                        <= m by {
                        if j > m {
                            assert(!occupied.members()(square(f0 + m * dx, r0 + m * dy)));
                        }
                    }
                }
                open = false;
            }
            proof {
                assert forall|u: int|
                    #[trigger] r.has(u) == exists|j: int|
                        #[trigger] reaches(occupied.members(), s as int, dx, dy, j) && j <= m && u == square(
                            f0 + j * dx,
                            r0 + j * dy,
                        ) by {
                    assert(before.has(u) == exists|j: int|
                        #[trigger] reaches(occupied.members(), s as int, dx, dy, j) && j <= n && u == square(
                            f0 + j * dx,
                            r0 + j * dy,
                        ));
                }
                lemma_distance(f0, r0, dx, dy, m);
                n = m;
            }
            f = next_f;
            k = next_k;
        }
    }
    proof {
        assert forall|t: int|
            #[trigger] r.has(t) == ray_hits(
                occupied.members(),
                s as int,
                df as int,
                dr as int,
                t,
            ) by {
            if ray_hits(occupied.members(), s as int, dx, dy, t) {
                let j = choose|j: int|
                    #[trigger] reaches(occupied.members(), s as int, dx, dy, j) && t == square(
                        f0 + j * dx,
                        r0 + j * dy,
                    );
                assert(j <= n);
            }
        }
    }
    r
}

proof fn lemma_step(f: int, r: int, df: int, dr: int, n: int)
    ensures
        f + (n + 1) * df == f + n * df + df,
        r + (n + 1) * dr == r + n * dr + dr,
{
    assert((n + 1) * df == n * df + df) by (nonlinear_arith);
    assert((n + 1) * dr == n * dr + dr) by (nonlinear_arith);
}

/// Once a step leaves the board, no later one comes back to it.
proof fn lemma_off_board(f: int, r: int, df: int, dr: int, n: int, j: int)
    requires
        on_board(f, r),
        -1 <= df <= 1,
        -1 <= dr <= 1,
        n >= 0,
        !on_board(f + (n + 1) * df, r + (n + 1) * dr),
        on_board(f + j * df, r + j * dr),
    ensures
        j <= n,
{
    if j > n {
        assert(df == 1 ==> j * df >= (n + 1) * df) by (nonlinear_arith)
            requires
                j > n,
        ;
        assert(df == -1 ==> j * df <= (n + 1) * df) by (nonlinear_arith)
            requires
                j > n,
        ;
        assert(dr == 1 ==> j * dr >= (n + 1) * dr) by (nonlinear_arith)
            requires
                j > n,
        ;
        assert(dr == -1 ==> j * dr <= (n + 1) * dr) by (nonlinear_arith)
            requires
                j > n,
        ;
        assert(df == 0 ==> j * df == 0 && (n + 1) * df == 0) by (nonlinear_arith);
        assert(dr == 0 ==> j * dr == 0 && (n + 1) * dr == 0) by (nonlinear_arith);
        assert(df == 1 ==> (n + 1) * df > 0) by (nonlinear_arith)
            requires
                n >= 0,
        ;
        assert(df == -1 ==> (n + 1) * df < 0) by (nonlinear_arith)
            requires
                n >= 0,
        ;
        assert(dr == 1 ==> (n + 1) * dr > 0) by (nonlinear_arith)
            requires
                n >= 0,
        ;
        assert(dr == -1 ==> (n + 1) * dr < 0) by (nonlinear_arith)
            requires
                n >= 0,
        ;
    }
}

/// No more than seven steps stay on the board.
proof fn lemma_distance(f: int, r: int, df: int, dr: int, n: int)
    requires
        on_board(f, r),
        -1 <= df <= 1,
        -1 <= dr <= 1,
        df != 0 || dr != 0,
        n >= 0,
        on_board(f + n * df, r + n * dr),
    ensures
        n <= 7,
{
    assert(df == 1 ==> n * df == n) by (nonlinear_arith);
    assert(df == -1 ==> n * df == -n) by (nonlinear_arith);
    assert(dr == 1 ==> n * dr == n) by (nonlinear_arith);
    assert(dr == -1 ==> n * dr == -n) by (nonlinear_arith);
}

/// The squares that a bishop attacks.
pub fn bishop_attacks(s: u8, occupied: Bitboard) -> (r: Bitboard)
    requires
        s < 64,
    ensures
        forall|t: int| #[trigger] r.has(t) == bishop_hits(occupied.members(), s as int, t),
{
    let up = ray(s, occupied, 1, 1).union(ray(s, occupied, -1, 1));
    let down = ray(s, occupied, 1, -1).union(ray(s, occupied, -1, -1));
    up.union(down)
}

/// The squares that a rook attacks.
pub fn rook_attacks(s: u8, occupied: Bitboard) -> (r: Bitboard)
    requires
        s < 64,
    ensures
        forall|t: int| #[trigger] r.has(t) == rook_hits(occupied.members(), s as int, t),
{
    let across = ray(s, occupied, 1, 0).union(ray(s, occupied, -1, 0));
    let along = ray(s, occupied, 0, 1).union(ray(s, occupied, 0, -1));
    across.union(along)
}

/// The squares that knights attack from any square of a set.
pub fn knight_attacks_from(from: Bitboard) -> (r: Bitboard)
    ensures
        forall|t: int|
            #[trigger] r.has(t) == exists|s: int| #[trigger] from.has(s) && knight_hits(s, t),
{
    let mut r = Bitboard::empty();
    let mut k: u8 = 0;
    while k < 64
        invariant
            k <= 64,
            forall|t: int|
                #[trigger] r.has(t) == exists|s: int|
                    s < k && #[trigger] from.has(s) && knight_hits(s, t),
        decreases 64 - k,
    {
        let ghost before = r;
        if from.contains(k) {
            r = r.union(knight_attacks(k));
        }
        proof {
            assert forall|t: int|
                #[trigger] r.has(t) == exists|s: int|
                    s < k + 1 && #[trigger] from.has(s) && knight_hits(s, t) by {
                if r.has(t) && !before.has(t) {
                    assert(from.has(k as int));
                } else if before.has(t) {
                    let s = choose|s: int| s < k && #[trigger] from.has(s) && knight_hits(s, t);
                    assert(from.has(s));
                }
            }
        }
        k = k + 1;
    }
    r
}

/// The squares that bishops attack from any square of a set.
pub fn bishop_attacks_from(from: Bitboard, occupied: Bitboard) -> (r: Bitboard)
    ensures
        forall|t: int|
            #[trigger] r.has(t) == exists|s: int| #[trigger] from.has(s) && bishop_hits(occupied.members(), s, t),
{
    let mut r = Bitboard::empty();
    let mut k: u8 = 0;
    while k < 64
        invariant
            k <= 64,
            forall|t: int|
                #[trigger] r.has(t) == exists|s: int|
                    s < k && #[trigger] from.has(s) && bishop_hits(occupied.members(), s, t),
        decreases 64 - k,
    {
        let ghost before = r;
        if from.contains(k) {
            r = r.union(bishop_attacks(k, occupied));
        }
        proof {
            assert forall|t: int|
                #[trigger] r.has(t) == exists|s: int|
                    s < k + 1 && #[trigger] from.has(s) && bishop_hits(occupied.members(), s, t) by {
                if r.has(t) && !before.has(t) {
                    assert(from.has(k as int));
                } else if before.has(t) {
                    let s = choose|s: int| s < k && #[trigger] from.has(s) && bishop_hits(occupied.members(), s, t);
                    assert(from.has(s));
                }
            }
        }
        k = k + 1;
    }
    r
}

/// The squares that rooks attack from any square of a set.
pub fn rook_attacks_from(from: Bitboard, occupied: Bitboard) -> (r: Bitboard)
    ensures
        forall|t: int|
            #[trigger] r.has(t) == exists|s: int| #[trigger] from.has(s) && rook_hits(occupied.members(), s, t),
{
    let mut r = Bitboard::empty();
    let mut k: u8 = 0;
    while k < 64
        invariant
            k <= 64,
            forall|t: int|
                #[trigger] r.has(t) == exists|s: int|
                    s < k && #[trigger] from.has(s) && rook_hits(occupied.members(), s, t),
        decreases 64 - k,
    {
        let ghost before = r;
        if from.contains(k) {
            r = r.union(rook_attacks(k, occupied));
        }
        proof {
            assert forall|t: int|
                #[trigger] r.has(t) == exists|s: int|
                    s < k + 1 && #[trigger] from.has(s) && rook_hits(occupied.members(), s, t) by {
                if r.has(t) && !before.has(t) {
                    assert(from.has(k as int));
                } else if before.has(t) {
                    let s = choose|s: int| s < k && #[trigger] from.has(s) && rook_hits(occupied.members(), s, t);
                    assert(from.has(s));
                }
            }
        }
        k = k + 1;
    }
    r
}

/// The way back along a ray is as clear as the way there.
proof fn lemma_way_back(occupied: spec_fn(int) -> bool, s: int, t: int, df: int, dr: int)
    requires
        0 <= s < 64,
        ray_hits(occupied, s, df, dr, t),
    ensures
        0 <= t < 64,
        ray_hits(occupied, t, -df, -dr, s),
{
    let k = choose|k: int|
        #[trigger] reaches(occupied, s, df, dr, k) && t == square(
            file(s) + k * df,
            rank(s) + k * dr,
        );
    assert(k * -df == -(k * df) && k * -dr == -(k * dr)) by (nonlinear_arith);
    assert(file(t) == file(s) + k * df && rank(t) == rank(s) + k * dr);
    assert forall|j: int| 1 <= j < k implies !(#[trigger] occupied(
        square(file(t) + j * -df, rank(t) + j * -dr),
    )) by {
        let i = k - j;
        assert(i * df == k * df + j * -df && i * dr == k * dr + j * -dr) by (nonlinear_arith)
            requires
                i == k - j,
        ;
        assert(!occupied(square(file(s) + i * df, rank(s) + i * dr)));
    }
    assert(reaches(occupied, t, -df, -dr, k));
}

/// A piece of a type attacks a square from another exactly where one on that square would attack
/// the first; of pawns this holds between the two sides.
pub proof fn attacks_are_mutual(occupied: spec_fn(int) -> bool, s: int, t: int)
    requires
        0 <= s < 64,
        0 <= t < 64,
    ensures
        king_hits(s, t) == king_hits(t, s),
        knight_hits(s, t) == knight_hits(t, s),
        pawn_hits(Color::White, s, t) == pawn_hits(Color::Black, t, s),
        bishop_hits(occupied, s, t) == bishop_hits(occupied, t, s),
        rook_hits(occupied, s, t) == rook_hits(occupied, t, s),
{
    assert forall|a: int, b: int, df: int, dr: int|
        0 <= a < 64 && #[trigger] ray_hits(occupied, a, df, dr, b) implies ray_hits(
        occupied,
        b,
        -df,
        -dr,
        a,
    ) by {
        lemma_way_back(occupied, a, b, df, dr);
    }
}

/// Where a king, a knight or a pawn goes, by how far the squares lie apart: a king as far as the
/// root of two, a knight as far as the root of five, and a pawn one rank forward and one file to
/// either side.
pub proof fn steps_have_their_length(s: int, t: int)
    requires
        0 <= s < 64,
        0 <= t < 64,
    ensures
        ({
            let a = t % 8 - s % 8;
            let b = t / 8 - s / 8;
            &&& king_hits(s, t) == (1 <= a * a + b * b <= 2)
            &&& knight_hits(s, t) == (a * a + b * b == 5)
            &&& pawn_hits(Color::White, s, t) == (a * a == 1 && b == 1)
            &&& pawn_hits(Color::Black, s, t) == (a * a == 1 && b == -1)
        }),
{
    let a = t % 8 - s % 8;
    let b = t / 8 - s / 8;
    lemma_square(a);
    lemma_square(b);
}

/// Attacks stay on the board.
pub proof fn attacks_stay_on_the_board(occupied: spec_fn(int) -> bool, color: Color, s: int, t: int)
    requires
        0 <= s < 64,
        king_hits(s, t) || knight_hits(s, t) || pawn_hits(color, s, t) || bishop_hits(
            occupied,
            s,
            t,
        ) || rook_hits(occupied, s, t),
    ensures
        0 <= t < 64,
        s != t,
{
    if !(king_hits(s, t) || knight_hits(s, t) || pawn_hits(color, s, t)) {
        assert forall|df: int, dr: int| #[trigger] ray_hits(occupied, s, df, dr, t) && (df != 0 || dr
            != 0) && -1 <= df <= 1 && -1 <= dr <= 1 implies 0 <= t < 64 && s != t by {
            let n = lemma_line_there(occupied, s, t, df, dr);
            lemma_times(n, df);
            lemma_times(n, dr);
        }
    }
}

proof fn lemma_square(a: int)
    requires
        -7 <= a <= 7,
    ensures
        a == 0 ==> a * a == 0,
        a == 1 || a == -1 ==> a * a == 1,
        a == 2 || a == -2 ==> a * a == 4,
        a > 2 || a < -2 ==> a * a >= 9,
{
    assert(a == 1 || a == -1 ==> a * a == 1) by (nonlinear_arith);
    assert(a == 2 || a == -2 ==> a * a == 4) by (nonlinear_arith);
    assert(a > 2 || a < -2 ==> a * a >= 9) by (nonlinear_arith);
}

/// Whether nothing stands strictly between two squares, `step` apart from one to the next.
pub open spec fn clear(occupied: spec_fn(int) -> bool, s: int, t: int, step: int) -> bool {
    forall|u: int|
        (s < u < t || t < u < s) && (u - s) % step == 0 ==> !(#[trigger] occupied(u))
}

/// What a direction multiplies to.
proof fn lemma_times(j: int, d: int)
    requires
        -1 <= d <= 1,
    ensures
        j * d == (if d == 1 {
            j
        } else if d == -1 {
            -j
        } else {
            0
        }),
{
    assert(d == 1 ==> j * d == j) by (nonlinear_arith);
    assert(d == -1 ==> j * d == -j) by (nonlinear_arith);
    assert(d == 0 ==> j * d == 0) by (nonlinear_arith);
}

/// Whether a square lies `k` steps away in a direction.
spec fn ahead(s: int, t: int, df: int, dr: int, k: int) -> bool {
    &&& 0 <= t < 64
    &&& k >= 1
    &&& t % 8 - s % 8 == k * df
    &&& t / 8 - s / 8 == k * dr
}

/// How far squares lie apart from one to the next in a direction.
spec fn step_of(df: int, dr: int) -> int {
    let d = 8 * dr + df;
    if d > 0 {
        d
    } else {
        -d
    }
}

/// A distance on the way that is a whole number of steps, as that number.
proof fn lemma_inner(step: int, n: int, x: int) -> (j: int)
    requires
        step > 0,
        0 < x < n * step || n * step < x < 0,
        x % step == 0,
    ensures
        x == j * step,
        0 < j < n || n < j < 0,
{
    let j = x / step;
    lemma_fundamental_div_mod(x, step);
    assert(x == j * step) by (nonlinear_arith)
        requires
            x == step * j,
    ;
    assert(0 < x ==> 0 < j) by (nonlinear_arith)
        requires
            x == j * step,
            step > 0,
    ;
    assert(x < 0 ==> j < 0) by (nonlinear_arith)
        requires
            x == j * step,
            step > 0,
    ;
    assert(x < n * step ==> j < n) by (nonlinear_arith)
        requires
            x == j * step,
            step > 0,
    ;
    assert(n * step < x ==> n < j) by (nonlinear_arith)
        requires
            x == j * step,
            step > 0,
    ;
    j
}

/// The square `j` steps from another in a direction.
proof fn lemma_steps(s: int, df: int, dr: int, j: int)
    requires
        0 <= s < 64,
    ensures
        square(file(s) + j * df, rank(s) + j * dr) == s + j * (8 * dr + df),
{
    assert(j * (8 * dr + df) == 8 * (j * dr) + j * df) by (nonlinear_arith);
}

/// What a ray reaches lies ahead, with nothing in between.
proof fn lemma_line_there(occupied: spec_fn(int) -> bool, s: int, t: int, df: int, dr: int) -> (n:
    int)
    requires
        0 <= s < 64,
        -1 <= df <= 1,
        -1 <= dr <= 1,
        df != 0 || dr != 0,
        ray_hits(occupied, s, df, dr, t),
    ensures
        ahead(s, t, df, dr, n),
        clear(occupied, s, t, step_of(df, dr)),
{
    let d = 8 * dr + df;
    let step = step_of(df, dr);
    let sign: int = if d > 0 {
        1
    } else {
        -1
    };
    let n = choose|n: int|
        #[trigger] reaches(occupied, s, df, dr, n) && t == square(
            file(s) + n * df,
            rank(s) + n * dr,
        );
    assert(ahead(s, t, df, dr, n));
    lemma_steps(s, df, dr, n);
    assert((sign * n) * step == n * d) by (nonlinear_arith)
        requires
            (sign == 1 && step == d) || (sign == -1 && step == -d),
    ;
    assert forall|u: int| (s < u < t || t < u < s) && (u - s) % step == 0 implies !(
    #[trigger] occupied(u)) by {
        let m = lemma_inner(step, sign * n, u - s);
        let j = sign * m;
        assert(m * step == j * d) by (nonlinear_arith)
            requires
                j == sign * m,
                (sign == 1 && step == d) || (sign == -1 && step == -d),
        ;
        lemma_steps(s, df, dr, j);
        assert(u == square(file(s) + j * df, rank(s) + j * dr));
    }
    n
}

/// What lies ahead with nothing in between, a ray reaches.
proof fn lemma_line_back(
    occupied: spec_fn(int) -> bool,
    s: int,
    t: int,
    df: int,
    dr: int,
    k: int,
)
    requires
        0 <= s < 64,
        -1 <= df <= 1,
        -1 <= dr <= 1,
        df != 0 || dr != 0,
        ahead(s, t, df, dr, k),
        clear(occupied, s, t, step_of(df, dr)),
    ensures
        ray_hits(occupied, s, df, dr, t),
{
    let d = 8 * dr + df;
    let step = step_of(df, dr);
    let sign: int = if d > 0 {
        1
    } else {
        -1
    };
    lemma_steps(s, df, dr, k);
    assert(t == square(file(s) + k * df, rank(s) + k * dr));
    assert forall|j: int| 1 <= j < k implies !(#[trigger] occupied(
        square(file(s) + j * df, rank(s) + j * dr),
    )) by {
        let u = square(file(s) + j * df, rank(s) + j * dr);
        lemma_steps(s, df, dr, j);
        assert(u - s == (sign * j) * step) by (nonlinear_arith)
            requires
                u - s == j * d,
                (sign == 1 && step == d) || (sign == -1 && step == -d),
        ;
        lemma_mod_multiples_basic(sign * j, step);
        assert(s < u < t || t < u < s) by (nonlinear_arith)
            requires
                u - s == j * d,
                t - s == k * d,
                1 <= j < k,
                d != 0,
        ;
    }
    assert(reaches(occupied, s, df, dr, k));
}

/// The same in both directions along a line.
proof fn lemma_line(occupied: spec_fn(int) -> bool, s: int, t: int, df: int, dr: int, k: int)
    requires
        0 <= s < 64,
        0 <= t < 64,
        s != t,
        -1 <= df <= 1,
        -1 <= dr <= 1,
        df != 0 || dr != 0,
        k == (if df != 0 {
            (t % 8 - s % 8) * df
        } else {
            (t / 8 - s / 8) * dr
        }),
    ensures
        (ray_hits(occupied, s, df, dr, t) || ray_hits(occupied, s, -df, -dr, t)) == (t % 8 - s % 8
            == k * df && t / 8 - s / 8 == k * dr && clear(occupied, s, t, step_of(df, dr))),
{
    lemma_times(t % 8 - s % 8, df);
    lemma_times(t / 8 - s / 8, dr);
    lemma_times(k, df);
    lemma_times(k, dr);
    assert((-k) * -df == k * df && (-k) * -dr == k * dr) by (nonlinear_arith);
    assert(step_of(-df, -dr) == step_of(df, dr));
    if ray_hits(occupied, s, df, dr, t) {
        let n = lemma_line_there(occupied, s, t, df, dr);
        lemma_times(n, df);
        lemma_times(n, dr);
        assert(n == k);
    }
    if ray_hits(occupied, s, -df, -dr, t) {
        let n = lemma_line_there(occupied, s, t, -df, -dr);
        lemma_times(n, -df);
        lemma_times(n, -dr);
        assert(n == -k);
    }
    if t % 8 - s % 8 == k * df && t / 8 - s / 8 == k * dr && clear(
        occupied,
        s,
        t,
        step_of(df, dr),
    ) {
        if k >= 1 {
            lemma_line_back(occupied, s, t, df, dr, k);
        } else {
            lemma_line_back(occupied, s, t, -df, -dr, -k);
        }
    }
}

/// A rook attacks the squares on its file and on its rank up to the first piece, and a bishop
/// those on its two diagonals: exactly the other squares on the line with nothing in between.
pub proof fn lines_end_at_the_first_piece(occupied: spec_fn(int) -> bool, s: int, t: int)
    requires
        0 <= s < 64,
        0 <= t < 64,
        s != t,
    ensures
        ({
            let a = t % 8 - s % 8;
            let b = t / 8 - s / 8;
            &&& rook_hits(occupied, s, t) == {
                ||| a == 0 && clear(occupied, s, t, 8)
                ||| b == 0 && clear(occupied, s, t, 1)
            }
            &&& bishop_hits(occupied, s, t) == {
                ||| a == b && clear(occupied, s, t, 9)
                ||| a == -b && clear(occupied, s, t, 7)
            }
        }),
{
    let a = t % 8 - s % 8;
    let b = t / 8 - s / 8;
    assert(a * 1 == a && b * 1 == b && a * 0 == 0 && b * 0 == 0 && a * -1 == -a && b * -1 == -b);
    lemma_line(occupied, s, t, 1, 0, a);
    lemma_line(occupied, s, t, 0, 1, b);
    lemma_line(occupied, s, t, 1, 1, a);
    lemma_line(occupied, s, t, 1, -1, a);
}

} // verus!
