//! What the prime implicants mean: they are the implicants from which no
//! variable can be left out, and together they cover exactly the rows on
//! which the function is 1.

use vstd::prelude::*;
use crate::minimizer::{
    combined, cube_of, dashes, differences, lemma_combined_symmetric, lemma_dashes_bound,
    lemma_merge_adds_dash, merged, merges, minterm_cubes, next_round, nth_round, prime_cubes,
    unmerged, Cube,
};

verus! {

/// Every entry of `row` is 0 or 1.
pub open spec fn binary(row: Seq<u8>) -> bool {
    forall|i: int| 0 <= i < row.len() ==> #[trigger] row[i] == 0 || row[i] == 1
}

/// Every entry of `c` is 0, 1 or the mark of a variable left out.
pub open spec fn ternary(c: Cube) -> bool {
    forall|i: int| 0 <= i < c.len() ==> #[trigger] c[i] == -1 || c[i] == 0 || c[i] == 1
}

/// The term `c` is true on `row`: it agrees with the row on every variable
/// that it does not leave out.
pub open spec fn covers(c: Cube, row: Seq<u8>) -> bool {
    &&& c.len() == row.len()
    &&& forall|i: int| 0 <= i < c.len() ==> #[trigger] c[i] == -1 || c[i] as int == row[i] as int
}

/// The rows `rows` are the truth table of a function of `len` variables.
pub open spec fn truth_table(rows: Seq<Seq<u8>>, len: nat) -> bool {
    forall|k: int| 0 <= k < rows.len() ==> (#[trigger] rows[k]).len() == len && binary(rows[k])
}

/// The term `c` is true only on rows of `rows`.
pub open spec fn implicant(c: Cube, rows: Seq<Seq<u8>>) -> bool {
    forall|r: Seq<u8>| binary(r) && #[trigger] covers(c, r) ==> rows.contains(r)
}

/// Every member of `ts` has `len` entries, each 0, 1 or the mark, and is an
/// implicant of `rows`.
pub open spec fn sound(ts: Set<Cube>, rows: Seq<Seq<u8>>, len: nat) -> bool {
    forall|c: Cube| #[trigger] ts.contains(c) ==> c.len() == len && ternary(c) && implicant(c, rows)
}

proof fn lemma_no_difference(a: Cube, b: Cube, upto: int)
    requires
        differences(a, b, upto) == 0,
    ensures
        forall|i: int| 0 <= i < upto ==> a[i] == b[i],
    decreases upto,
{
    if upto > 0 {
        lemma_no_difference(a, b, upto - 1);
    }
}

/// Two terms that differ once differ in one place and agree in all others.
proof fn lemma_single_difference(a: Cube, b: Cube, upto: int) -> (p: int)
    requires
        differences(a, b, upto) == 1,
    ensures
        0 <= p < upto,
        a[p] != b[p],
        forall|i: int| 0 <= i < upto && i != p ==> a[i] == b[i],
    decreases upto,
{
    if a[upto - 1] != b[upto - 1] {
        lemma_no_difference(a, b, upto - 1);
        upto - 1
    } else {
        lemma_single_difference(a, b, upto - 1)
    }
}

/// The term of a row of bits is true on that row and on no other.
proof fn lemma_row_term(row: Seq<u8>, r: Seq<u8>)
    requires
        binary(row),
    ensures
        ternary(cube_of(row)),
        covers(cube_of(row), row),
        binary(r) && covers(cube_of(row), r) ==> r == row,
{
    let c = cube_of(row);
    assert forall|i: int| 0 <= i < c.len() implies c[i] as int == row[i] as int by {
        assert(row[i] == 0 || row[i] == 1);
    }
    if binary(r) && covers(c, r) {
        assert forall|i: int| 0 <= i < r.len() implies r[i] == row[i] by {
            assert(row[i] == 0 || row[i] == 1);
            assert(r[i] == 0 || r[i] == 1);
            assert(c[i] == -1 || c[i] as int == r[i] as int);
        }
        assert(r =~= row);
    }
}

/// A merged term is true on a row exactly when one of the two is.
proof fn lemma_merged_covers(a: Cube, b: Cube, r: Seq<u8>)
    requires
        a.len() == b.len(),
        ternary(a),
        ternary(b),
        combined(a, b) is Some,
        binary(r),
    ensures
        ternary(merged(a, b)),
        covers(merged(a, b), r) <==> covers(a, r) || covers(b, r),
{
    let m = merged(a, b);
    let p = lemma_single_difference(a, b, a.len() as int);
    assert forall|i: int| 0 <= i < m.len() implies #[trigger] m[i] == -1 || m[i] == 0 || m[i]
        == 1 by {
        assert(a[i] == -1 || a[i] == 0 || a[i] == 1);
    }
    if covers(m, r) {
        assert(r[p] == 0 || r[p] == 1);
        assert(a[p] == -1 || a[p] == 0 || a[p] == 1);
        assert(b[p] == -1 || b[p] == 0 || b[p] == 1);
        if a[p] == -1 || a[p] as int == r[p] as int {
            assert forall|i: int| 0 <= i < a.len() implies #[trigger] a[i] == -1 || a[i] as int
                == r[i] as int by {
                if i != p {
                    assert(m[i] == -1 || m[i] as int == r[i] as int);
                }
            }
        } else {
            assert forall|i: int| 0 <= i < b.len() implies #[trigger] b[i] == -1 || b[i] as int
                == r[i] as int by {
                if i != p {
                    assert(m[i] == -1 || m[i] as int == r[i] as int);
                }
            }
        }
    }
    if covers(a, r) {
        assert forall|i: int| 0 <= i < m.len() implies #[trigger] m[i] == -1 || m[i] as int
            == r[i] as int by {
            assert(a[i] == -1 || a[i] as int == r[i] as int);
        }
    }
    if covers(b, r) {
        assert forall|i: int| 0 <= i < m.len() implies #[trigger] m[i] == -1 || m[i] as int
            == r[i] as int by {
            assert(b[i] == -1 || b[i] as int == r[i] as int);
        }
    }
}

/// Merging keeps implicants: what a round gives is sound where what it
/// started from is.
proof fn lemma_round_sound(ts: Set<Cube>, rows: Seq<Seq<u8>>, len: nat)
    requires
        sound(ts, rows, len),
    ensures
        sound(next_round(ts), rows, len),
{
    assert forall|c: Cube| #[trigger] next_round(ts).contains(c) implies c.len() == len && ternary(
        c,
    ) && implicant(c, rows) by {
        let (a, b) = choose|a: Cube, b: Cube|
            #![trigger combined(a, b)]
            ts.contains(a) && ts.contains(b) && combined(a, b) == Some(c);
        assert forall|r: Seq<u8>| binary(r) && #[trigger] covers(c, r) implies rows.contains(
            r,
        ) by {
            lemma_merged_covers(a, b, r);
        }
        lemma_merged_covers(a, b, Seq::<u8>::empty());
    }
}

/// After any number of rounds every term is an implicant with at least as
/// many variables left out as rounds have passed.
proof fn lemma_rounds_sound(rows: Seq<Seq<u8>>, len: nat, k: nat)
    requires
        truth_table(rows, len),
    ensures
        sound(nth_round(minterm_cubes(rows), k), rows, len),
        forall|c: Cube| #[trigger]
            nth_round(minterm_cubes(rows), k).contains(c) ==> dashes(c, len as int) >= k,
    decreases k,
{
    let start = minterm_cubes(rows);
    if k == 0 {
        assert forall|c: Cube| #[trigger] start.contains(c) implies c.len() == len && ternary(c)
            && implicant(c, rows) by {
            let w = choose|w: int| 0 <= w < rows.len() && cube_of(#[trigger] rows[w]) == c;
            lemma_row_term(rows[w], rows[w]);
            assert forall|r: Seq<u8>| binary(r) && #[trigger] covers(c, r) implies rows.contains(
                r,
            ) by {
                lemma_row_term(rows[w], r);
            }
        }
    } else {
        let before = nth_round(start, (k - 1) as nat);
        lemma_rounds_sound(rows, len, (k - 1) as nat);
        lemma_round_sound(before, rows, len);
        assert forall|c: Cube| #[trigger] next_round(before).contains(c) implies dashes(
            c,
            len as int,
        ) >= k by {
            let (a, b) = choose|a: Cube, b: Cube|
                #![trigger combined(a, b)]
                before.contains(a) && before.contains(b) && combined(a, b) == Some(c);
            lemma_merge_adds_dash(a, b, (k - 1) as nat);
        }
    }
}

/// A term of some round that is true on `r` leads to a prime implicant that
/// is true on `r`: either it is left unmerged, or what it merges into is
/// true on `r` as well.
proof fn lemma_reaches_prime(rows: Seq<Seq<u8>>, len: nat, k: nat, c: Cube, r: Seq<u8>) -> (p: Cube)
    requires
        truth_table(rows, len),
        nth_round(minterm_cubes(rows), k).contains(c),
        binary(r),
        covers(c, r),
    ensures
        prime_cubes(minterm_cubes(rows)).contains(p),
        covers(p, r),
    decreases len - k,
{
    let start = minterm_cubes(rows);
    let now = nth_round(start, k);
    lemma_rounds_sound(rows, len, k);
    lemma_dashes_bound(c, len as int);
    if merges(now, c) {
        let b = choose|b: Cube|
            #![trigger now.contains(b)]
            now.contains(b) && (combined(c, b) is Some || combined(b, c) is Some);
        lemma_combined_symmetric(c, b);
        lemma_merged_covers(c, b, r);
        let m = merged(c, b);
        assert(combined(c, b) == Some(m));
        assert(next_round(now).contains(m));
        assert(nth_round(start, k + 1) == next_round(now));
        lemma_rounds_sound(rows, len, k + 1);
        lemma_dashes_bound(m, len as int);
        lemma_reaches_prime(rows, len, k + 1, m, r)
    } else {
        assert(unmerged(now).contains(c));
        c
    }
}

/// The sum of the prime implicants is the function: on a row of bits, some
/// prime implicant is true exactly when the row is one of those on which
/// the function is 1.
pub proof fn theorem_primes_are_the_function(rows: Seq<Seq<u8>>, len: nat, r: Seq<u8>)
    requires
        truth_table(rows, len),
        binary(r),
        r.len() == len,
    ensures
        rows.contains(r) <==> exists|c: Cube|
            #![trigger covers(c, r)]
            prime_cubes(minterm_cubes(rows)).contains(c) && covers(c, r),
{
    let start = minterm_cubes(rows);
    if rows.contains(r) {
        let w = choose|w: int| 0 <= w < rows.len() && rows[w] == r;
        assert(cube_of(rows[w]) == cube_of(r));
        assert(start.contains(cube_of(r)));
        lemma_row_term(r, r);
        let p = lemma_reaches_prime(rows, len, 0, cube_of(r), r);
        assert(prime_cubes(start).contains(p) && covers(p, r));
    }
    if exists|c: Cube|
        #![trigger covers(c, r)]
        prime_cubes(start).contains(c) && covers(c, r) {
        let c = choose|c: Cube|
            #![trigger covers(c, r)]
            prime_cubes(start).contains(c) && covers(c, r);
        let j = choose|j: nat| #[trigger] unmerged(nth_round(start, j)).contains(c);
        lemma_rounds_sound(rows, len, j);
        assert(nth_round(start, j).contains(c));
        assert(implicant(c, rows));
    }
}

/// `c` with the variable at `p` left out.
pub open spec fn without(c: Cube, p: int) -> Cube {
    c.update(p, -1i8)
}

/// The term `c` is a prime implicant of the function of `len` variables with
/// the rows `rows`: it is true only on rows of the function, and no variable
/// can be left out of it without making it true on another row.
pub open spec fn prime(c: Cube, rows: Seq<Seq<u8>>, len: nat) -> bool {
    &&& c.len() == len
    &&& ternary(c)
    &&& implicant(c, rows)
    &&& forall|p: int|
        0 <= p < c.len() && c[p] != -1 ==> !implicant(#[trigger] without(c, p), rows)
}

/// How the number of variables left out changes when one entry is set.
proof fn lemma_dashes_update(c: Cube, p: int, v: i8, upto: int)
    requires
        0 <= p < c.len(),
        0 <= upto <= c.len(),
    ensures
        dashes(c.update(p, v), upto) + (if p < upto && c[p] == -1 {
            1nat
        } else {
            0nat
        }) == dashes(c, upto) + (if p < upto && v == -1 {
            1nat
        } else {
            0nat
        }),
    decreases upto,
{
    if upto > 0 {
        lemma_dashes_update(c, p, v, upto - 1);
    }
}

/// Two terms that agree everywhere but in one place differ once.
proof fn lemma_differ_once(a: Cube, b: Cube, p: int, upto: int)
    requires
        a.len() == b.len(),
        0 <= upto <= a.len(),
        0 <= p < a.len(),
        a[p] != b[p],
        forall|i: int| 0 <= i < a.len() && i != p ==> a[i] == b[i],
    ensures
        differences(a, b, upto) == (if p < upto {
            1nat
        } else {
            0nat
        }),
    decreases upto,
{
    if upto > 0 {
        lemma_differ_once(a, b, p, upto - 1);
    }
}

/// A term that leaves no variable out has no mark; one that leaves some out
/// has a mark somewhere.
proof fn lemma_find_dash(c: Cube, upto: int) -> (p: int)
    requires
        0 <= upto <= c.len(),
    ensures
        dashes(c, upto) == 0 ==> forall|i: int| 0 <= i < upto ==> c[i] != -1,
        dashes(c, upto) > 0 ==> 0 <= p < upto && c[p] == -1,
    decreases upto,
{
    if upto == 0 {
        0
    } else {
        let q = lemma_find_dash(c, upto - 1);
        if c[upto - 1] == -1 {
            upto - 1
        } else {
            q
        }
    }
}

/// Setting the place where two merged terms differ: the merged term is either
/// of them with that variable left out, and both name that variable where
/// they leave out equally many.
proof fn lemma_merged_is_without(a: Cube, b: Cube) -> (p: int)
    requires
        a.len() == b.len(),
        combined(a, b) is Some,
    ensures
        0 <= p < a.len(),
        a[p] != b[p],
        merged(a, b) == without(a, p),
        dashes(a, a.len() as int) == dashes(b, b.len() as int) ==> a[p] != -1 && b[p] != -1
            && dashes(merged(a, b), a.len() as int) == dashes(a, a.len() as int) + 1,
{
    let n = a.len() as int;
    let p = lemma_single_difference(a, b, n);
    assert(merged(a, b) =~= without(a, p));
    assert(b =~= a.update(p, b[p]));
    lemma_dashes_update(a, p, b[p], n);
    lemma_dashes_update(a, p, -1i8, n);
    p
}

/// After `k` rounds every term leaves out exactly `k` variables.
proof fn lemma_rounds_exact(rows: Seq<Seq<u8>>, len: nat, k: nat)
    requires
        truth_table(rows, len),
    ensures
        forall|c: Cube| #[trigger]
            nth_round(minterm_cubes(rows), k).contains(c) ==> dashes(c, len as int) == k,
    decreases k,
{
    let start = minterm_cubes(rows);
    if k == 0 {
        assert forall|c: Cube| #[trigger] start.contains(c) implies dashes(c, len as int)
            == 0 by {
            let w = choose|w: int| 0 <= w < rows.len() && cube_of(#[trigger] rows[w]) == c;
            lemma_row_term(rows[w], rows[w]);
            lemma_no_dash(rows[w], len as int);
        }
    } else {
        let before = nth_round(start, (k - 1) as nat);
        lemma_rounds_exact(rows, len, (k - 1) as nat);
        lemma_rounds_sound(rows, len, (k - 1) as nat);
        assert forall|c: Cube| #[trigger] next_round(before).contains(c) implies dashes(
            c,
            len as int,
        ) == k by {
            let (a, b) = choose|a: Cube, b: Cube|
                #![trigger combined(a, b)]
                before.contains(a) && before.contains(b) && combined(a, b) == Some(c);
            let p = lemma_merged_is_without(a, b);
        }
    }
}

/// The term of a row of bits leaves no variable out.
proof fn lemma_no_dash(row: Seq<u8>, upto: int)
    requires
        binary(row),
        0 <= upto <= row.len(),
    ensures
        dashes(cube_of(row), upto) == 0,
    decreases upto,
{
    if upto > 0 {
        lemma_no_dash(row, upto - 1);
        assert(row[upto - 1] == 0 || row[upto - 1] == 1);
    }
}

/// A term with one variable set to a bit is true only where the term with
/// that variable left out is.
proof fn lemma_narrower(c: Cube, p: int, v: i8, rows: Seq<Seq<u8>>)
    requires
        0 <= p < c.len(),
        implicant(without(c, p), rows),
    ensures
        implicant(c.update(p, v), rows),
{
    let wide = without(c, p);
    let narrow = c.update(p, v);
    assert forall|r: Seq<u8>| binary(r) && #[trigger] covers(narrow, r) implies rows.contains(
        r,
    ) by {
        assert forall|i: int| 0 <= i < wide.len() implies #[trigger] wide[i] == -1 || wide[i] as int
            == r[i] as int by {
            if i != p {
                assert(narrow[i] == -1 || narrow[i] as int == r[i] as int);
            }
        }
        assert(covers(wide, r));
    }
}

/// Every implicant that leaves out `k` variables is among the terms after `k`
/// rounds.
proof fn lemma_rounds_complete(rows: Seq<Seq<u8>>, len: nat, k: nat, c: Cube)
    requires
        truth_table(rows, len),
        c.len() == len,
        ternary(c),
        implicant(c, rows),
        dashes(c, len as int) == k,
    ensures
        nth_round(minterm_cubes(rows), k).contains(c),
    decreases k,
{
    let start = minterm_cubes(rows);
    let p = lemma_find_dash(c, len as int);
    if k == 0 {
        let r = Seq::new(len, |i: int| c[i] as u8);
        assert forall|i: int| 0 <= i < len implies #[trigger] r[i] == 0 || r[i] == 1 by {
            assert(c[i] == -1 || c[i] == 0 || c[i] == 1);
        }
        assert forall|i: int| 0 <= i < c.len() implies #[trigger] c[i] == -1 || c[i] as int
            == r[i] as int by {
            assert(c[i] == -1 || c[i] == 0 || c[i] == 1);
        }
        assert(covers(c, r));
        assert(rows.contains(r));
        let w = choose|w: int| 0 <= w < rows.len() && rows[w] == r;
        assert forall|i: int| 0 <= i < len implies cube_of(r)[i] == c[i] by {
            assert(c[i] == -1 || c[i] == 0 || c[i] == 1);
        }
        assert(cube_of(rows[w]) =~= c);
    } else {
        let zero = c.update(p, 0i8);
        let one = c.update(p, 1i8);
        assert(without(c, p) =~= c);
        lemma_narrower(c, p, 0i8, rows);
        lemma_narrower(c, p, 1i8, rows);
        lemma_dashes_update(c, p, 0i8, len as int);
        lemma_dashes_update(c, p, 1i8, len as int);
        assert forall|i: int| 0 <= i < zero.len() implies #[trigger] zero[i] == -1 || zero[i] == 0
            || zero[i] == 1 by {
            assert(c[i] == -1 || c[i] == 0 || c[i] == 1);
        }
        assert forall|i: int| 0 <= i < one.len() implies #[trigger] one[i] == -1 || one[i] == 0
            || one[i] == 1 by {
            assert(c[i] == -1 || c[i] == 0 || c[i] == 1);
        }
        lemma_rounds_complete(rows, len, (k - 1) as nat, zero);
        lemma_rounds_complete(rows, len, (k - 1) as nat, one);
        lemma_differ_once(zero, one, p, len as int);
        assert(merged(zero, one) =~= c);
        assert(combined(zero, one) == Some(c));
        assert(next_round(nth_round(start, (k - 1) as nat)).contains(c));
    }
}

/// The terms that merging leaves over are the prime implicants, all of them
/// and nothing else.
pub proof fn theorem_primes_are_prime(rows: Seq<Seq<u8>>, len: nat, c: Cube)
    requires
        truth_table(rows, len),
    ensures
        prime_cubes(minterm_cubes(rows)).contains(c) <==> prime(c, rows, len),
{
    let start = minterm_cubes(rows);
    if prime_cubes(start).contains(c) {
        let j = choose|j: nat| #[trigger] unmerged(nth_round(start, j)).contains(c);
        let now = nth_round(start, j);
        lemma_rounds_sound(rows, len, j);
        lemma_rounds_exact(rows, len, j);
        assert(now.contains(c));
        assert forall|p: int| 0 <= p < c.len() && c[p] != -1 implies !implicant(
            #[trigger] without(c, p),
            rows,
        ) by {
            if implicant(without(c, p), rows) {
                assert(c[p] == 0 || c[p] == 1);
                let other: i8 = if c[p] == 0 {
                    1i8
                } else {
                    0i8
                };
                let b = c.update(p, other);
                lemma_narrower(c, p, other, rows);
                lemma_dashes_update(c, p, other, len as int);
                assert forall|i: int| 0 <= i < b.len() implies #[trigger] b[i] == -1 || b[i] == 0
                    || b[i] == 1 by {
                    assert(c[i] == -1 || c[i] == 0 || c[i] == 1);
                }
                lemma_rounds_complete(rows, len, j, b);
                lemma_differ_once(c, b, p, len as int);
                assert(combined(c, b) is Some);
                assert(merges(now, c));
            }
        }
    }
    if prime(c, rows, len) {
        let k = dashes(c, len as int);
        let now = nth_round(start, k);
        lemma_rounds_complete(rows, len, k, c);
        lemma_rounds_sound(rows, len, k);
        lemma_rounds_exact(rows, len, k);
        if merges(now, c) {
            let b = choose|b: Cube|
                #![trigger now.contains(b)]
                now.contains(b) && (combined(c, b) is Some || combined(b, c) is Some);
            lemma_combined_symmetric(c, b);
            let p = lemma_merged_is_without(c, b);
            lemma_round_sound(now, rows, len);
            assert(next_round(now).contains(merged(c, b)));
            assert(implicant(without(c, p), rows));
        }
        assert(unmerged(now).contains(c));
    }
}

} // verus!
