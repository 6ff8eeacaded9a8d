//! Levenshtein edit distance, used by the resolver's typo-tolerant tier.

use vstd::prelude::*;
use crate::text::chars_vec;

verus! {

/// The classical Levenshtein metric: the least number of single-character
/// insertions, deletions and substitutions that turns `a` into `b`.
pub open spec fn spec_levenshtein(a: Seq<char>, b: Seq<char>) -> nat
    decreases a.len(), b.len(),
{
    if a.len() == 0 {
        b.len()
    } else if b.len() == 0 {
        a.len()
    } else {
        let del = spec_levenshtein(a.drop_last(), b) + 1;
        let ins = spec_levenshtein(a, b.drop_last()) + 1;
        let sub = spec_levenshtein(a.drop_last(), b.drop_last()) + (
        if a.last() == b.last() {
            0nat
        } else {
            1nat
        });
        if del <= ins && del <= sub {
            del
        } else if ins <= sub {
            ins
        } else {
            sub
        }
    }
}

/// The distance is symmetric, as the classical metric demands.
pub proof fn lemma_levenshtein_symmetric(a: Seq<char>, b: Seq<char>)
    ensures
        spec_levenshtein(a, b) == spec_levenshtein(b, a),
    decreases a.len() + b.len(),
{
    if a.len() > 0 && b.len() > 0 {
        lemma_levenshtein_symmetric(a.drop_last(), b);
        lemma_levenshtein_symmetric(a, b.drop_last());
        lemma_levenshtein_symmetric(a.drop_last(), b.drop_last());
    }
}

/// The distance is zero exactly between equal texts, as the classical
/// metric demands.
pub proof fn lemma_levenshtein_zero(a: Seq<char>, b: Seq<char>)
    ensures
        spec_levenshtein(a, b) == 0 <==> a == b,
    decreases a.len() + b.len(),
{
    if a.len() == 0 || b.len() == 0 {
        if a.len() == 0 && b.len() == 0 {
            assert(a =~= b);
        }
    } else {
        lemma_levenshtein_zero(a.drop_last(), b.drop_last());
        if spec_levenshtein(a, b) == 0 {
            assert(a.drop_last() == b.drop_last() && a.last() == b.last());
            assert(a.len() == b.len());
            assert forall|k: int| 0 <= k < a.len() implies a[k] == b[k] by {
                if k < a.len() - 1 {
                    assert(a[k] == a.drop_last()[k]);
                    assert(b[k] == b.drop_last()[k]);
                }
            }
            assert(a =~= b);
        }
        if a == b {
            assert(a.drop_last() =~= b.drop_last());
        }
    }
}

/// The distance never exceeds the longer of the two lengths.
pub proof fn lemma_levenshtein_le_max(a: Seq<char>, b: Seq<char>)
    ensures
        spec_levenshtein(a, b) <= a.len() || spec_levenshtein(a, b) <= b.len(),
        spec_levenshtein(a, b) <= a.len() + b.len(),
    decreases a.len(), b.len(),
{
    if a.len() > 0 && b.len() > 0 {
        lemma_levenshtein_le_max(a.drop_last(), b.drop_last());
    }
}

/// The distance is at least the difference of the two lengths.
proof fn lemma_levenshtein_len_diff(a: Seq<char>, b: Seq<char>)
    ensures
        spec_levenshtein(a, b) + a.len() >= b.len(),
        spec_levenshtein(a, b) + b.len() >= a.len(),
    decreases a.len(), b.len(),
{
    if a.len() > 0 && b.len() > 0 {
        lemma_levenshtein_len_diff(a.drop_last(), b);
        lemma_levenshtein_len_diff(a, b.drop_last());
        lemma_levenshtein_len_diff(a.drop_last(), b.drop_last());
    }
}

/// One single-character edit: deleting, inserting or substituting one
/// character.
pub open spec fn spec_one_edit(x: Seq<char>, y: Seq<char>) -> bool {
    (exists|i: int| 0 <= i < x.len() && y == #[trigger] x.remove(i)) || (exists|i: int, c: char|
        0 <= i <= x.len() && y == #[trigger] x.insert(i, c)) || (exists|i: int, c: char|
        0 <= i < x.len() && y == #[trigger] x.update(i, c))
}

/// Whether at most `n` single-character edits turn `x` into `y`.
pub open spec fn spec_edits_within(x: Seq<char>, y: Seq<char>, n: nat) -> bool
    decreases n,
{
    x == y || (n > 0 && exists|z: Seq<char>|
        #[trigger] spec_one_edit(x, z) && spec_edits_within(z, y, (n - 1) as nat))
}

/// A script may always be padded with spare edits.
proof fn lemma_edits_mono(x: Seq<char>, y: Seq<char>, n: nat, m: nat)
    requires
        spec_edits_within(x, y, n),
        n <= m,
    ensures
        spec_edits_within(x, y, m),
    decreases n,
{
    if x != y {
        let z = choose|z: Seq<char>|
            #[trigger] spec_one_edit(x, z) && spec_edits_within(z, y, (n - 1) as nat);
        lemma_edits_mono(z, y, (n - 1) as nat, (m - 1) as nat);
        assert(spec_one_edit(x, z) && spec_edits_within(z, y, (m - 1) as nat));
    }
}

/// Edit scripts compose end to end.
proof fn lemma_edits_trans(x: Seq<char>, y: Seq<char>, z: Seq<char>, m: nat, n: nat)
    requires
        spec_edits_within(x, y, m),
        spec_edits_within(y, z, n),
    ensures
        spec_edits_within(x, z, (m + n) as nat),
    decreases m,
{
    if x == y {
        lemma_edits_mono(y, z, n, (m + n) as nat);
    } else {
        let w = choose|w: Seq<char>|
            #[trigger] spec_one_edit(x, w) && spec_edits_within(w, y, (m - 1) as nat);
        lemma_edits_trans(w, y, z, (m - 1) as nat, n);
        assert(spec_one_edit(x, w) && spec_edits_within(w, z, ((m + n) as nat - 1) as nat));
    }
}

/// Appending one character to the target costs one insertion, placed at the
/// end of the script.
proof fn lemma_edits_grow_last(x: Seq<char>, y: Seq<char>, n: nat, c: char)
    requires
        spec_edits_within(x, y, n),
    ensures
        spec_edits_within(x, y.push(c), (n + 1) as nat),
    decreases n,
{
    if x == y {
        assert(x.insert(x.len() as int, c) =~= y.push(c));
        assert(spec_one_edit(x, y.push(c)));
        assert(spec_edits_within(y.push(c), y.push(c), n));
    } else {
        let z = choose|z: Seq<char>|
            #[trigger] spec_one_edit(x, z) && spec_edits_within(z, y, (n - 1) as nat);
        lemma_edits_grow_last(z, y, (n - 1) as nat, c);
        assert(spec_one_edit(x, z) && spec_edits_within(z, y.push(c), n));
    }
}

/// Appending one character to the source costs one deletion, placed at the
/// head of the script.
proof fn lemma_edits_shrink_last(x: Seq<char>, y: Seq<char>, n: nat, c: char)
    requires
        spec_edits_within(x, y, n),
    ensures
        spec_edits_within(x.push(c), y, (n + 1) as nat),
{
    assert(x.push(c).remove(x.len() as int) =~= x);
    assert(spec_one_edit(x.push(c), x));
    assert(spec_edits_within(x, y, ((n + 1) as nat - 1) as nat));
}

/// One edit commutes with appending a character to both texts.
proof fn lemma_one_edit_push(x: Seq<char>, z: Seq<char>, c: char)
    requires
        spec_one_edit(x, z),
    ensures
        spec_one_edit(x.push(c), z.push(c)),
{
    if exists|i: int| 0 <= i < x.len() && z == #[trigger] x.remove(i) {
        let i = choose|i: int| 0 <= i < x.len() && z == #[trigger] x.remove(i);
        assert(x.push(c).remove(i) =~= z.push(c));
    } else if exists|i: int, c2: char| 0 <= i <= x.len() && z == #[trigger] x.insert(i, c2) {
        let (i, c2) = choose|i: int, c2: char|
            0 <= i <= x.len() && z == #[trigger] x.insert(i, c2);
        assert(x.push(c).insert(i, c2) =~= z.push(c));
    } else {
        let (i, c2) = choose|i: int, c2: char|
            0 <= i < x.len() && z == #[trigger] x.update(i, c2);
        assert(x.push(c).update(i, c2) =~= z.push(c));
    }
}

/// Appending the same character to both texts keeps the script.
proof fn lemma_edits_push_both(x: Seq<char>, y: Seq<char>, n: nat, c: char)
    requires
        spec_edits_within(x, y, n),
    ensures
        spec_edits_within(x.push(c), y.push(c), n),
    decreases n,
{
    if x != y {
        let z = choose|z: Seq<char>|
            #[trigger] spec_one_edit(x, z) && spec_edits_within(z, y, (n - 1) as nat);
        lemma_one_edit_push(x, z, c);
        lemma_edits_push_both(z, y, (n - 1) as nat, c);
        assert(spec_one_edit(x.push(c), z.push(c)) && spec_edits_within(
            z.push(c),
            y.push(c),
            (n - 1) as nat,
        ));
    }
}

/// Appending differing characters costs one substitution.
proof fn lemma_edits_subst_last(x: Seq<char>, y: Seq<char>, n: nat, c: char, d: char)
    requires
        spec_edits_within(x, y, n),
    ensures
        spec_edits_within(x.push(c), y.push(d), (n + 1) as nat),
{
    lemma_edits_push_both(x, y, n, d);
    assert(x.push(c).update(x.len() as int, d) =~= x.push(d));
    assert(spec_one_edit(x.push(c), x.push(d)));
    assert(spec_edits_within(x.push(d), y.push(d), ((n + 1) as nat - 1) as nat));
}

/// The distance is achieved: `spec_levenshtein(a, b)` single-character
/// edits suffice to turn `a` into `b`.
pub proof fn lemma_levenshtein_achievable(a: Seq<char>, b: Seq<char>)
    ensures
        spec_edits_within(a, b, spec_levenshtein(a, b)),
    decreases a.len() + b.len(),
{
    if a.len() == 0 && b.len() == 0 {
        assert(a =~= b);
    } else if a.len() == 0 {
        lemma_levenshtein_achievable(a, b.drop_last());
        lemma_edits_grow_last(a, b.drop_last(), spec_levenshtein(a, b.drop_last()), b.last());
        assert(b.drop_last().push(b.last()) =~= b);
    } else if b.len() == 0 {
        lemma_levenshtein_achievable(a.drop_last(), b);
        lemma_edits_shrink_last(a.drop_last(), b, spec_levenshtein(a.drop_last(), b), a.last());
        assert(a.drop_last().push(a.last()) =~= a);
    } else {
        let del = spec_levenshtein(a.drop_last(), b) + 1;
        let ins = spec_levenshtein(a, b.drop_last()) + 1;
        let sub = spec_levenshtein(a.drop_last(), b.drop_last()) + (
        if a.last() == b.last() {
            0nat
        } else {
            1nat
        });
        assert(a.drop_last().push(a.last()) =~= a);
        assert(b.drop_last().push(b.last()) =~= b);
        if del <= ins && del <= sub {
            lemma_levenshtein_achievable(a.drop_last(), b);
            lemma_edits_shrink_last(a.drop_last(), b, spec_levenshtein(a.drop_last(), b), a.last());
        } else if ins <= sub {
            lemma_levenshtein_achievable(a, b.drop_last());
            lemma_edits_grow_last(a, b.drop_last(), spec_levenshtein(a, b.drop_last()), b.last());
        } else {
            lemma_levenshtein_achievable(a.drop_last(), b.drop_last());
            if a.last() == b.last() {
                lemma_edits_push_both(
                    a.drop_last(),
                    b.drop_last(),
                    spec_levenshtein(a.drop_last(), b.drop_last()),
                    a.last(),
                );
            } else {
                lemma_edits_subst_last(
                    a.drop_last(),
                    b.drop_last(),
                    spec_levenshtein(a.drop_last(), b.drop_last()),
                    a.last(),
                    b.last(),
                );
            }
        }
    }
}

/// Dropping the last character of the target moves the distance by at most
/// one in either direction.
proof fn lemma_dist_drop_target(x: Seq<char>, y: Seq<char>)
    requires
        y.len() > 0,
    ensures
        spec_levenshtein(x, y) <= spec_levenshtein(x, y.drop_last()) + 1,
        spec_levenshtein(x, y.drop_last()) <= spec_levenshtein(x, y) + 1,
    decreases x.len(),
{
    if x.len() == 0 {
    } else {
        let del = spec_levenshtein(x.drop_last(), y) + 1;
        let ins = spec_levenshtein(x, y.drop_last()) + 1;
        let sub = spec_levenshtein(x.drop_last(), y.drop_last()) + (
        if x.last() == y.last() {
            0nat
        } else {
            1nat
        });
        if del <= ins && del <= sub {
            lemma_dist_drop_target(x.drop_last(), y);
            if x.drop_last().len() == 0 {
                lemma_levenshtein_len_diff(x, y);
            } else {
                assert(spec_levenshtein(x.drop_last(), y.drop_last()) <= spec_levenshtein(
                    x.drop_last(),
                    y,
                ) + 1);
                assert(spec_levenshtein(x, y.drop_last()) <= spec_levenshtein(
                    x.drop_last(),
                    y.drop_last(),
                ) + 1);
            }
        } else if ins <= sub {
        } else {
            if x.drop_last().len() == 0 {
                lemma_levenshtein_len_diff(x, y);
            } else {
                assert(spec_levenshtein(x, y.drop_last()) <= spec_levenshtein(
                    x.drop_last(),
                    y.drop_last(),
                ) + 1);
            }
        }
    }
}

/// Deleting one character of the source lowers the distance by at most one.
proof fn lemma_dist_after_remove(x: Seq<char>, y: Seq<char>, i: int)
    requires
        0 <= i < x.len(),
    ensures
        spec_levenshtein(x, y) <= spec_levenshtein(x.remove(i), y) + 1,
    decreases x.len(), y.len(),
{
    let xr = x.remove(i);
    assert(xr.len() == x.len() - 1);
    if y.len() == 0 {
    } else if i == x.len() - 1 {
        assert(xr =~= x.drop_last());
        assert(spec_levenshtein(x, y) <= spec_levenshtein(x.drop_last(), y) + 1);
    } else {
        assert(xr.drop_last() =~= x.drop_last().remove(i));
        assert(xr.last() == x.last());
        let delr = spec_levenshtein(xr.drop_last(), y) + 1;
        let insr = spec_levenshtein(xr, y.drop_last()) + 1;
        let subr = spec_levenshtein(xr.drop_last(), y.drop_last()) + (
        if xr.last() == y.last() {
            0nat
        } else {
            1nat
        });
        if delr <= insr && delr <= subr {
            lemma_dist_after_remove(x.drop_last(), y, i);
            assert(spec_levenshtein(x, y) <= spec_levenshtein(x.drop_last(), y) + 1);
        } else if insr <= subr {
            lemma_dist_after_remove(x, y.drop_last(), i);
            assert(spec_levenshtein(x, y) <= spec_levenshtein(x, y.drop_last()) + 1);
        } else {
            lemma_dist_after_remove(x.drop_last(), y.drop_last(), i);
            assert(spec_levenshtein(x, y) <= spec_levenshtein(x.drop_last(), y.drop_last()) + (
            if x.last() == y.last() {
                0nat
            } else {
                1nat
            }));
        }
    }
}

/// Deleting one character of the source raises the distance by at most one.
proof fn lemma_dist_before_remove(x: Seq<char>, y: Seq<char>, i: int)
    requires
        0 <= i < x.len(),
    ensures
        spec_levenshtein(x.remove(i), y) <= spec_levenshtein(x, y) + 1,
    decreases x.len(), y.len(),
{
    let xr = x.remove(i);
    assert(xr.len() == x.len() - 1);
    if y.len() == 0 {
    } else if xr.len() == 0 {
        lemma_levenshtein_len_diff(x, y);
    } else {
        let del = spec_levenshtein(x.drop_last(), y) + 1;
        let ins = spec_levenshtein(x, y.drop_last()) + 1;
        let sub = spec_levenshtein(x.drop_last(), y.drop_last()) + (
        if x.last() == y.last() {
            0nat
        } else {
            1nat
        });
        if del <= ins && del <= sub {
            if i == x.len() - 1 {
                assert(xr =~= x.drop_last());
            } else {
                lemma_dist_before_remove(x.drop_last(), y, i);
                assert(xr.drop_last() =~= x.drop_last().remove(i));
                assert(spec_levenshtein(xr, y) <= spec_levenshtein(xr.drop_last(), y) + 1);
            }
        } else if ins <= sub {
            lemma_dist_before_remove(x, y.drop_last(), i);
            assert(spec_levenshtein(xr, y) <= spec_levenshtein(xr, y.drop_last()) + 1);
        } else {
            if i == x.len() - 1 {
                assert(xr =~= x.drop_last());
                lemma_dist_drop_target(x.drop_last(), y);
            } else {
                lemma_dist_before_remove(x.drop_last(), y.drop_last(), i);
                assert(xr.drop_last() =~= x.drop_last().remove(i));
                assert(xr.last() == x.last());
                assert(spec_levenshtein(xr, y) <= spec_levenshtein(xr.drop_last(), y.drop_last())
                    + (
                if xr.last() == y.last() {
                    0nat
                } else {
                    1nat
                }));
            }
        }
    }
}

/// Substituting one character of the source raises the distance by at most
/// one.
proof fn lemma_dist_after_update(x: Seq<char>, y: Seq<char>, i: int, c: char)
    requires
        0 <= i < x.len(),
    ensures
        spec_levenshtein(x.update(i, c), y) <= spec_levenshtein(x, y) + 1,
    decreases x.len(), y.len(),
{
    let xu = x.update(i, c);
    assert(xu.len() == x.len());
    if y.len() == 0 {
    } else {
        let del = spec_levenshtein(x.drop_last(), y) + 1;
        let ins = spec_levenshtein(x, y.drop_last()) + 1;
        let sub = spec_levenshtein(x.drop_last(), y.drop_last()) + (
        if x.last() == y.last() {
            0nat
        } else {
            1nat
        });
        if i == x.len() - 1 {
            assert(xu.drop_last() =~= x.drop_last());
            assert(xu.last() == c);
            if del <= ins && del <= sub {
                assert(spec_levenshtein(xu, y) <= spec_levenshtein(xu.drop_last(), y) + 1);
            } else if ins <= sub {
                lemma_dist_after_update(x, y.drop_last(), i, c);
                assert(spec_levenshtein(xu, y) <= spec_levenshtein(xu, y.drop_last()) + 1);
            } else {
                assert(spec_levenshtein(xu, y) <= spec_levenshtein(xu.drop_last(), y.drop_last())
                    + (
                if xu.last() == y.last() {
                    0nat
                } else {
                    1nat
                }));
            }
        } else {
            assert(xu.drop_last() =~= x.drop_last().update(i, c));
            assert(xu.last() == x.last());
            if del <= ins && del <= sub {
                lemma_dist_after_update(x.drop_last(), y, i, c);
                assert(spec_levenshtein(xu, y) <= spec_levenshtein(xu.drop_last(), y) + 1);
            } else if ins <= sub {
                lemma_dist_after_update(x, y.drop_last(), i, c);
                assert(spec_levenshtein(xu, y) <= spec_levenshtein(xu, y.drop_last()) + 1);
            } else {
                lemma_dist_after_update(x.drop_last(), y.drop_last(), i, c);
                assert(spec_levenshtein(xu, y) <= spec_levenshtein(xu.drop_last(), y.drop_last())
                    + (
                if xu.last() == y.last() {
                    0nat
                } else {
                    1nat
                }));
            }
        }
    }
}

/// One edit moves the distance to any third text by at most one.
proof fn lemma_one_edit_dist(x: Seq<char>, z: Seq<char>, y: Seq<char>)
    requires
        spec_one_edit(x, z),
    ensures
        spec_levenshtein(x, y) <= spec_levenshtein(z, y) + 1,
{
    if exists|i: int| 0 <= i < x.len() && z == #[trigger] x.remove(i) {
        let i = choose|i: int| 0 <= i < x.len() && z == #[trigger] x.remove(i);
        lemma_dist_after_remove(x, y, i);
    } else if exists|i: int, c: char| 0 <= i <= x.len() && z == #[trigger] x.insert(i, c) {
        let (i, c) = choose|i: int, c: char| 0 <= i <= x.len() && z == #[trigger] x.insert(i, c);
        assert(z.remove(i) =~= x);
        lemma_dist_before_remove(z, y, i);
    } else {
        let (i, c) = choose|i: int, c: char| 0 <= i < x.len() && z == #[trigger] x.update(i, c);
        assert(z.update(i, x[i]) =~= x);
        lemma_dist_after_update(z, y, i, x[i]);
    }
}

/// A script bounds the distance: whenever `n` single-character edits turn
/// `a` into `b`, the distance is at most `n`, so no script is shorter than
/// the distance.
pub proof fn lemma_levenshtein_minimal(a: Seq<char>, b: Seq<char>, n: nat)
    requires
        spec_edits_within(a, b, n),
    ensures
        spec_levenshtein(a, b) <= n,
    decreases n,
{
    if a == b {
        lemma_levenshtein_zero(a, b);
    } else {
        let z = choose|z: Seq<char>|
            #[trigger] spec_one_edit(a, z) && spec_edits_within(z, b, (n - 1) as nat);
        lemma_levenshtein_minimal(z, b, (n - 1) as nat);
        lemma_one_edit_dist(a, z, b);
    }
}

/// The triangle inequality, as the classical metric demands: scripts that
/// reach `b` and then `c` compose to one that reaches `c` directly.
pub proof fn lemma_levenshtein_triangle(a: Seq<char>, b: Seq<char>, c: Seq<char>)
    ensures
        spec_levenshtein(a, c) <= spec_levenshtein(a, b) + spec_levenshtein(b, c),
{
    lemma_levenshtein_achievable(a, b);
    lemma_levenshtein_achievable(b, c);
    lemma_edits_trans(a, b, c, spec_levenshtein(a, b), spec_levenshtein(b, c));
    lemma_levenshtein_minimal(a, c, (spec_levenshtein(a, b) + spec_levenshtein(b, c)) as nat);
}

/// Computes the Levenshtein distance between two texts, by the usual
/// two-row dynamic program over prefixes.
pub fn levenshtein_distance(a: &str, b: &str) -> (r: usize)
    ensures
        r == spec_levenshtein(a@, b@),
{
    let av = chars_vec(a);
    let bv = chars_vec(b);
    let la = av.len();
    let lb = bv.len();
    if la == 0 {
        return lb;
    }
    if lb == 0 {
        proof {
            assert(spec_levenshtein(a@, b@) == a@.len());
        }
        return la;
    }
    let mut prev_row: Vec<usize> = Vec::new();
    proof {
        assert(a@.take(0) =~= Seq::<char>::empty());
    }
    prev_row.push(0);
    let mut j: usize = 0;
    while j < lb
        invariant
            lb == b@.len(),
            j <= lb,
            prev_row@.len() == j + 1,
            forall|k: int| 0 <= k <= j ==> prev_row@[k] == spec_levenshtein(a@.take(0), b@.take(k)),
        decreases lb - j,
    {
        proof {
            assert(a@.take(0) =~= Seq::<char>::empty());
            assert(b@.take(j + 1).len() == j + 1);
        }
        prev_row.push(j + 1);
        j = j + 1;
    }
    let mut i: usize = 0;
    while i < la
        invariant
            la == a@.len() == av@.len(),
            lb == b@.len() == bv@.len(),
            av@ == a@,
            bv@ == b@,
            i <= la,
            prev_row@.len() == lb + 1,
            forall|k: int|
                0 <= k <= lb ==> prev_row@[k] == spec_levenshtein(a@.take(i as int), b@.take(k)),
        decreases la - i,
    {
        let mut curr_row: Vec<usize> = Vec::new();
        proof {
            assert(b@.take(0) =~= Seq::<char>::empty());
            assert(a@.take(i + 1).len() == i + 1);
        }
        curr_row.push(i + 1);
        let mut j: usize = 0;
        while j < lb
            invariant
                la == a@.len() == av@.len(),
                lb == b@.len() == bv@.len(),
                av@ == a@,
                bv@ == b@,
                i < la,
                j <= lb,
                prev_row@.len() == lb + 1,
                forall|k: int|
                    0 <= k <= lb ==> prev_row@[k] == spec_levenshtein(
                        a@.take(i as int),
                        b@.take(k),
                    ),
                curr_row@.len() == j + 1,
                forall|k: int|
                    0 <= k <= j ==> curr_row@[k] == spec_levenshtein(a@.take(i + 1), b@.take(k)),
            decreases lb - j,
        {
            let cost: usize = if av[i] == bv[j] {
                0
            } else {
                1
            };
            proof {
                let ai = a@.take(i + 1);
                let bj = b@.take(j + 1);
                assert(ai.len() == i + 1 && bj.len() == j + 1);
                assert(ai.drop_last() =~= a@.take(i as int));
                assert(bj.drop_last() =~= b@.take(j as int));
                assert(ai.last() == a@[i as int]);
                assert(bj.last() == b@[j as int]);
                lemma_levenshtein_le_max(a@.take(i as int), b@.take(j as int));
            }
            let diag: usize = prev_row[j] + cost;
            let up = prev_row[j + 1];
            let left = curr_row[j];
            let m = if up <= left {
                up
            } else {
                left
            };
            let val: usize = if m >= diag {
                diag
            } else {
                m + 1
            };
            curr_row.push(val);
            j = j + 1;
        }
        prev_row = curr_row;
        i = i + 1;
    }
    proof {
        assert(a@.take(la as int) =~= a@);
        assert(b@.take(lb as int) =~= b@);
    }
    prev_row[lb]
}

} // verus!
