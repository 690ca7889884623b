//! The residue scanner: walks candidate integers and collects the first
//! `count` quadratic residues together with both of their square roots.
use crate::encoding::pow256;
use crate::euler_defined;
use crate::euler_symbol;
use crate::FieldElement;
use crate::FieldError;
use vstd::prelude::*;

verus! {

/// Whether `a` is a quadratic residue modulo `m`: its Legendre symbol is 1.
/// Zero is not counted as a residue.
pub open spec fn is_residue(a: nat, m: nat) -> bool {
    euler_defined(a, m) && euler_symbol(a, m) == 1
}

/// The candidate integers in `[start, end)` whose residue class modulo `m`
/// is a quadratic residue, in increasing order.
pub open spec fn residue_candidates(start: nat, end: nat, m: nat) -> Seq<nat>
    decreases end - start,
{
    if start >= end {
        Seq::empty()
    } else if is_residue(start % m, m) {
        seq![start] + residue_candidates(start + 1, end, m)
    } else {
        residue_candidates(start + 1, end, m)
    }
}

/// Extending the scanned range by one candidate appends it exactly when it
/// is a residue.
pub proof fn lemma_residue_candidates_snoc(start: nat, end: nat, m: nat)
    requires
        start <= end,
    ensures
        residue_candidates(start, end + 1, m) == if is_residue(end % m, m) {
            residue_candidates(start, end, m).push(end)
        } else {
            residue_candidates(start, end, m)
        },
    decreases end - start,
{
    if start == end {
        if is_residue(end % m, m) {
            assert(residue_candidates(end + 1, end + 1, m) =~= Seq::<nat>::empty());
            assert(residue_candidates(start, end + 1, m) =~= residue_candidates(
                start,
                end,
                m,
            ).push(end));
        } else {
            assert(residue_candidates(end + 1, end + 1, m) =~= Seq::<nat>::empty());
            assert(residue_candidates(start, end + 1, m) =~= residue_candidates(start, end, m));
        }
    } else {
        lemma_residue_candidates_snoc(start + 1, end, m);
        if is_residue(start % m, m) {
            if is_residue(end % m, m) {
                assert(seq![start] + residue_candidates(start + 1, end, m).push(end)
                    =~= (seq![start] + residue_candidates(start + 1, end, m)).push(end));
            }
        }
    }
}

/// What the scanner gathers: every candidate in `[start, end)` that is a
/// residue appears, the entries are exactly such candidates, and they come
/// in strictly increasing order.
pub proof fn lemma_residue_candidates_exact(start: nat, end: nat, m: nat)
    ensures
        forall|c: nat|
            start <= c < end && is_residue(c % m, m) ==> residue_candidates(
                start,
                end,
                m,
            ).contains(c),
        forall|i: int|
            0 <= i < residue_candidates(start, end, m).len() ==> {
                &&& start <= #[trigger] residue_candidates(start, end, m)[i] < end
                &&& is_residue(residue_candidates(start, end, m)[i] % m, m)
            },
        forall|i: int, j: int|
            0 <= i < j < residue_candidates(start, end, m).len() ==> residue_candidates(
                start,
                end,
                m,
            )[i] < residue_candidates(start, end, m)[j],
    decreases end - start,
{
    if start >= end {
    } else {
        lemma_residue_candidates_exact(start + 1, end, m);
        let rest = residue_candidates(start + 1, end, m);
        let whole = residue_candidates(start, end, m);
        if is_residue(start % m, m) {
            assert(whole == seq![start] + rest);
            assert forall|c: nat|
                start <= c < end && is_residue(c % m, m) implies whole.contains(c) by {
                if c == start {
                    assert(whole[0] == start);
                } else {
                    assert(rest.contains(c));
                    let k = choose|k: int| 0 <= k < rest.len() && rest[k] == c;
                    assert(whole[k + 1] == rest[k]);
                    assert(whole[k + 1] == c);
                }
            }
        } else {
            assert(whole == rest);
            assert forall|c: nat|
                start <= c < end && is_residue(c % m, m) implies whole.contains(c) by {
                assert(rest.contains(c));
                let k = choose|k: int| 0 <= k < rest.len() && rest[k] == c;
                assert(whole[k] == c);
            }
        }
    }
}

/// How a gathered row relates to the candidate it came from: the element is
/// the candidate's residue class, the low root squares back to it and is
/// the smaller of the root pair, and the high root is its negation.
pub open spec fn scan_row_ok<T: FieldElement>(row: (T, T, T), cand: nat, m: nat) -> bool {
    &&& row.0.value() == cand % m
    &&& is_residue(row.0.value(), m)
    &&& row.1.value() < m
    &&& (row.1.value() * row.1.value()) % m == row.0.value()
    &&& row.1.value() <= m - row.1.value()
    &&& row.2.value() == (m - row.1.value()) % (m as int)
}

/// Find the next `count` quadratic residues at or after the candidate
/// integer `start`, each with its canonical low root and the opposite high
/// root, in increasing candidate order and skipping no residue in between.
/// A backend defect — or running out of candidate integers — fails with
/// `InvariantViolation`.
pub fn quadratic_residues_at<T: FieldElement>(start: usize, count: usize) -> (r: Result<
    Vec<(T, T, T)>,
    FieldError,
>)
    requires
        T::modulus() >= 3,
        T::modulus() % 2 == 1,
        T::byte_len_spec() >= 1,
        T::modulus() <= pow256(T::byte_len_spec()),
    ensures
        r matches Ok(out) ==> {
            &&& out@.len() == count
            &&& exists|end: nat|
                {
                    &&& start as nat <= end
                    &&& #[trigger] residue_candidates(start as nat, end, T::modulus()).len()
                        == count
                    &&& forall|i: int|
                        0 <= i < count ==> scan_row_ok(
                            #[trigger] out@[i],
                            residue_candidates(start as nat, end, T::modulus())[i],
                            T::modulus(),
                        )
                }
        },
        r matches Err(e) ==> e == FieldError::InvariantViolation,
        count == 0 ==> r is Ok,
{
    let ghost m = T::modulus();
    let mut out: Vec<(T, T, T)> = Vec::new();
    let mut x: usize = start;
    proof {
        assert(residue_candidates(start as nat, start as nat, m) =~= Seq::<nat>::empty());
    }
    loop
        invariant
            m == T::modulus(),
            m >= 3,
            m % 2 == 1,
            T::byte_len_spec() >= 1,
            m <= pow256(T::byte_len_spec()),
            start <= x,
            out@.len() <= count,
            residue_candidates(start as nat, x as nat, m).len() == out@.len(),
            forall|i: int|
                0 <= i < out@.len() ==> scan_row_ok(
                    #[trigger] out@[i],
                    residue_candidates(start as nat, x as nat, m)[i],
                    m,
                ),
        ensures
            out@.len() == count,
            start <= x,
            residue_candidates(start as nat, x as nat, m).len() == count,
            forall|i: int|
                0 <= i < count ==> scan_row_ok(
                    #[trigger] out@[i],
                    residue_candidates(start as nat, x as nat, m)[i],
                    m,
                ),
        decreases usize::MAX - x,
    {
        if out.len() == count {
            break;
        }
        let element = T::from_usize(x);
        let l = match element.legendre() {
            Ok(l) => l,
            Err(e) => {
                return Err(e);
            },
        };
        proof {
            lemma_residue_candidates_snoc(start as nat, x as nat, m);
        }
        if l == 1 {
            let low_root = match element.sqrt() {
                Ok(r) => r,
                Err(e) => {
                    proof {
                        assert(e == FieldError::InvariantViolation);
                    }
                    return Err(e);
                },
            };
            let high_root = low_root.neg();
            out.push((element, low_root, high_root));
        }
        if x == usize::MAX {
            return Err(FieldError::InvariantViolation);
        }
        x = x + 1;
    }
    proof {
        let end = x as nat;
        assert(residue_candidates(start as nat, end, T::modulus()).len() == count);
    }
    Ok(out)
}

} // verus!
