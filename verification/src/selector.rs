//! Round-robin endpoint selection.

use vstd::arithmetic::div_mod::{lemma_add_mod_noop, lemma_mod_twice, lemma_small_mod, lemma_fundamental_div_mod_converse, lemma_mod_bound};
use vstd::prelude::*;

verus! {

/// Raised when a selection is asked of a group without members.
#[derive(Clone, Copy, Debug, PartialEq, Eq, Structural)]
pub struct NoBackendAvailable;

/// The outcome of one successful selection: the member to use and the
/// cursor to store for the next call.
#[derive(Clone, Copy, Debug, PartialEq, Eq, Structural)]
pub struct Selection {
    pub index: usize,
    pub next_cursor: usize,
}

/// The member that a cursor designates in a group of `n` members.
pub open spec fn chosen(n: nat, cursor: nat) -> nat
    recommends
        n > 0,
{
    cursor % n
}

/// The cursor that follows `cursor` in a group of `n` members.
pub open spec fn advanced(n: nat, cursor: nat) -> nat
    recommends
        n > 0,
{
    (cursor % n + 1) % n
}

/// The cursor after `k` successive selections on an unchanged group.
pub open spec fn advanced_by(n: nat, cursor: nat, k: nat) -> nat
    recommends
        n > 0,
    decreases k,
{
    if k == 0 {
        cursor
    } else {
        advanced(n, advanced_by(n, cursor, (k - 1) as nat))
    }
}

/// The member chosen by the `k`-th selection (counting from zero) of a run
/// that starts at `cursor`.
pub open spec fn pick(n: nat, cursor: nat, k: nat) -> nat
    recommends
        n > 0,
{
    chosen(n, advanced_by(n, cursor, k))
}

/// Selects the member at `cursor mod n` and advances the cursor by one,
/// wrapping at `n`. An empty group yields `NoBackendAvailable`.
pub fn select(n: usize, cursor: usize) -> (r: Result<Selection, NoBackendAvailable>)
    ensures
        n == 0 <==> r is Err,
        n > 0 ==> r == Ok::<Selection, NoBackendAvailable>(
            (Selection {
                index: chosen(n as nat, cursor as nat) as usize,
                next_cursor: advanced(n as nat, cursor as nat) as usize,
            }),
        ),
        n > 0 ==> r->Ok_0.index < n && r->Ok_0.next_cursor < n,
{
    if n == 0 {
        return Err(NoBackendAvailable);
    }
    let index: usize = cursor % n;
    let next_cursor: usize = if index + 1 == n {
        0
    } else {
        index + 1
    };
    assert(next_cursor == (index + 1) % (n as int)) by {
        if index + 1 == n {
            assert((index + 1) % (n as int) == 0) by (nonlinear_arith)
                requires
                    index + 1 == n,
                    n > 0,
            ;
        } else {
            assert((index + 1) % (n as int) == index + 1) by (nonlinear_arith)
                requires
                    0 <= index + 1 < n,
            ;
        }
    }
    Ok(Selection { index, next_cursor })
}

/// After `k` selections the cursor designates member `(cursor + k) mod n`.
pub proof fn lemma_pick_is_offset(n: nat, cursor: nat, k: nat)
    requires
        n > 0,
    ensures
        pick(n, cursor, k) as int == (cursor as int + k as int) % (n as int),
        k > 0 ==> advanced_by(n, cursor, k) as int == (cursor as int + k as int) % (n as int),
    decreases k,
{
    let m = n as int;
    let c = cursor as int;
    let kk = k as int;
    if k == 0 {
    } else {
        let before = advanced_by(n, cursor, (k - 1) as nat) as int;
        lemma_pick_is_offset(n, cursor, (k - 1) as nat);
        assert(before % m == (c + kk - 1) % m);
        lemma_add_mod_noop(c + kk - 1, 1, m);
        lemma_mod_bound(c + kk - 1, m);
        if n == 1 {
            assert(1int % m == 0);
            assert((c + kk) % m == 0);
            assert(((before % m) + 1) % m == 0);
        } else {
            lemma_small_mod(1, n);
        }
        assert(advanced_by(n, cursor, k) as int == (c + kk) % m);
        lemma_mod_twice(c + kk, m);
    }
}

/// Fairness of a full round: in any window of `n` consecutive selections on
/// an unchanged group of `n` members, every member is chosen at some
/// position of the window.
pub proof fn law_window_visits_every_member(n: nat, cursor: nat, start: nat, member: nat)
    requires
        n > 0,
        member < n,
    ensures
        exists|k: nat| start <= k < start + n && pick(n, cursor, k) == member,
{
    let m = n as int;
    let base = cursor as int + start as int;
    let first = base % m;
    lemma_mod_bound(base, m);
    let gap: nat = if member >= first {
        (member - first) as nat
    } else {
        (member + n - first) as nat
    };
    let k: nat = start + gap;
    lemma_pick_is_offset(n, cursor, k);
    lemma_add_mod_noop(base, gap as int, m);
    lemma_small_mod(gap, n);
    if member >= first {
        lemma_small_mod(member, n);
    } else {
        lemma_fundamental_div_mod_converse(member as int + m, m, 1, member as int);
    }
    assert(pick(n, cursor, k) == member);
    assert(start <= k < start + n);
}

/// Within a window of `n` consecutive selections on an unchanged group of
/// `n` members, two different positions never choose the same member: each
/// member is chosen exactly once per round.
pub proof fn law_window_has_no_repeat(n: nat, cursor: nat, start: nat, i: nat, j: nat)
    requires
        n > 0,
        start <= i < j < start + n,
    ensures
        pick(n, cursor, i) != pick(n, cursor, j),
{
    let m = n as int;
    let a = cursor as int + i as int;
    let b = cursor as int + j as int;
    lemma_pick_is_offset(n, cursor, i);
    lemma_pick_is_offset(n, cursor, j);
    let d: nat = (j - i) as nat;
    if a % m == b % m {
        lemma_add_mod_noop(a, d as int, m);
        lemma_small_mod(d, n);
        let r = a % m;
        lemma_mod_bound(a, m);
        assert((r + d) % m == r);
        if r + d < m {
            lemma_small_mod((r + d) as nat, n);
        } else {
            lemma_fundamental_div_mod_converse(r + d, m, 1, r + d - m);
        }
        assert(false);
    }
}

/// In a group of at least two members, no member is chosen twice in
/// immediate succession.
pub proof fn law_no_immediate_repeat(n: nat, cursor: nat, k: nat)
    requires
        n >= 2,
    ensures
        pick(n, cursor, k) != pick(n, cursor, k + 1),
{
    law_window_has_no_repeat(n, cursor, k, k, k + 1);
}

} // verus!
