//! Bracket nesting depth, and what it says about resolved jumps.
use vstd::prelude::*;

use crate::{all_matched, close_scan, open_scan, partner, resolved, unmatched, BrainfuckInstruction};

verus! {

/// The number of `[` minus the number of `]` among the first `k` instructions.
pub open spec fn depth(ins: Seq<BrainfuckInstruction>, k: int) -> int
    decreases k,
{
    if k <= 0 {
        0
    } else {
        depth(ins, k - 1) + if ins[k - 1] is JumpForward {
            1int
        } else if ins[k - 1] is JumpBackwards {
            -1int
        } else {
            0int
        }
    }
}

/// Whether no prefix of `ins` closes more brackets than it opens, and the
/// whole of it closes as many as it opens.
pub open spec fn well_bracketed(ins: Seq<BrainfuckInstruction>) -> bool {
    &&& forall|k: int| 0 <= k <= ins.len() ==> #[trigger] depth(ins, k) >= 0
    &&& depth(ins, ins.len() as int) == 0
}

/// A forward search only ever finds a `]` at or after where it starts.
pub(crate) proof fn lemma_close_scan_in_range(ins: Seq<BrainfuckInstruction>, j: int, d: nat)
    ensures
        close_scan(ins, j, d) matches Some(m) ==> j <= m < ins.len() && ins[m] is JumpBackwards,
    decreases ins.len() - j,
{
    if 0 <= j < ins.len() {
        if ins[j] is JumpBackwards {
            if d > 0 {
                lemma_close_scan_in_range(ins, j + 1, (d - 1) as nat);
            }
        } else if ins[j] is JumpForward {
            lemma_close_scan_in_range(ins, j + 1, d + 1);
        } else {
            lemma_close_scan_in_range(ins, j + 1, d);
        }
    }
}

/// A backward search only ever finds a `[` at or before where it starts.
pub(crate) proof fn lemma_open_scan_in_range(ins: Seq<BrainfuckInstruction>, j: int, d: nat)
    ensures
        open_scan(ins, j, d) matches Some(m) ==> 0 <= m <= j && ins[m] is JumpForward,
    decreases j + 1,
{
    if 0 <= j < ins.len() {
        if ins[j] is JumpForward {
            if d > 0 {
                lemma_open_scan_in_range(ins, j - 1, (d - 1) as nat);
            }
        } else if ins[j] is JumpBackwards {
            lemma_open_scan_in_range(ins, j - 1, d + 1);
        } else {
            lemma_open_scan_in_range(ins, j - 1, d);
        }
    }
}

/// Scanning forward for the partner of the `[` at `i` finds a `]` at `m`
/// after which the depth is back to that before `i`, and the depth stays
/// above it in between.
proof fn lemma_close_scan(ins: Seq<BrainfuckInstruction>, i: int, j: int, d: nat)
    requires
        well_bracketed(ins) || close_scan(ins, j, d) is Some,
        0 <= i < j <= ins.len(),
        ins[i] is JumpForward,
        d == depth(ins, j) - depth(ins, i) - 1,
        forall|q: int| i < q <= j ==> #[trigger] depth(ins, q) >= depth(ins, i) + 1,
    ensures
        close_scan(ins, j, d) matches Some(m) && j <= m < ins.len() && ins[m] is JumpBackwards
            && depth(ins, m + 1) == depth(ins, i) && (forall|q: int|
            i < q <= m ==> #[trigger] depth(ins, q) >= depth(ins, i) + 1),
    decreases ins.len() - j,
{
    if j == ins.len() {
        assert(depth(ins, i) >= 0);
    } else {
        assert(depth(ins, j + 1) == depth(ins, j) + if ins[j] is JumpForward {
            1int
        } else if ins[j] is JumpBackwards {
            -1int
        } else {
            0int
        });
        if ins[j] is JumpBackwards && d == 0 {
        } else if ins[j] is JumpBackwards {
            lemma_close_scan(ins, i, j + 1, (d - 1) as nat);
        } else if ins[j] is JumpForward {
            lemma_close_scan(ins, i, j + 1, d + 1);
        } else {
            lemma_close_scan(ins, i, j + 1, d);
        }
    }
}

/// Scanning backward for the partner of the `]` at `c` finds a `[` at `m`
/// where the depth is one below that at `c`, and the depth stays at least
/// that at `c` in between.
proof fn lemma_open_scan(ins: Seq<BrainfuckInstruction>, c: int, k: int, d: nat)
    requires
        well_bracketed(ins) || open_scan(ins, k, d) is Some,
        -1 <= k < c < ins.len(),
        ins[c] is JumpBackwards,
        d == depth(ins, k + 1) - depth(ins, c),
        forall|q: int| k < q <= c ==> #[trigger] depth(ins, q) >= depth(ins, c),
    ensures
        open_scan(ins, k, d) matches Some(m) && 0 <= m <= k && ins[m] is JumpForward && depth(
            ins,
            m + 1,
        ) == depth(ins, c) && (forall|q: int| m < q <= c ==> #[trigger] depth(ins, q) >= depth(ins, c)),
    decreases k + 1,
{
    assert(depth(ins, c + 1) == depth(ins, c) - 1);
    if k == -1 {
        assert(depth(ins, c + 1) >= 0);
        assert(depth(ins, 0) == 0);
    } else {
        assert(depth(ins, k + 1) == depth(ins, k) + if ins[k] is JumpForward {
            1int
        } else if ins[k] is JumpBackwards {
            -1int
        } else {
            0int
        });
        if ins[k] is JumpForward && d == 0 {
        } else if ins[k] is JumpForward {
            lemma_open_scan(ins, c, k - 1, (d - 1) as nat);
        } else if ins[k] is JumpBackwards {
            lemma_open_scan(ins, c, k - 1, d + 1);
        } else {
            lemma_open_scan(ins, c, k - 1, d);
        }
    }
}

/// From the `]` at `m` that closes the `[` at `i`, scanning backward finds `i`.
proof fn lemma_open_scan_returns(ins: Seq<BrainfuckInstruction>, i: int, m: int, k: int, d: nat)
    requires
        0 <= i <= k < m < ins.len(),
        ins[i] is JumpForward,
        d == depth(ins, k + 1) - depth(ins, i) - 1,
        forall|q: int| i < q <= m ==> #[trigger] depth(ins, q) >= depth(ins, i) + 1,
    ensures
        open_scan(ins, k, d) == Some(i),
    decreases k - i,
{
    assert(depth(ins, k + 1) == depth(ins, k) + if ins[k] is JumpForward {
        1int
    } else if ins[k] is JumpBackwards {
        -1int
    } else {
        0int
    });
    if k == i {
    } else {
        assert(depth(ins, k) >= depth(ins, i) + 1);
        if ins[k] is JumpForward {
            lemma_open_scan_returns(ins, i, m, k - 1, (d - 1) as nat);
        } else if ins[k] is JumpBackwards {
            lemma_open_scan_returns(ins, i, m, k - 1, d + 1);
        } else {
            lemma_open_scan_returns(ins, i, m, k - 1, d);
        }
    }
}

/// From the `[` at `m` that opens the `]` at `c`, scanning forward finds `c`.
proof fn lemma_close_scan_returns(ins: Seq<BrainfuckInstruction>, m: int, c: int, j: int, d: nat)
    requires
        0 <= m < j <= c < ins.len(),
        ins[c] is JumpBackwards,
        depth(ins, m + 1) == depth(ins, c),
        d == depth(ins, j) - depth(ins, c),
        forall|q: int| m < q <= c ==> #[trigger] depth(ins, q) >= depth(ins, c),
    ensures
        close_scan(ins, j, d) == Some(c),
    decreases c - j,
{
    assert(depth(ins, j + 1) == depth(ins, j) + if ins[j] is JumpForward {
        1int
    } else if ins[j] is JumpBackwards {
        -1int
    } else {
        0int
    });
    if j == c {
    } else {
        assert(depth(ins, j + 1) >= depth(ins, c));
        if ins[j] is JumpBackwards {
            lemma_close_scan_returns(ins, m, c, j + 1, (d - 1) as nat);
        } else if ins[j] is JumpForward {
            lemma_close_scan_returns(ins, m, c, j + 1, d + 1);
        } else {
            lemma_close_scan_returns(ins, m, c, j + 1, d);
        }
    }
}

/// The round trip from the `[` at `i` through its resolved jump and back.
proof fn lemma_forward_round_trip(ins: Seq<BrainfuckInstruction>, i: int)
    requires
        well_bracketed(ins) || !unmatched(ins, i),
        ins.len() <= usize::MAX,
        0 <= i < ins.len(),
        ins[i] is JumpForward,
    ensures
        !unmatched(ins, i),
        ({
            let c = i + resolved(ins, i)->JumpForward_0 - 1;
            &&& i < c < ins.len()
            &&& ins[c] is JumpBackwards
            &&& c - resolved(ins, c)->JumpBackwards_0 == i + 1
        }),
{
    assert(depth(ins, i + 1) == depth(ins, i) + 1);
    lemma_close_scan(ins, i, i + 1, 0);
    let m = partner(ins, i)->0;
    assert(depth(ins, m + 1) == depth(ins, m) - 1);
    lemma_open_scan_returns(ins, i, m, m - 1, 0);
    assert(partner(ins, m) == Some(i));
    assert(resolved(ins, i) == BrainfuckInstruction::JumpForward((m - i + 1) as usize));
    assert(resolved(ins, m) == BrainfuckInstruction::JumpBackwards((m - i - 1) as usize));
}

/// The round trip from the `]` at `c` through its resolved jump and back.
proof fn lemma_backward_round_trip(ins: Seq<BrainfuckInstruction>, c: int)
    requires
        well_bracketed(ins) || !unmatched(ins, c),
        ins.len() <= usize::MAX,
        0 <= c < ins.len(),
        ins[c] is JumpBackwards,
    ensures
        !unmatched(ins, c),
        ({
            let i = c - resolved(ins, c)->JumpBackwards_0 - 1;
            &&& 0 <= i < c
            &&& ins[i] is JumpForward
            &&& i + resolved(ins, i)->JumpForward_0 == c + 1
        }),
{
    lemma_open_scan(ins, c, c - 1, 0);
    let m = partner(ins, c)->0;
    lemma_close_scan_returns(ins, m, c, m + 1, 0);
    assert(partner(ins, m) == Some(c));
    assert(resolved(ins, c) == BrainfuckInstruction::JumpBackwards((c - m - 1) as usize));
    assert(resolved(ins, m) == BrainfuckInstruction::JumpForward((c - m + 1) as usize));
}

/// In a program where every bracket has a partner, as in every program
/// that compiles, a resolved `[` jumps to just past a `]` whose resolved
/// jump leads back to just past that `[`, and a resolved `]` jumps back to
/// just past a `[` whose resolved jump lands just past that `]`.
pub proof fn lemma_matched_resolves(ins: Seq<BrainfuckInstruction>)
    requires
        all_matched(ins),
        ins.len() <= usize::MAX,
    ensures
        forall|i: int|
            0 <= i < ins.len() && ins[i] is JumpForward ==> {
                let c = i + (#[trigger] resolved(ins, i))->JumpForward_0 - 1;
                &&& i < c < ins.len()
                &&& ins[c] is JumpBackwards
                &&& c - resolved(ins, c)->JumpBackwards_0 == i + 1
            },
        forall|c: int|
            0 <= c < ins.len() && ins[c] is JumpBackwards ==> {
                let i = c - (#[trigger] resolved(ins, c))->JumpBackwards_0 - 1;
                &&& 0 <= i < c
                &&& ins[i] is JumpForward
                &&& i + resolved(ins, i)->JumpForward_0 == c + 1
            },
{
    assert forall|i: int| 0 <= i < ins.len() && ins[i] is JumpForward implies {
        let c = i + (#[trigger] resolved(ins, i))->JumpForward_0 - 1;
        &&& i < c < ins.len()
        &&& ins[c] is JumpBackwards
        &&& c - resolved(ins, c)->JumpBackwards_0 == i + 1
    } by {
        assert(!unmatched(ins, i));
        lemma_forward_round_trip(ins, i);
    }
    assert forall|c: int| 0 <= c < ins.len() && ins[c] is JumpBackwards implies {
        let i = c - (#[trigger] resolved(ins, c))->JumpBackwards_0 - 1;
        &&& 0 <= i < c
        &&& ins[i] is JumpForward
        &&& i + resolved(ins, i)->JumpForward_0 == c + 1
    } by {
        assert(!unmatched(ins, c));
        lemma_backward_round_trip(ins, c);
    }
}

/// In a well-bracketed program every bracket has a partner, so compilation
/// succeeds; a resolved `[` jumps to just past a `]` whose resolved jump
/// leads back to just past that `[`, and a resolved `]` jumps back to just
/// past a `[` whose resolved jump lands just past that `]`.
pub proof fn lemma_well_bracketed_resolves(ins: Seq<BrainfuckInstruction>)
    requires
        well_bracketed(ins),
        ins.len() <= usize::MAX,
    ensures
        all_matched(ins),
        forall|i: int|
            0 <= i < ins.len() && ins[i] is JumpForward ==> {
                let c = i + (#[trigger] resolved(ins, i))->JumpForward_0 - 1;
                &&& i < c < ins.len()
                &&& ins[c] is JumpBackwards
                &&& c - resolved(ins, c)->JumpBackwards_0 == i + 1
            },
        forall|c: int|
            0 <= c < ins.len() && ins[c] is JumpBackwards ==> {
                let i = c - (#[trigger] resolved(ins, c))->JumpBackwards_0 - 1;
                &&& 0 <= i < c
                &&& ins[i] is JumpForward
                &&& i + resolved(ins, i)->JumpForward_0 == c + 1
            },
{
    assert forall|i: int| 0 <= i < ins.len() && ins[i] is JumpForward implies {
        let c = i + (#[trigger] resolved(ins, i))->JumpForward_0 - 1;
        &&& i < c < ins.len()
        &&& ins[c] is JumpBackwards
        &&& c - resolved(ins, c)->JumpBackwards_0 == i + 1
    } by {
        lemma_forward_round_trip(ins, i);
    }
    assert forall|c: int| 0 <= c < ins.len() && ins[c] is JumpBackwards implies {
        let i = c - (#[trigger] resolved(ins, c))->JumpBackwards_0 - 1;
        &&& 0 <= i < c
        &&& ins[i] is JumpForward
        &&& i + resolved(ins, i)->JumpForward_0 == c + 1
    } by {
        lemma_backward_round_trip(ins, c);
    }
    assert forall|k: int| 0 <= k < ins.len() implies !#[trigger] unmatched(ins, k) by {
        if ins[k] is JumpForward {
            lemma_forward_round_trip(ins, k);
        } else if ins[k] is JumpBackwards {
            lemma_backward_round_trip(ins, k);
        }
    }
}

} // verus!
