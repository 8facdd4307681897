//! The Collatz map on unsigned 64-bit integers: forward trajectories and
//! one-step predecessors.

use vstd::prelude::*;

verus! {

/// Why a computation on Collatz numbers was refused.
#[derive(Clone, Copy, Debug, PartialEq, Eq, Structural)]
pub enum CollatzError {
    /// The starting value was zero, which never reaches one.
    InvalidInput,
    /// A value of the computation does not fit in 64 bits.
    ArithmeticOverflow,
    /// The trajectory has more elements than a vector can index.
    SequenceTooLong,
    /// The graph would have more edges than its 32-bit index can number.
    GraphTooLarge,
}

/// One step of the Collatz map: halve an even number, triple an odd one and
/// add one.
pub open spec fn collatz_step(n: nat) -> nat {
    if n % 2 == 0 {
        n / 2
    } else {
        3 * n + 1
    }
}

/// The value reached from `n` after `k` steps.
pub open spec fn collatz_iterate(n: nat, k: nat) -> nat
    decreases k,
{
    if k == 0 {
        n
    } else {
        collatz_step(collatz_iterate(n, (k - 1) as nat))
    }
}

/// None of the first `k` values of the trajectory of `n` is one, and each of
/// them fits in 64 bits.
pub open spec fn clear_before(n: nat, k: nat) -> bool {
    forall|j: nat| j < k ==> #[trigger] collatz_iterate(n, j) != 1 && collatz_iterate(n, j) <= u64::MAX
}

/// The trajectory of `n` reaches one for the first time after `k` steps, and
/// nothing before that leaves 64 bits.
pub open spec fn stops_at(n: nat, k: nat) -> bool {
    clear_before(n, k) && collatz_iterate(n, k) == 1
}

/// The trajectory of `n` leaves 64 bits after `k` steps, before reaching one.
pub open spec fn overflows_at(n: nat, k: nat) -> bool {
    clear_before(n, k) && collatz_iterate(n, k) > u64::MAX
}

/// The trajectory of `n` reaches one within what a vector can index, and
/// nothing before that leaves 64 bits.
pub open spec fn stops(n: nat) -> bool {
    exists|k: nat| k < usize::MAX && #[trigger] stops_at(n, k)
}

/// The trajectory of `n` leaves 64 bits within what a vector can index,
/// before reaching one.
pub open spec fn overflows(n: nat) -> bool {
    exists|k: nat| k < usize::MAX && #[trigger] overflows_at(n, k)
}

/// `s` is the trajectory of `n` up to and including its first one.
pub open spec fn is_collatz_sequence(n: nat, s: Seq<u64>) -> bool {
    &&& s.len() >= 1
    &&& stops_at(n, (s.len() - 1) as nat)
    &&& forall|i: int| 0 <= i < s.len() ==> #[trigger] s[i] as nat == collatz_iterate(n, i as nat)
}

/// Some odd number is mapped to `n` by the tripling rule.
pub open spec fn has_odd_predecessor(n: nat) -> bool {
    n > 1 && n % 3 == 1 && ((n - 1) / 3) % 2 == 1
}

/// The values that one Collatz step maps to `n`: always `2n`, and
/// `(n - 1) / 3` where that is an odd whole number.
pub open spec fn predecessors_of(n: nat) -> Seq<nat> {
    if has_odd_predecessor(n) {
        seq![2 * n, ((n - 1) / 3) as nat]
    } else {
        seq![2 * n]
    }
}

/// A sequence of machine integers read as natural numbers.
pub open spec fn as_nats(s: Seq<u64>) -> Seq<nat> {
    s.map_values(|v: u64| v as nat)
}

/// The trajectory of `n`, first element `n`, last element the first one
/// reached.
///
/// Zero is refused. A value past 64 bits is reported, never wrapped. So is a
/// trajectory with `usize::MAX` elements none of which is one. Of the four
/// outcomes exactly one is open to each `n`.
pub fn collatz_sequence(n: u64) -> (r: Result<Vec<u64>, CollatzError>)
    ensures
        r matches Ok(v) ==> is_collatz_sequence(n as nat, v@),
        r is Ok <==> n >= 1 && stops(n as nat),
        r == Err::<Vec<u64>, CollatzError>(CollatzError::InvalidInput) <==> n == 0,
        r == Err::<Vec<u64>, CollatzError>(CollatzError::ArithmeticOverflow) <==> n >= 1
            && overflows(n as nat),
        r == Err::<Vec<u64>, CollatzError>(CollatzError::SequenceTooLong) <==> n >= 1
            && clear_before(n as nat, usize::MAX as nat),
        r != Err::<Vec<u64>, CollatzError>(CollatzError::GraphTooLarge),
{
    if n == 0 {
        return Err(CollatzError::InvalidInput);
    }
    let mut cur: u64 = n;
    let mut sequence: Vec<u64> = Vec::new();
    sequence.push(n);
    while cur != 1
        invariant
            n >= 1,
            sequence.len() >= 1,
            cur == sequence[sequence.len() - 1],
            clear_before(n as nat, (sequence.len() - 1) as nat),
            forall|i: int|
                0 <= i < sequence.len() ==> #[trigger] sequence[i] as nat == collatz_iterate(
                    n as nat,
                    i as nat,
                ),
        decreases usize::MAX - sequence.len(),
    {
        let ghost len = sequence.len() as nat;
        assert(clear_before(n as nat, len)) by {
            assert(sequence[len - 1] as nat == collatz_iterate(n as nat, (len - 1) as nat));
        }
        assert(collatz_iterate(n as nat, len) == collatz_step(cur as nat));
        if sequence.len() == usize::MAX {
            proof {
                lemma_one_outcome(n as nat, len);
            }
            return Err(CollatzError::SequenceTooLong);
        }
        let next: u64 = if cur % 2 == 0 {
            cur / 2
        } else {
            if cur > (u64::MAX - 1) / 3 {
                proof {
                    assert(overflows_at(n as nat, len));
                    lemma_one_outcome(n as nat, len);
                }
                return Err(CollatzError::ArithmeticOverflow);
            }
            3 * cur + 1
        };
        sequence.push(next);
        cur = next;
    }
    proof {
        assert(stops_at(n as nat, (sequence.len() - 1) as nat));
        lemma_one_outcome(n as nat, (sequence.len() - 1) as nat);
    }
    Ok(sequence)
}

/// The predecessors of `n` under one Collatz step, the even one first.
///
/// Fails exactly when `2n` does not fit in 64 bits.
pub fn collatz_predecessors(n: u64) -> (r: Result<Vec<u64>, CollatzError>)
    ensures
        match r {
            Ok(v) => {
                &&& 2 * n <= u64::MAX
                &&& as_nats(v@) == predecessors_of(n as nat)
                &&& v@.len() == predecessors_of(n as nat).len()
            },
            Err(e) => e == CollatzError::ArithmeticOverflow && 2 * n > u64::MAX,
        },
{
    if n > u64::MAX / 2 {
        return Err(CollatzError::ArithmeticOverflow);
    }
    let mut predecessors: Vec<u64> = Vec::new();
    predecessors.push(2 * n);
    if n > 1 && n % 3 == 1 {
        let pred: u64 = (n - 1) / 3;
        if pred % 2 == 1 {
            predecessors.push(pred);
        }
    }
    assert(as_nats(predecessors@) =~= predecessors_of(n as nat));
    Ok(predecessors)
}

/// A trajectory ends in one, starts at its seed, and each later element is
/// the Collatz step of the element before it.
pub proof fn lemma_sequence_follows_rule(n: nat, s: Seq<u64>)
    requires
        is_collatz_sequence(n, s),
    ensures
        s[0] as nat == n,
        s.last() == 1,
        forall|i: int| 1 <= i < s.len() ==> #[trigger] s[i] as nat == collatz_step(s[i - 1] as nat),
        forall|i: int| 0 <= i < s.len() - 1 ==> #[trigger] s[i] != 1,
{
    assert(s[0] as nat == collatz_iterate(n, 0));
    assert(s[s.len() - 1] as nat == collatz_iterate(n, (s.len() - 1) as nat));
    assert forall|i: int| 1 <= i < s.len() implies #[trigger] s[i] as nat == collatz_step(
        s[i - 1] as nat,
    ) by {
        assert(s[i - 1] as nat == collatz_iterate(n, (i - 1) as nat));
    }
}

/// A seed has at most one trajectory: two sequences that both are the
/// trajectory of `n` are equal.
pub proof fn lemma_sequence_unique(n: nat, s: Seq<u64>, t: Seq<u64>)
    requires
        is_collatz_sequence(n, s),
        is_collatz_sequence(n, t),
    ensures
        s == t,
{
    let a = (s.len() - 1) as nat;
    let b = (t.len() - 1) as nat;
    if a < b {
        assert(collatz_iterate(n, a) != 1);
    }
    if b < a {
        assert(collatz_iterate(n, b) != 1);
    }
    assert(s =~= t);
}

/// A trajectory has one fate: where it stops, or leaves 64 bits, or is clear
/// as far as a vector can index, it does neither of the other two.
pub proof fn lemma_one_outcome(n: nat, k: nat)
    ensures
        k < usize::MAX && stops_at(n, k) ==> !overflows(n) && !clear_before(n, usize::MAX as nat),
        k < usize::MAX && overflows_at(n, k) ==> !stops(n) && !clear_before(n, usize::MAX as nat),
        k == usize::MAX && clear_before(n, k) ==> !stops(n) && !overflows(n),
{
    if k < usize::MAX && (stops_at(n, k) || overflows_at(n, k)) {
        // the value after `k` steps is one, or too large: not clear
        if clear_before(n, usize::MAX as nat) {
            assert(collatz_iterate(n, k) != 1 && collatz_iterate(n, k) <= u64::MAX);
        }
        assert forall|j: nat| j != k implies !#[trigger] stops_at(n, j) && !#[trigger] overflows_at(
            n,
            j,
        ) by {
            if j < k {
                // clear before `k`, so neither one nor too large after `j` steps
                assert(collatz_iterate(n, j) != 1 && collatz_iterate(n, j) <= u64::MAX);
            } else if clear_before(n, j) {
                assert(collatz_iterate(n, k) != 1 && collatz_iterate(n, k) <= u64::MAX);
            }
        }
    }
    if k == usize::MAX && clear_before(n, k) {
        assert forall|j: nat| j < usize::MAX implies !#[trigger] stops_at(n, j) && !#[trigger] overflows_at(
            n,
            j,
        ) by {
            assert(collatz_iterate(n, j) != 1 && collatz_iterate(n, j) <= u64::MAX);
        }
    }
}

/// The listed predecessors are exactly the numbers that one Collatz step maps
/// to `n`.
pub proof fn lemma_predecessors_exact(n: nat, p: nat)
    ensures
        predecessors_of(n).contains(p) <==> collatz_step(p) == n,
{
    let preds = predecessors_of(n);
    if collatz_step(p) == n {
        if p % 2 == 0 {
            assert(preds[0] == p);
        } else {
            assert(has_odd_predecessor(n));
            assert(preds[1] == p);
        }
    }
    if preds.contains(p) {
        let i = choose|i: int| 0 <= i < preds.len() && preds[i] == p;
        assert(preds[i] == p);
    }
}

} // verus!
