use vstd::prelude::*;

verus! {

#[derive(Debug, Clone, Copy, PartialEq, Eq, Structural)]
/// One arithmetic step of the statistics of a column of `count` values,
/// each done at the run's precision by whoever holds the numbers.
pub enum Action {
    /// `sum := sum + values[i]`; the sum starts at zero.
    AddToSum(usize),
    /// `mean := sum / d`.
    DivideSum(usize),
    /// `mean := 0`: the column is empty.
    ZeroMean,
    /// `deviations := deviations + (values[i] - mean)^2`; they start at zero.
    AddSquaredDeviation(usize),
    /// `variance := deviations / d`, then `stddev := sqrt(variance)`.
    DivideDeviations(usize),
    /// `variance := 0` and `stddev := 0`: fewer than two values.
    ZeroVariance,
    /// Nothing is left to do.
    Finish,
}

#[derive(Debug, Clone, Copy, PartialEq, Eq, Structural)]
/// Where the statistics of a column stand.
pub enum Phase {
    /// The first `i` values are in the sum.
    Summing(usize),
    /// The sum is complete.
    Mean,
    /// The mean is known and the first `i` squared deviations are summed.
    Deviating(usize),
    /// The squared deviations are complete.
    Variance,
    /// All statistics are known.
    Done,
}

/// The two-pass statistics of a column of `count` values, one step at a time:
/// the values are summed in insertion order, the sum is divided by the count,
/// the squared deviations from that mean are summed in insertion order, and
/// their sum is divided by `count - 1` (the sample variance). An empty
/// column has mean zero; a column of fewer than two values has variance zero.
///
/// Returns the step to do in `phase` and the phase that follows it.
pub fn next_step(count: usize, phase: &Phase) -> (r: (Action, Phase))
    ensures
        match *phase {
            Phase::Summing(i) => if i < count {
                r == (Action::AddToSum(i), Phase::Summing((i + 1) as usize))
            } else {
                r == (Action::Finish, Phase::Mean)
            },
            Phase::Mean => if count == 0 {
                r == (Action::ZeroMean, Phase::Variance)
            } else {
                r == (Action::DivideSum(count), Phase::Deviating(0))
            },
            Phase::Deviating(i) => if count < 2 {
                r == (Action::Finish, Phase::Variance)
            } else if i < count {
                r == (Action::AddSquaredDeviation(i), Phase::Deviating((i + 1) as usize))
            } else {
                r == (Action::Finish, Phase::Variance)
            },
            Phase::Variance => if count < 2 {
                r == (Action::ZeroVariance, Phase::Done)
            } else {
                r == (Action::DivideDeviations((count - 1) as usize), Phase::Done)
            },
            Phase::Done => r == (Action::Finish, Phase::Done),
        },
{
    match phase {
        Phase::Summing(i) => {
            if *i < count {
                (Action::AddToSum(*i), Phase::Summing(*i + 1))
            } else {
                (Action::Finish, Phase::Mean)
            }
        },
        Phase::Mean => {
            if count == 0 {
                (Action::ZeroMean, Phase::Variance)
            } else {
                (Action::DivideSum(count), Phase::Deviating(0))
            }
        },
        Phase::Deviating(i) => {
            if count < 2 {
                (Action::Finish, Phase::Variance)
            } else if *i < count {
                (Action::AddSquaredDeviation(*i), Phase::Deviating(*i + 1))
            } else {
                (Action::Finish, Phase::Variance)
            }
        },
        Phase::Variance => {
            if count < 2 {
                (Action::ZeroVariance, Phase::Done)
            } else {
                (Action::DivideDeviations(count - 1), Phase::Done)
            }
        },
        Phase::Done => (Action::Finish, Phase::Done),
    }
}

/// The whole schedule of steps for a column of `count` values, in order,
/// without the `Finish` markers between passes.
pub open spec fn schedule(count: nat) -> Seq<Action> {
    let sums = Seq::new(count, |i: int| Action::AddToSum(i as usize));
    let mean = if count == 0 {
        Action::ZeroMean
    } else {
        Action::DivideSum(count as usize)
    };
    if count < 2 {
        sums.push(mean).push(Action::ZeroVariance)
    } else {
        sums.push(mean) + Seq::new(count, |i: int| Action::AddSquaredDeviation(i as usize)).push(
            Action::DivideDeviations((count - 1) as usize),
        )
    }
}

/// The mean is the complete sum, accumulated in insertion order, divided once
/// by the count; nothing is divided before every value is in the sum.
pub proof fn lemma_mean_is_one_division(count: nat)
    requires
        0 < count < usize::MAX,
    ensures
        forall|k: int| 0 <= k < count ==> schedule(count)[k] == Action::AddToSum(k as usize),
        schedule(count)[count as int] == Action::DivideSum(count as usize),
        forall|k: int|
            0 <= k < schedule(count).len() && k != count ==> !(#[trigger] schedule(count)[k] is DivideSum),
{
    let s = schedule(count);
    let sums = Seq::new(count, |i: int| Action::AddToSum(i as usize));
    let head = sums.push(Action::DivideSum(count as usize));
    if count >= 2 {
        let devs = Seq::new(count, |i: int| Action::AddSquaredDeviation(i as usize)).push(
            Action::DivideDeviations((count - 1) as usize),
        );
        assert(s == head + devs);
        assert forall|k: int| 0 <= k < s.len() && k != count implies !(#[trigger] s[k] is DivideSum) by {
            if k > count {
                assert(s[k] == devs[k - head.len()]);
            } else {
                assert(s[k] == sums[k]);
            }
        }
    } else {
        assert(s == head.push(Action::ZeroVariance));
        assert forall|k: int| 0 <= k < s.len() && k != count implies !(#[trigger] s[k] is DivideSum) by {
            if k < count {
                assert(s[k] == sums[k]);
            }
        }
    }
}

/// Every step of a column's statistics, in the order `next_step` gives them
/// from `Summing(0)` to `Done`, with the `Finish` markers left out.
pub fn steps(count: usize) -> (r: Vec<Action>)
    ensures
        r@ == schedule(count as nat),
{
    let mut r: Vec<Action> = Vec::new();
    let mut phase = Phase::Summing(0);
    let mut i: usize = 0;
    while i < count
        invariant
            i <= count,
            phase == Phase::Summing(i),
            r@ == Seq::new(i as nat, |k: int| Action::AddToSum(k as usize)),
        decreases count - i,
    {
        let (action, next) = next_step(count, &phase);
        r.push(action);
        assert(r@ =~= Seq::new((i + 1) as nat, |k: int| Action::AddToSum(k as usize)));
        phase = next;
        i += 1;
    }
    let (_, next) = next_step(count, &phase);
    phase = next;
    let (mean, next) = next_step(count, &phase);
    r.push(mean);
    phase = next;
    let ghost prefix = r@;
    if count >= 2 {
        let mut j: usize = 0;
        while j < count
            invariant
                j <= count,
                count >= 2,
                phase == Phase::Deviating(j),
                r@ == prefix + Seq::new(j as nat, |k: int| Action::AddSquaredDeviation(k as usize)),
            decreases count - j,
        {
            let (action, next) = next_step(count, &phase);
            r.push(action);
            assert(r@ =~= prefix + Seq::new(
                (j + 1) as nat,
                |k: int| Action::AddSquaredDeviation(k as usize),
            ));
            phase = next;
            j += 1;
        }
        let (_, next) = next_step(count, &phase);
        phase = next;
    } else if count == 1 {
        let (_, next) = next_step(count, &phase);
        phase = next;
    }
    let (last, _) = next_step(count, &phase);
    r.push(last);
    assert(r@ =~= schedule(count as nat));
    r
}

} // verus!
