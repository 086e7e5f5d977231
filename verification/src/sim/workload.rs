//! The client workload of a run: the pinned replay ops, or ops sampled from
//! the plan's `proptest` strategy with a generator seeded from the run seed.

use proptest::strategy::{BoxedStrategy, Strategy, ValueTree};
use proptest::test_runner::{Config, RngAlgorithm, TestRng, TestRunner};
use vstd::prelude::*;

use crate::plan::PlanData;
use crate::scenario::FrozenOp;
use crate::seed::Seed;

verus! {

/// `proptest`'s boxed strategy: the plan's workload, carried opaquely.
#[verifier::external_type_specification]
#[verifier::external_body]
#[verifier::reject_recursive_types(T)]
pub struct ExBoxedStrategy<T>(BoxedStrategy<T>);

/// `proptest`'s seeded generator, carried opaquely.
#[verifier::external_type_specification]
#[verifier::external_body]
pub struct ExTestRng(TestRng);

/// `proptest`'s test runner, carried opaquely.
#[verifier::external_type_specification]
#[verifier::external_body]
pub struct ExTestRunner(TestRunner);

/// Byte `k` (least significant first) of `x`.
pub open spec fn le_byte(x: u64, k: nat) -> u8 {
    ((x >> (8 * k)) & 0xff) as u8
}

/// The 32-byte generator seed of a run seed: its eight little-endian bytes,
/// four times over.
pub fn chacha_seed(seed: u64) -> (r: Vec<u8>)
    ensures
        r@.len() == 32,
        forall|i: int| 0 <= i < 32 ==> #[trigger] r@[i] == le_byte(seed, (i % 8) as nat),
{
    let mut r: Vec<u8> = Vec::new();
    let mut i: u64 = 0;
    while i < 32
        invariant
            i <= 32,
            r@.len() == i,
            forall|j: int| 0 <= j < i ==> #[trigger] r@[j] == le_byte(seed, (j % 8) as nat),
        decreases 32 - i,
    {
        let k: u64 = i % 8;
        r.push(((seed >> (8 * k)) & 0xff) as u8);
        i = i + 1;
    }
    r
}

/// How many ops a run samples from its workload: the seed count, at least
/// one and at most 64.
pub open spec fn sample_count(seeds: usize) -> usize {
    if seeds < 1 {
        1
    } else if seeds > 64 {
        64
    } else {
        seeds
    }
}

/// `TestRng::from_seed` with the ChaCha algorithm: a generator that the
/// 32 seed bytes determine. It panics on any other length.
#[verifier::external_body]
fn chacha_rng(seed: &[u8]) -> (r: TestRng)
    requires
        seed@.len() == 32,
{
    TestRng::from_seed(RngAlgorithm::ChaCha, seed)
}

/// `TestRunner::new_with_rng` with `Config::default()`: a runner that draws
/// from `rng`. Nothing is stated of the runner, which only `sample_op` reads.
#[verifier::external_body]
fn runner_with_rng(rng: TestRng) -> (r: TestRunner) {
    TestRunner::new_with_rng(Config::default(), rng)
}

/// `Strategy::new_tree` on the workload, then `ValueTree::current` on the
/// tree it builds (a boxed trait object that cannot cross into verified
/// code, hence one item for both calls): one sampled op, or `None` where
/// the strategy gives up. What comes back depends on the generator's state,
/// so nothing is stated of it.
#[verifier::external_body]
fn sample_op(workload: &BoxedStrategy<FrozenOp>, runner: &mut TestRunner) -> (r: Option<FrozenOp>) {
    match workload.new_tree(runner) {
        Ok(tree) => Some(tree.current()),
        Err(_) => None,
    }
}

/// The ops that a run of draws yields: the sampled ops, in draw order, with
/// the draws that gave up left out.
pub open spec fn sampled_ops(draws: Seq<Option<FrozenOp>>) -> Seq<FrozenOp>
    decreases draws.len(),
{
    if draws.len() == 0 {
        Seq::empty()
    } else {
        match draws.last() {
            Some(op) => sampled_ops(draws.drop_last()).push(op),
            None => sampled_ops(draws.drop_last()),
        }
    }
}

/// Keep the ops of the draws that did not give up, in draw order.
pub fn keep_sampled(draws: Vec<Option<FrozenOp>>) -> (r: Vec<FrozenOp>)
    ensures
        r@ == sampled_ops(draws@),
{
    let ghost d = draws@;
    let mut rest = draws;
    let mut ops: Vec<FrozenOp> = Vec::new();
    assert(d.skip(0) =~= d);
    assert(d.take(0) =~= Seq::<Option<FrozenOp>>::empty());
    while rest.len() > 0
        invariant
            rest@.len() <= d.len(),
            rest@ == d.skip(d.len() - rest@.len()),
            ops@ == sampled_ops(d.take(d.len() - rest@.len())),
        decreases rest.len(),
    {
        let ghost k = d.len() - rest@.len();
        let x = rest.remove(0);
        proof {
            assert(x == d[k]);
            assert(rest@ =~= d.skip(k + 1));
            assert(d.take(k + 1).drop_last() =~= d.take(k));
            assert(d.take(k + 1).last() == d[k]);
        }
        match x {
            Some(op) => {
                ops.push(op);
            },
            None => {},
        }
    }
    assert(d.take(d.len() as int) =~= d);
    ops
}

/// Draw `count` times from the workload with the runner: each draw's op, or
/// `None` where the strategy gave up.
pub fn draw_ops(strategy: &BoxedStrategy<FrozenOp>, runner: &mut TestRunner, count: usize) -> (r: Vec<Option<FrozenOp>>)
    ensures
        r@.len() == count,
{
    let mut draws: Vec<Option<FrozenOp>> = Vec::new();
    let mut i: usize = 0;
    while i < count
        invariant
            i <= count,
            draws@.len() == i,
        decreases count - i,
    {
        draws.push(sample_op(strategy, runner));
        i = i + 1;
    }
    draws
}

/// The client op stream of a run: a copy of the replay scenario's ops when
/// one is pinned; none without a workload; else the ops sampled from the
/// workload in exactly `sample_count(seeds)` draws, in draw order, the draws
/// that give up left out.
pub fn resolve_ops(data: &PlanData, workload: Option<&BoxedStrategy<FrozenOp>>, seed: Seed) -> (r: Vec<FrozenOp>)
    ensures
        match data.replay {
            Some(s) => r@.len() == s.ops@.len() && forall|i: int|
                0 <= i < r@.len() ==> (#[trigger] r@[i]).process == s.ops@[i].process && r@[i].route
                    == s.ops@[i].route && r@[i].op@ == s.ops@[i].op@,
            None => match workload {
                None => r@.len() == 0,
                Some(_) => exists|draws: Seq<Option<FrozenOp>>|
                    draws.len() == sample_count(data.seeds) && r@ == #[trigger] sampled_ops(draws),
            },
        },
{
    match &data.replay {
        Some(scenario) => {
            let ops = scenario.ops.clone();
            proof {
                assert forall|i: int| 0 <= i < ops@.len() implies (#[trigger] ops@[i]).process
                    == scenario.ops@[i].process && ops@[i].route == scenario.ops@[i].route
                    && ops@[i].op@ == scenario.ops@[i].op@ by {
                    assert(cloned::<FrozenOp>(scenario.ops@[i], ops@[i]));
                }
            }
            return ops;
        },
        None => {},
    }
    let strategy = match workload {
        Some(s) => s,
        None => {
            return Vec::new();
        },
    };
    let count: usize = if data.seeds < 1 {
        1
    } else if data.seeds > 64 {
        64
    } else {
        data.seeds
    };
    let bytes = chacha_seed(seed.0);
    let mut runner = runner_with_rng(chacha_rng(bytes.as_slice()));
    let draws = draw_ops(strategy, &mut runner, count);
    let ghost d = draws@;
    let ops = keep_sampled(draws);
    assert(ops@ == sampled_ops(d));
    ops
}

} // verus!
