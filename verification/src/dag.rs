//! The dependency graph of a program's blocks, and the order in which the
//! blocks run: in rounds, each block once all the blocks it requires have
//! run.
use vstd::prelude::*;

use crate::text::str_equals;
use crate::token_block::TokenBlock;

verus! {

/// The ids of the blocks a block requires, in the order it lists them.
pub open spec fn required_ids(b: TokenBlock) -> Seq<Seq<char>> {
    b.requirements@.map_values(|r: (String, Vec<String>)| r.0@)
}

/// Whether some block of `dag` has the id `id`.
pub open spec fn defines(dag: Seq<TokenBlock>, id: Seq<char>) -> bool {
    exists|j: int| 0 <= j < dag.len() && (#[trigger] dag[j]).id@ == id
}

/// No two blocks share an id.
pub open spec fn distinct_ids(dag: Seq<TokenBlock>) -> bool {
    forall|i: int, j: int| 0 <= i < j < dag.len() ==> (#[trigger] dag[i]).id@ != (#[trigger] dag[j]).id@
}

/// Every block that some block requires is defined.
pub open spec fn requirements_defined(dag: Seq<TokenBlock>) -> bool {
    forall|i: int, k: int|
        0 <= i < dag.len() && 0 <= k < required_ids(dag[i]).len() ==> defines(
            dag,
            #[trigger] required_ids(dag[i])[k],
        )
}

/// Why the blocks of a program do not form a graph.
#[derive(Debug)]
pub enum DagError {
    /// The block `block` requires the block `required`, which is not
    /// defined.
    MissingBlock { block: String, required: String },
}

/// Whether a block with the id `id` is among `dag`.
fn position_of(dag: &Vec<TokenBlock>, id: &String) -> (r: Option<usize>)
    ensures
        match r {
            Some(j) => j < dag@.len() && dag@[j as int].id@ == id@,
            None => !defines(dag@, id@),
        },
{
    let mut j: usize = 0;
    while j < dag.len()
        invariant
            j <= dag@.len(),
            forall|m: int| 0 <= m < j ==> dag@[m].id@ != id@,
        decreases dag@.len() - j,
    {
        if str_equals(dag[j].id.as_str(), id.as_str()) {
            return Some(j);
        }
        j = j + 1;
    }
    None
}

/// Adds a block to a set of blocks; a block whose id is already taken is
/// not added, and `false` is returned.
pub fn insert_block(blocks: &mut Vec<TokenBlock>, block: TokenBlock) -> (added: bool)
    requires
        distinct_ids(old(blocks)@),
    ensures
        added == !defines(old(blocks)@, block.id@),
        added ==> final(blocks)@ == old(blocks)@.push(block),
        !added ==> final(blocks)@ == old(blocks)@,
        distinct_ids(final(blocks)@),
{
    match position_of(blocks, &block.id) {
        Some(_) => false,
        None => {
            blocks.push(block);
            assert forall|i: int, j: int| 0 <= i < j < blocks@.len() implies (
            #[trigger] blocks@[i]).id@ != (#[trigger] blocks@[j]).id@ by {
                if j == blocks@.len() - 1 {
                    assert(blocks@[i] == old(blocks)@[i]);
                }
            }
            true
        },
    }
}

/// Checks that every block a block requires is defined; where one is not,
/// names a block and the undefined block it requires.
pub fn check_requirements(token_blocks: &Vec<TokenBlock>) -> (r: Result<(), DagError>)
    ensures
        match r {
            Ok(()) => requirements_defined(token_blocks@),
            Err(DagError::MissingBlock { block, required }) => !requirements_defined(
                token_blocks@,
            ) && exists|i: int, k: int|
                0 <= i < token_blocks@.len() && 0 <= k < required_ids(token_blocks@[i]).len()
                    && token_blocks@[i].id@ == block@ && #[trigger] required_ids(
                    token_blocks@[i],
                )[k] == required@ && !defines(token_blocks@, required@),
        },
{
    let mut i: usize = 0;
    while i < token_blocks.len()
        invariant
            i <= token_blocks@.len(),
            forall|a: int, k: int|
                0 <= a < i && 0 <= k < required_ids(token_blocks@[a]).len() ==> defines(
                    token_blocks@,
                    #[trigger] required_ids(token_blocks@[a])[k],
                ),
        decreases token_blocks@.len() - i,
    {
        let block = &token_blocks[i];
        let mut k: usize = 0;
        while k < block.requirements.len()
            invariant
                i < token_blocks@.len(),
                *block == token_blocks@[i as int],
                k <= block.requirements@.len(),
                forall|a: int, k2: int|
                    0 <= a < i && 0 <= k2 < required_ids(token_blocks@[a]).len() ==> defines(
                        token_blocks@,
                        #[trigger] required_ids(token_blocks@[a])[k2],
                    ),
                forall|k2: int|
                    0 <= k2 < k ==> defines(
                        token_blocks@,
                        #[trigger] required_ids(token_blocks@[i as int])[k2],
                    ),
            decreases block.requirements@.len() - k,
        {
            let required_id = &block.requirements[k].0;
            assert(required_ids(token_blocks@[i as int])[k as int] == required_id@);
            if position_of(token_blocks, required_id).is_none() {
                return Err(
                    DagError::MissingBlock { block: block.id.clone(), required: required_id.clone() },
                );
            }
            k = k + 1;
        }
        i = i + 1;
    }
    Ok(())
}

/// The graph of blocks whose requirements are all defined (see
/// `check_requirements`): the blocks themselves.
pub fn build_dag(token_blocks: Vec<TokenBlock>) -> (dag: Vec<TokenBlock>)
    requires
        requirements_defined(token_blocks@),
    ensures
        dag@ == token_blocks@,
        requirements_defined(dag@),
{
    token_blocks
}

// ---------------------------------------------------------------------
// Children
// ---------------------------------------------------------------------
/// How many of the requirements of `b` name the block `id`.
pub open spec fn requirement_count(reqs: Seq<Seq<char>>, id: Seq<char>) -> nat
    decreases reqs.len(),
{
    if reqs.len() == 0 {
        0
    } else {
        requirement_count(reqs.drop_last(), id) + if reqs.last() == id {
            1nat
        } else {
            0nat
        }
    }
}

/// The ids of the blocks among `dag[..n]` that require `id`, once per
/// requirement, in the order of `dag`.
pub open spec fn children_upto(dag: Seq<TokenBlock>, n: int, id: Seq<char>) -> Seq<Seq<char>>
    decreases n,
{
    if n <= 0 || n > dag.len() {
        Seq::empty()
    } else {
        children_upto(dag, n - 1, id) + Seq::new(
            requirement_count(required_ids(dag[n - 1]), id),
            |_k: int| dag[n - 1].id@,
        )
    }
}

/// The ids of the blocks of `dag` that require `id`.
pub open spec fn children(dag: Seq<TokenBlock>, id: Seq<char>) -> Seq<Seq<char>> {
    children_upto(dag, dag.len() as int, id)
}

/// For each block of the graph, in order: its id and the ids of the blocks
/// that require it.
pub fn build_children_map(dag: &Vec<TokenBlock>) -> (r: Vec<(String, Vec<String>)>)
    ensures
        r@.len() == dag@.len(),
        forall|i: int|
            0 <= i < r@.len() ==> (#[trigger] r@[i]).0@ == dag@[i].id@ && r@[i].1@.map_values(
                |s: String| s@,
            ) == children(dag@, dag@[i].id@),
{
    let mut children_map: Vec<(String, Vec<String>)> = Vec::new();
    let mut i: usize = 0;
    while i < dag.len()
        invariant
            i <= dag@.len(),
            children_map@.len() == i,
            forall|a: int|
                0 <= a < i ==> (#[trigger] children_map@[a]).0@ == dag@[a].id@
                    && children_map@[a].1@.map_values(|s: String| s@) == children(
                    dag@,
                    dag@[a].id@,
                ),
        decreases dag@.len() - i,
    {
        let id = &dag[i].id;
        let mut kids: Vec<String> = Vec::new();
        let mut j: usize = 0;
        assert(kids@.map_values(|s: String| s@) =~= children_upto(dag@, 0, id@));
        while j < dag.len()
            invariant
                i < dag@.len(),
                *id == dag@[i as int].id,
                j <= dag@.len(),
                kids@.map_values(|s: String| s@) == children_upto(dag@, j as int, id@),
            decreases dag@.len() - j,
        {
            let reqs = &dag[j].requirements;
            let ghost rids = required_ids(dag@[j as int]);
            let ghost base = children_upto(dag@, j as int, id@);
            let mut k: usize = 0;
            assert(rids.take(0) =~= Seq::<Seq<char>>::empty());
            assert(kids@.map_values(|s: String| s@) =~= base + Seq::new(
                requirement_count(rids.take(0), id@),
                |_k: int| dag@[j as int].id@,
            ));
            while k < reqs.len()
                invariant
                    j < dag@.len(),
                    *reqs == dag@[j as int].requirements,
                    rids == required_ids(dag@[j as int]),
                    k <= reqs@.len(),
                    kids@.map_values(|s: String| s@) == base + Seq::new(
                        requirement_count(rids.take(k as int), id@),
                        |_k: int| dag@[j as int].id@,
                    ),
                decreases reqs@.len() - k,
            {
                let ghost before = kids@.map_values(|s: String| s@);
                assert(rids.take(k + 1).drop_last() =~= rids.take(k as int));
                assert(rids[k as int] == reqs@[k as int].0@);
                assert(rids.take(k + 1).last() == rids[k as int]);
                let ghost c = requirement_count(rids.take(k as int), id@);
                if str_equals(reqs[k].0.as_str(), id.as_str()) {
                    assert(requirement_count(rids.take(k + 1), id@) == c + 1);
                    let child = dag[j].id.clone();
                    assert(child@ == dag@[j as int].id@);
                    kids.push(child);
                    assert(kids@.map_values(|s: String| s@) =~= before.push(child@));
                    assert(kids@.map_values(|s: String| s@) =~= base + Seq::new(
                        requirement_count(rids.take(k + 1), id@),
                        |_k: int| dag@[j as int].id@,
                    ));
                } else {
                    assert(kids@.map_values(|s: String| s@) =~= base + Seq::new(
                        requirement_count(rids.take(k + 1), id@),
                        |_k: int| dag@[j as int].id@,
                    ));
                }
                k = k + 1;
            }
            assert(rids.take(reqs@.len() as int) =~= rids);
            j = j + 1;
        }
        children_map.push((id.clone(), kids));
        i = i + 1;
    }
    children_map
}

// ---------------------------------------------------------------------
// Running order
// ---------------------------------------------------------------------
/// Whether block `i` may run once the blocks marked in `done` have run: it
/// has not run, and for each block it requires some block of that id has.
pub open spec fn ready(dag: Seq<TokenBlock>, done: Seq<bool>, i: int) -> bool {
    &&& !done[i]
    &&& forall|k: int|
        0 <= k < required_ids(dag[i]).len() ==> has_run(dag, done, #[trigger] required_ids(dag[i])[k])
}

/// Whether a block with the id `id` has run.
pub open spec fn has_run(dag: Seq<TokenBlock>, done: Seq<bool>, id: Seq<char>) -> bool {
    exists|j: int| 0 <= j < dag.len() && done[j] && (#[trigger] dag[j]).id@ == id
}

/// The blocks among `dag[..n]` that may run, in order.
pub open spec fn ready_upto(dag: Seq<TokenBlock>, done: Seq<bool>, n: int) -> Seq<int>
    decreases n,
{
    if n <= 0 {
        Seq::empty()
    } else {
        ready_upto(dag, done, n - 1) + if ready(dag, done, n - 1) {
            seq![n - 1]
        } else {
            Seq::empty()
        }
    }
}

/// `done`, with the blocks of `round` marked as well.
pub open spec fn mark_done(done: Seq<bool>, round: Seq<int>) -> Seq<bool> {
    Seq::new(done.len(), |i: int| done[i] || round.contains(i))
}

/// How many blocks have not run.
pub open spec fn pending(done: Seq<bool>) -> nat
    decreases done.len(),
{
    if done.len() == 0 {
        0
    } else {
        pending(done.drop_last()) + if done.last() {
            0nat
        } else {
            1nat
        }
    }
}

pub proof fn lemma_ready_upto(dag: Seq<TokenBlock>, done: Seq<bool>, n: int)
    requires
        0 <= n <= dag.len(),
        done.len() == dag.len(),
    ensures
        forall|m: int|
            0 <= m < ready_upto(dag, done, n).len() ==> 0 <= #[trigger] ready_upto(dag, done, n)[m]
                < n && ready(dag, done, ready_upto(dag, done, n)[m]),
        forall|i: int| 0 <= i < n && ready(dag, done, i) ==> ready_upto(dag, done, n).contains(i),
        forall|a: int, b: int|
            0 <= a < b < ready_upto(dag, done, n).len() ==> ready_upto(dag, done, n)[a]
                < ready_upto(dag, done, n)[b],
    decreases n,
{
    if n > 0 {
        lemma_ready_upto(dag, done, n - 1);
        let pre = ready_upto(dag, done, n - 1);
        if ready(dag, done, n - 1) {
            assert(ready_upto(dag, done, n) == pre + seq![n - 1]);
            assert forall|i: int| 0 <= i < n && ready(dag, done, i) implies ready_upto(
                dag,
                done,
                n,
            ).contains(i) by {
                if i < n - 1 {
                    let m = choose|m: int| 0 <= m < pre.len() && pre[m] == i;
                    assert(ready_upto(dag, done, n)[m] == i);
                } else {
                    assert(ready_upto(dag, done, n)[pre.len() as int] == i);
                }
            }
        } else {
            assert(ready_upto(dag, done, n) =~= pre);
        }
    }
}

pub proof fn lemma_pending_decreases(done: Seq<bool>, more: Seq<bool>, i: int)
    requires
        done.len() == more.len(),
        forall|j: int| 0 <= j < done.len() && done[j] ==> more[j],
        0 <= i < done.len(),
        !done[i],
        more[i],
    ensures
        pending(more) < pending(done),
    decreases done.len(),
{
    lemma_pending_le(done.drop_last(), more.drop_last());
    if i < done.len() - 1 {
        lemma_pending_decreases(done.drop_last(), more.drop_last(), i);
    }
}

pub proof fn lemma_pending_le(done: Seq<bool>, more: Seq<bool>)
    requires
        done.len() == more.len(),
        forall|j: int| 0 <= j < done.len() && done[j] ==> more[j],
    ensures
        pending(more) <= pending(done),
    decreases done.len(),
{
    if done.len() > 0 {
        lemma_pending_le(done.drop_last(), more.drop_last());
    }
}

/// A round with a block in it leaves fewer blocks to run.
pub proof fn lemma_round_progress(dag: Seq<TokenBlock>, done: Seq<bool>)
    requires
        done.len() == dag.len(),
        ready_upto(dag, done, dag.len() as int).len() > 0,
    ensures
        pending(mark_done(done, ready_upto(dag, done, dag.len() as int))) < pending(done),
{
    let r = ready_upto(dag, done, dag.len() as int);
    lemma_ready_upto(dag, done, dag.len() as int);
    let i = r[0];
    assert(r.contains(i));
    lemma_pending_decreases(done, mark_done(done, r), i);
}

/// The rounds in which the blocks run, starting with the blocks marked in
/// `done` having run; and whether blocks remain that can never run.
pub open spec fn rounds_from(dag: Seq<TokenBlock>, done: Seq<bool>) -> (Seq<Seq<int>>, bool)
    decreases pending(done),
{
    if done.len() != dag.len() {
        (Seq::empty(), true)
    } else if pending(done) == 0 {
        (Seq::empty(), false)
    } else {
        let r = ready_upto(dag, done, dag.len() as int);
        if r.len() == 0 {
            (Seq::empty(), true)
        } else {
            proof {
                lemma_round_progress(dag, done);
            }
            let (rest, stuck) = rounds_from(dag, mark_done(done, r));
            (seq![r] + rest, stuck)
        }
    }
}

/// The rounds in which the blocks of a graph run (see `rounds_from`).
pub open spec fn schedule_spec(dag: Seq<TokenBlock>) -> (Seq<Seq<int>>, bool) {
    rounds_from(dag, Seq::new(dag.len(), |_i: int| false))
}

pub proof fn lemma_pending_zero(done: Seq<bool>)
    ensures
        pending(done) == 0 <==> forall|j: int| 0 <= j < done.len() ==> done[j],
    decreases done.len(),
{
    if done.len() > 0 {
        lemma_pending_zero(done.drop_last());
        if pending(done) == 0 {
            assert forall|j: int| 0 <= j < done.len() implies done[j] by {
                if j < done.len() - 1 {
                    assert(done.drop_last()[j] == done[j]);
                }
            }
        }
        if forall|j: int| 0 <= j < done.len() ==> done[j] {
            assert forall|j: int| 0 <= j < done.drop_last().len() implies done.drop_last()[j] by {
                assert(done.drop_last()[j] == done[j]);
            }
        }
    }
}

/// Which blocks have run after the rounds `rounds`, in order, starting
/// from `done`.
pub open spec fn done_after(done: Seq<bool>, rounds: Seq<Seq<int>>) -> Seq<bool>
    decreases rounds.len(),
{
    if rounds.len() == 0 {
        done
    } else {
        done_after(mark_done(done, rounds[0]), rounds.drop_first())
    }
}

proof fn lemma_done_after_len(done: Seq<bool>, rounds: Seq<Seq<int>>)
    ensures
        done_after(done, rounds).len() == done.len(),
    decreases rounds.len(),
{
    if rounds.len() > 0 {
        lemma_done_after_len(mark_done(done, rounds[0]), rounds.drop_first());
    }
}

/// A block runs in a round only when it has not run before and every block
/// it requires has run in an earlier round (or was marked as run at the
/// start).
pub proof fn lemma_rounds_respect_requirements(dag: Seq<TokenBlock>, done: Seq<bool>)
    requires
        done.len() == dag.len(),
    ensures
        forall|t: int, m: int|
            0 <= t < rounds_from(dag, done).0.len() && 0 <= m < rounds_from(dag, done).0[t].len()
                ==> 0 <= #[trigger] rounds_from(dag, done).0[t][m] < dag.len() && ready(
                dag,
                done_after(done, rounds_from(dag, done).0.take(t)),
                rounds_from(dag, done).0[t][m],
            ),
        forall|t: int, a: int, b: int|
            0 <= t < rounds_from(dag, done).0.len() && 0 <= a < b < rounds_from(dag, done).0[t].len()
                ==> #[trigger] rounds_from(dag, done).0[t][a] < #[trigger] rounds_from(dag, done).0[t][b],
    decreases pending(done),
{
    if pending(done) > 0 {
        let n = dag.len() as int;
        let r = ready_upto(dag, done, n);
        if r.len() > 0 {
            lemma_round_progress(dag, done);
            lemma_ready_upto(dag, done, n);
            let d2 = mark_done(done, r);
            lemma_rounds_respect_requirements(dag, d2);
            let rest = rounds_from(dag, d2).0;
            let rounds = rounds_from(dag, done).0;
            assert(rounds == seq![r] + rest);
            assert forall|t: int, m: int|
                0 <= t < rounds.len() && 0 <= m < rounds[t].len() implies 0 <= #[trigger] rounds[t][m]
                < dag.len() && ready(dag, done_after(done, rounds.take(t)), rounds[t][m]) by {
                if t == 0 {
                    assert(rounds.take(0) =~= Seq::<Seq<int>>::empty());
                    assert(rounds[0] == r);
                } else {
                    assert(rounds[t] == rest[t - 1]);
                    assert(rounds.take(t).drop_first() =~= rest.take(t - 1));
                    assert(rounds.take(t)[0] == r);
                    assert(done_after(done, rounds.take(t)) == done_after(d2, rest.take(t - 1)));
                    assert(rest[t - 1][m] == rounds[t][m]);
                }
            }
            assert forall|t: int, a: int, b: int|
                0 <= t < rounds.len() && 0 <= a < b < rounds[t].len() implies #[trigger] rounds[t][a]
                < #[trigger] rounds[t][b] by {
                if t > 0 {
                    assert(rounds[t] == rest[t - 1]);
                }
            }
        }
    }
}

proof fn lemma_done_after_keeps(d: Seq<bool>, s: Seq<Seq<int>>, x: int)
    requires
        0 <= x < d.len(),
        d[x],
    ensures
        done_after(d, s)[x],
    decreases s.len(),
{
    if s.len() > 0 {
        lemma_done_after_keeps(mark_done(d, s[0]), s.drop_first(), x);
    }
}

proof fn lemma_done_after_marks(d: Seq<bool>, s: Seq<Seq<int>>, t: int, x: int)
    requires
        0 <= t < s.len(),
        s[t].contains(x),
        0 <= x < d.len(),
    ensures
        done_after(d, s)[x],
    decreases s.len(),
{
    if t == 0 {
        lemma_done_after_keeps(mark_done(d, s[0]), s.drop_first(), x);
    } else {
        assert(s.drop_first()[t - 1] == s[t]);
        lemma_done_after_marks(mark_done(d, s[0]), s.drop_first(), t - 1, x);
    }
}

/// When the rounds end without being stuck, every block has run; when they
/// end stuck, some block has not run and none of those may run (each waits
/// for a block that never runs).
pub proof fn lemma_rounds_end(dag: Seq<TokenBlock>, done: Seq<bool>)
    requires
        done.len() == dag.len(),
    ensures
        done_after(done, rounds_from(dag, done).0).len() == dag.len(),
        !rounds_from(dag, done).1 ==> forall|j: int|
            0 <= j < dag.len() ==> #[trigger] done_after(done, rounds_from(dag, done).0)[j],
        rounds_from(dag, done).1 ==> (exists|j: int|
            0 <= j < dag.len() && !#[trigger] done_after(done, rounds_from(dag, done).0)[j])
            && forall|i: int| 0 <= i < dag.len() ==> !ready(dag, done_after(done, rounds_from(dag, done).0), i),
    decreases pending(done),
{
    let n = dag.len() as int;
    lemma_pending_zero(done);
    lemma_done_after_len(done, rounds_from(dag, done).0);
    if pending(done) > 0 {
        let r = ready_upto(dag, done, n);
        lemma_ready_upto(dag, done, n);
        if r.len() > 0 {
            lemma_round_progress(dag, done);
            let d2 = mark_done(done, r);
            lemma_rounds_end(dag, d2);
            let rest = rounds_from(dag, d2).0;
            let rounds = rounds_from(dag, done).0;
            assert(rounds == seq![r] + rest);
            assert(rounds.drop_first() =~= rest);
            assert(done_after(done, rounds) == done_after(d2, rest));
        } else {
            assert(rounds_from(dag, done).0 =~= Seq::<Seq<int>>::empty());
            let j = choose|j: int| 0 <= j < done.len() && !done[j];
            assert(!done_after(done, rounds_from(dag, done).0)[j]);
            assert forall|i: int| 0 <= i < dag.len() implies !ready(dag, done, i) by {
                if ready(dag, done, i) {
                    assert(r.contains(i));
                }
            }
        }
    }
}

/// The laws of the schedule of a graph: the position of every block in a
/// round is in the graph; a block runs only once every block it requires
/// has run in an earlier round, and never twice; when the schedule is not
/// stuck every block runs, and when it is stuck the blocks that did not
/// run can never run.
pub proof fn lemma_schedule_laws(dag: Seq<TokenBlock>)
    ensures
        ({
            let start = Seq::new(dag.len(), |_i: int| false);
            let (rounds, stuck) = schedule_spec(dag);
            &&& forall|t: int, m: int|
                0 <= t < rounds.len() && 0 <= m < rounds[t].len() ==> 0 <= #[trigger] rounds[t][m]
                    < dag.len() && ready(dag, done_after(start, rounds.take(t)), rounds[t][m])
            &&& forall|t: int, a: int, b: int|
                0 <= t < rounds.len() && 0 <= a < b < rounds[t].len() ==> #[trigger] rounds[t][a]
                    < #[trigger] rounds[t][b]
            &&& forall|t1: int, m1: int, t2: int, m2: int|
                0 <= t1 < t2 < rounds.len() && 0 <= m1 < rounds[t1].len() && 0 <= m2 < rounds[t2].len()
                    ==> #[trigger] rounds[t1][m1] != #[trigger] rounds[t2][m2]
            &&& !stuck ==> forall|j: int| 0 <= j < dag.len() ==> #[trigger] done_after(start, rounds)[j]
            &&& stuck ==> (exists|j: int| 0 <= j < dag.len() && !#[trigger] done_after(start, rounds)[j])
                && forall|i: int| 0 <= i < dag.len() ==> !ready(dag, done_after(start, rounds), i)
        }),
{
    let start = Seq::new(dag.len(), |_i: int| false);
    lemma_rounds_respect_requirements(dag, start);
    lemma_rounds_end(dag, start);
    let rounds = schedule_spec(dag).0;
    assert forall|t1: int, m1: int, t2: int, m2: int|
        0 <= t1 < t2 < rounds.len() && 0 <= m1 < rounds[t1].len() && 0 <= m2 < rounds[t2].len()
            implies #[trigger] rounds[t1][m1] != #[trigger] rounds[t2][m2] by {
        let x = rounds[t1][m1];
        assert(rounds.take(t2)[t1] == rounds[t1]);
        assert(rounds.take(t2)[t1][m1] == x);
        assert(rounds.take(t2)[t1].contains(x));
        lemma_done_after_marks(start, rounds.take(t2), t1, x);
        assert(ready(dag, done_after(start, rounds.take(t2)), rounds[t2][m2]));
    }
}

/// Every requirement of every block is met by a block of lower rank: the
/// graph has all its requirements defined and no cycle, and `rank` orders
/// it.
pub open spec fn ranked(dag: Seq<TokenBlock>, rank: spec_fn(int) -> nat) -> bool {
    forall|i: int, k: int|
        0 <= i < dag.len() && 0 <= k < required_ids(dag[i]).len() ==> exists|j: int|
            0 <= j < dag.len() && dag[j].id@ == #[trigger] required_ids(dag[i])[k] && rank(j) < rank(i)
}

/// Among the blocks that have not run, one of lowest rank.
proof fn lemma_lowest_pending(done: Seq<bool>, rank: spec_fn(int) -> nat, i: int, bound: nat) -> (low: int)
    requires
        0 <= i < done.len(),
        !done[i],
        rank(i) <= bound,
    ensures
        0 <= low < done.len(),
        !done[low],
        forall|l: int| 0 <= l < done.len() && !done[l] ==> rank(low) <= #[trigger] rank(l),
    decreases bound,
{
    if exists|l: int| 0 <= l < done.len() && !done[l] && #[trigger] rank(l) < rank(i) {
        let l = choose|l: int| 0 <= l < done.len() && !done[l] && #[trigger] rank(l) < rank(i);
        lemma_lowest_pending(done, rank, l, (rank(i) - 1) as nat)
    } else {
        i
    }
}

/// A graph whose requirements are all defined and which has no cycle (one
/// that some ranking orders) is never stuck: every block runs.
pub proof fn lemma_ranked_never_stuck(dag: Seq<TokenBlock>, rank: spec_fn(int) -> nat)
    requires
        ranked(dag, rank),
    ensures
        !schedule_spec(dag).1,
{
    let start = Seq::new(dag.len(), |_i: int| false);
    lemma_rounds_end(dag, start);
    if schedule_spec(dag).1 {
        let end = done_after(start, schedule_spec(dag).0);
        let j = choose|j: int| 0 <= j < dag.len() && !#[trigger] end[j];
        let low = lemma_lowest_pending(end, rank, j, rank(j));
        assert(!ready(dag, end, low));
        let k = choose|k: int|
            0 <= k < required_ids(dag[low]).len() && !has_run(dag, end, #[trigger] required_ids(dag[low])[k]);
        let id = required_ids(dag[low])[k];
        let w = choose|w: int| 0 <= w < dag.len() && dag[w].id@ == id && rank(w) < rank(low);
        if end[w] {
            assert(has_run(dag, end, id));
        }
        assert(rank(low) <= rank(w));
    }
}

/// The views of rounds of block positions.
pub open spec fn rounds_view(rounds: Seq<Vec<usize>>) -> Seq<Seq<int>> {
    rounds.map_values(|v: Vec<usize>| v@.map_values(|x: usize| x as int))
}

fn done_with_id(dag: &Vec<TokenBlock>, done: &Vec<bool>, id: &String) -> (r: bool)
    requires
        done@.len() == dag@.len(),
    ensures
        r == has_run(dag@, done@, id@),
{
    let mut j: usize = 0;
    while j < dag.len()
        invariant
            done@.len() == dag@.len(),
            j <= dag@.len(),
            forall|m: int| 0 <= m < j ==> !(done@[m] && (#[trigger] dag@[m]).id@ == id@),
        decreases dag@.len() - j,
    {
        if done[j] && str_equals(dag[j].id.as_str(), id.as_str()) {
            return true;
        }
        j = j + 1;
    }
    false
}

fn is_ready(dag: &Vec<TokenBlock>, done: &Vec<bool>, i: usize) -> (r: bool)
    requires
        done@.len() == dag@.len(),
        i < dag@.len(),
    ensures
        r == ready(dag@, done@, i as int),
{
    if done[i] {
        return false;
    }
    let reqs = &dag[i].requirements;
    let mut k: usize = 0;
    while k < reqs.len()
        invariant
            done@.len() == dag@.len(),
            i < dag@.len(),
            *reqs == dag@[i as int].requirements,
            !done@[i as int],
            k <= reqs@.len(),
            forall|k2: int|
                0 <= k2 < k ==> has_run(dag@, done@, #[trigger] required_ids(dag@[i as int])[k2]),
        decreases reqs@.len() - k,
    {
        assert(required_ids(dag@[i as int])[k as int] == reqs@[k as int].0@);
        if !done_with_id(dag, done, &reqs[k].0) {
            return false;
        }
        k = k + 1;
    }
    assert(required_ids(dag@[i as int]).len() == reqs@.len());
    true
}

fn ready_round(dag: &Vec<TokenBlock>, done: &Vec<bool>) -> (r: Vec<usize>)
    requires
        done@.len() == dag@.len(),
    ensures
        r@.map_values(|x: usize| x as int) == ready_upto(dag@, done@, dag@.len() as int),
{
    let mut round: Vec<usize> = Vec::new();
    let mut i: usize = 0;
    assert(round@.map_values(|x: usize| x as int) =~= ready_upto(dag@, done@, 0));
    while i < dag.len()
        invariant
            done@.len() == dag@.len(),
            i <= dag@.len(),
            round@.map_values(|x: usize| x as int) == ready_upto(dag@, done@, i as int),
        decreases dag@.len() - i,
    {
        let ghost before = round@.map_values(|x: usize| x as int);
        if is_ready(dag, done, i) {
            round.push(i);
            assert(round@.map_values(|x: usize| x as int) =~= before + seq![i as int]);
        } else {
            assert(before + Seq::<int>::empty() =~= before);
        }
        i = i + 1;
    }
    round
}

/// The order in which the blocks of a graph run: rounds of blocks (by their
/// position in the graph), each block in the first round after all the
/// blocks it requires have run; and whether some blocks can never run (a
/// cycle, or a block that requires one that is not there).
pub fn schedule(dag: &Vec<TokenBlock>) -> (r: (Vec<Vec<usize>>, bool))
    ensures
        (rounds_view(r.0@), r.1) == schedule_spec(dag@),
{
    let n = dag.len();
    let mut done: Vec<bool> = Vec::new();
    while done.len() < n
        invariant
            n == dag@.len(),
            done@.len() <= n,
            forall|j: int| 0 <= j < done@.len() ==> !done@[j],
        decreases n - done@.len(),
    {
        done.push(false);
    }
    assert(done@ =~= Seq::new(dag@.len(), |_i: int| false));
    let mut rounds: Vec<Vec<usize>> = Vec::new();
    loop
        invariant
            n == dag@.len(),
            done@.len() == n,
            schedule_spec(dag@) == ({
                let rest = rounds_from(dag@, done@);
                (rounds_view(rounds@) + rest.0, rest.1)
            }),
        decreases pending(done@),
    {
        proof {
            lemma_pending_zero(done@);
        }
        let mut all_done = true;
        let mut j: usize = 0;
        while j < n
            invariant
                n == dag@.len(),
                done@.len() == n,
                j <= n,
                all_done == forall|m: int| 0 <= m < j ==> done@[m],
            decreases n - j,
        {
            if !done[j] {
                all_done = false;
            }
            j = j + 1;
        }
        if all_done {
            assert(rounds_view(rounds@) + Seq::<Seq<int>>::empty() =~= rounds_view(rounds@));
            return (rounds, false);
        }
        let round = ready_round(dag, &done);
        if round.len() == 0 {
            assert(rounds_view(rounds@) + Seq::<Seq<int>>::empty() =~= rounds_view(rounds@));
            return (rounds, true);
        }
        let ghost rv = round@.map_values(|x: usize| x as int);
        let ghost old_done = done@;
        proof {
            lemma_ready_upto(dag@, done@, dag@.len() as int);
            lemma_round_progress(dag@, done@);
        }
        let mut m: usize = 0;
        while m < round.len()
            invariant
                n == dag@.len(),
                old_done.len() == n,
                done@.len() == n,
                rv == round@.map_values(|x: usize| x as int),
                forall|a: int| 0 <= a < rv.len() ==> 0 <= #[trigger] rv[a] < n,
                m <= round@.len(),
                done@ == mark_done(old_done, rv.take(m as int)),
            decreases round@.len() - m,
        {
            let x = round[m];
            assert(rv[m as int] == x);
            done.set(x, true);
            assert(done@ =~= mark_done(old_done, rv.take(m + 1))) by {
                assert forall|i: int| 0 <= i < n implies done@[i] == (old_done[i] || rv.take(
                    m + 1,
                ).contains(i)) by {
                    if rv.take(m + 1).contains(i) && i != x {
                        let w = choose|w: int| 0 <= w < m + 1 && #[trigger] rv.take(m + 1)[w] == i;
                        assert(rv.take(m as int)[w] == i);
                    }
                    if rv.take(m as int).contains(i) {
                        let w = choose|w: int| 0 <= w < m && #[trigger] rv.take(m as int)[w] == i;
                        assert(rv.take(m + 1)[w] == i);
                    }
                    if i == x {
                        assert(rv.take(m + 1)[m as int] == i);
                    }
                }
            }
            m = m + 1;
        }
        assert(rv.take(round@.len() as int) =~= rv);
        let ghost before = rounds_view(rounds@);
        rounds.push(round);
        assert(rounds_view(rounds@) =~= before.push(rv));
        proof {
            let rest = rounds_from(dag@, done@);
            assert(before + (seq![rv] + rest.0) =~= before.push(rv) + rest.0);
        }
    }
}

// ---------------------------------------------------------------------
// Drawing the graph
// ---------------------------------------------------------------------
/// `a` comes before `b` in the order of `String`s (character by
/// character, a prefix first).
pub open spec fn id_lt(a: Seq<char>, b: Seq<char>) -> bool
    decreases a.len(),
{
    if b.len() == 0 {
        false
    } else if a.len() == 0 {
        true
    } else if a[0] != b[0] {
        (a[0] as u32) < (b[0] as u32)
    } else {
        id_lt(a.drop_first(), b.drop_first())
    }
}

pub proof fn lemma_id_lt_transitive(a: Seq<char>, b: Seq<char>, c: Seq<char>)
    requires
        id_lt(a, b),
        id_lt(b, c),
    ensures
        id_lt(a, c),
    decreases a.len(),
{
    if a.len() > 0 && a[0] == b[0] && b[0] == c[0] {
        lemma_id_lt_transitive(a.drop_first(), b.drop_first(), c.drop_first());
    }
}

pub proof fn lemma_id_lt_irreflexive(a: Seq<char>)
    ensures
        !id_lt(a, a),
    decreases a.len(),
{
    if a.len() > 0 {
        lemma_id_lt_irreflexive(a.drop_first());
    }
}

/// The first position from `k` on whose item comes after `x`, or the
/// length.
pub open spec fn first_after(s: Seq<Seq<char>>, x: Seq<char>, k: int) -> int
    decreases s.len() - k,
{
    if k < 0 || k >= s.len() {
        s.len() as int
    } else if id_lt(x, s[k]) {
        k
    } else {
        first_after(s, x, k + 1)
    }
}

/// `s` sorted by inserting its items one by one, each after the items
/// that do not come after it.
pub open spec fn sort_spec(s: Seq<Seq<char>>) -> Seq<Seq<char>>
    decreases s.len(),
{
    if s.len() == 0 {
        s
    } else {
        let t = sort_spec(s.drop_last());
        t.insert(first_after(t, s.last(), 0), s.last())
    }
}

/// Items in order: none comes after one that follows it.
pub open spec fn sorted_ids(s: Seq<Seq<char>>) -> bool {
    forall|i: int, j: int| 0 <= i < j < s.len() ==> !id_lt(#[trigger] s[j], #[trigger] s[i])
}

proof fn lemma_first_after(s: Seq<Seq<char>>, x: Seq<char>, k: int)
    requires
        0 <= k <= s.len(),
    ensures
        k <= first_after(s, x, k) <= s.len(),
        forall|i: int| k <= i < first_after(s, x, k) ==> !id_lt(x, #[trigger] s[i]),
        first_after(s, x, k) < s.len() ==> id_lt(x, s[first_after(s, x, k)]),
    decreases s.len() - k,
{
    if k < s.len() && !id_lt(x, s[k]) {
        lemma_first_after(s, x, k + 1);
    }
}

/// Sorting gives the same items, in order.
pub proof fn lemma_sort_spec(s: Seq<Seq<char>>)
    ensures
        sort_spec(s).to_multiset() == s.to_multiset(),
        sorted_ids(sort_spec(s)),
        sort_spec(s).len() == s.len(),
    decreases s.len(),
{
    broadcast use vstd::seq_lib::group_to_multiset_ensures;

    if s.len() > 0 {
        let t = sort_spec(s.drop_last());
        let x = s.last();
        lemma_sort_spec(s.drop_last());
        let pos = first_after(t, x, 0);
        lemma_first_after(t, x, 0);
        let r = t.insert(pos, x);
        assert(s =~= s.drop_last().push(x));
        assert forall|i: int, j: int| 0 <= i < j < r.len() implies !id_lt(#[trigger] r[j], #[trigger] r[i]) by {
            if j < pos {
                assert(r[i] == t[i] && r[j] == t[j]);
            } else if j == pos {
                assert(r[i] == t[i]);
            } else if i == pos {
                assert(r[j] == t[j - 1]);
                if id_lt(t[j - 1], x) {
                    if j - 1 > pos {
                        assert(!id_lt(t[j - 1], t[pos]));
                        lemma_id_lt_transitive(t[j - 1], x, t[pos]);
                    } else {
                        lemma_id_lt_transitive(x, t[pos], x);
                        lemma_id_lt_irreflexive(x);
                    }
                }
            } else if i < pos {
                assert(r[i] == t[i] && r[j] == t[j - 1]);
            } else {
                assert(r[i] == t[i - 1] && r[j] == t[j - 1]);
            }
        }
    }
}

/// Whether `a` comes before `b` (see `id_lt`).
fn id_less(a: &String, b: &String) -> (r: bool)
    ensures
        r == id_lt(a@, b@),
{
    let x = crate::text::chars_of(a.as_str());
    let y = crate::text::chars_of(b.as_str());
    let mut k: usize = 0;
    assert(a@.skip(0) =~= a@);
    assert(b@.skip(0) =~= b@);
    while k < x.len() && k < y.len()
        invariant
            k <= x@.len(),
            k <= y@.len(),
            x@ == a@,
            y@ == b@,
            id_lt(a@, b@) == id_lt(a@.skip(k as int), b@.skip(k as int)),
        decreases x@.len() - k,
    {
        if x[k] != y[k] {
            return (x[k] as u32) < (y[k] as u32);
        }
        assert(a@.skip(k as int).drop_first() =~= a@.skip(k as int + 1));
        assert(b@.skip(k as int).drop_first() =~= b@.skip(k as int + 1));
        k = k + 1;
    }
    k < y.len()
}

pub open spec fn ids_view(v: Seq<String>) -> Seq<Seq<char>> {
    v.map_values(|s: String| s@)
}

/// The ids sorted (see `sort_spec`).
pub fn sort_ids(v: &Vec<String>) -> (r: Vec<String>)
    ensures
        ids_view(r@) == sort_spec(ids_view(v@)),
{
    let mut out: Vec<String> = Vec::new();
    let mut k: usize = 0;
    while k < v.len()
        invariant
            k <= v@.len(),
            ids_view(out@) == sort_spec(ids_view(v@).take(k as int)),
        decreases v@.len() - k,
    {
        let x = &v[k];
        let ghost t = ids_view(out@);
        let mut pos: usize = 0;
        while pos < out.len() && !id_less(x, &out[pos])
            invariant
                pos <= out@.len(),
                t == ids_view(out@),
                first_after(t, x@, 0) == first_after(t, x@, pos as int),
            decreases out@.len() - pos,
        {
            pos = pos + 1;
        }
        out.insert(pos, x.clone());
        proof {
            assert(ids_view(v@).take(k as int + 1).drop_last() =~= ids_view(v@).take(k as int));
            assert(ids_view(out@) =~= t.insert(pos as int, x@));
        }
        k = k + 1;
    }
    assert(ids_view(v@).take(v@.len() as int) =~= ids_view(v@));
    out
}

/// How many blocks of `dag[..n]` have an id outside `printed`.
pub open spec fn unprinted(dag: Seq<TokenBlock>, printed: Set<Seq<char>>, n: nat) -> nat
    decreases n,
{
    if n == 0 || n > dag.len() {
        0
    } else {
        unprinted(dag, printed, (n - 1) as nat) + if printed.contains(dag[n - 1].id@) {
            0nat
        } else {
            1nat
        }
    }
}

pub proof fn lemma_unprinted_mono(dag: Seq<TokenBlock>, a: Set<Seq<char>>, b: Set<Seq<char>>, n: nat)
    requires
        a.subset_of(b),
    ensures
        unprinted(dag, b, n) <= unprinted(dag, a, n),
    decreases n,
{
    if n > 0 && n <= dag.len() {
        lemma_unprinted_mono(dag, a, b, (n - 1) as nat);
    }
}

pub proof fn lemma_unprinted_insert(dag: Seq<TokenBlock>, a: Set<Seq<char>>, node: Seq<char>, n: nat)
    requires
        n <= dag.len(),
        exists|j: int| 0 <= j < n && (#[trigger] dag[j]).id@ == node,
        !a.contains(node),
    ensures
        unprinted(dag, a.insert(node), n) < unprinted(dag, a, n),
    decreases n,
{
    lemma_unprinted_mono(dag, a, a.insert(node), (n - 1) as nat);
    if dag[n - 1].id@ != node {
        lemma_unprinted_insert(dag, a, node, (n - 1) as nat);
    }
}

pub open spec fn green() -> Seq<char> {
    "\x1b[32m"@
}

pub open spec fn reset() -> Seq<char> {
    "\x1b[0m"@
}

/// The line drawn for a block: a root in green, any other block behind the
/// prefix of its depth and the connector to its parent.
pub open spec fn node_line(id: Seq<char>, prefix: Seq<char>, is_root: bool, is_last: bool) -> Seq<char> {
    if is_root {
        green() + "Block "@ + id + reset()
    } else {
        prefix + (if is_last {
            "└── "@
        } else {
            "├── "@
        }) + "Block "@ + id + reset()
    }
}

/// The lines drawn for the block `node` and, the first time it is drawn,
/// for the blocks that require it, in order of their ids; and the ids drawn
/// so far.
pub open spec fn tree_spec(
    dag: Seq<TokenBlock>,
    node: Seq<char>,
    prefix: Seq<char>,
    is_root: bool,
    is_last: bool,
    printed: Set<Seq<char>>,
) -> (Seq<Seq<char>>, Set<Seq<char>>)
    decreases unprinted(dag, printed, dag.len()), 0nat, 0nat,
{
    let line = node_line(node, prefix, is_root, is_last);
    if printed.contains(node) || !defines(dag, node) {
        (seq![line], printed)
    } else {
        let p2 = printed.insert(node);
        proof {
            lemma_unprinted_insert(dag, printed, node, dag.len());
        }
        let kids = sort_spec(children(dag, node));
        let inner = if is_root {
            Seq::empty()
        } else {
            prefix + if is_last {
                "    "@
            } else {
                "│   "@
            }
        };
        let (ls, p3) = forest_spec(dag, kids, 0, inner, p2);
        (seq![line] + ls, p3)
    }
}

/// The lines drawn for the blocks `kids[k..]`, siblings under `prefix`.
pub open spec fn forest_spec(
    dag: Seq<TokenBlock>,
    kids: Seq<Seq<char>>,
    k: nat,
    prefix: Seq<char>,
    printed: Set<Seq<char>>,
) -> (Seq<Seq<char>>, Set<Seq<char>>)
    decreases unprinted(dag, printed, dag.len()), 1nat, kids.len() - k,
{
    if k >= kids.len() {
        (Seq::empty(), printed)
    } else {
        let (l1, p1) = tree_spec(dag, kids[k as int], prefix, false, k == kids.len() - 1, printed);
        let joined = printed.union(p1);
        proof {
            lemma_unprinted_mono(dag, printed, joined, dag.len());
        }
        let (l2, p2) = forest_spec(dag, kids, k + 1, prefix, joined);
        (l1 + l2, p2)
    }
}

/// Drawing never forgets an id that was drawn.
proof fn lemma_tree_grows(
    dag: Seq<TokenBlock>,
    node: Seq<char>,
    prefix: Seq<char>,
    is_root: bool,
    is_last: bool,
    printed: Set<Seq<char>>,
)
    ensures
        printed.subset_of(tree_spec(dag, node, prefix, is_root, is_last, printed).1),
    decreases unprinted(dag, printed, dag.len()), 0nat, 0nat,
{
    if !(printed.contains(node) || !defines(dag, node)) {
        let p2 = printed.insert(node);
        lemma_unprinted_insert(dag, printed, node, dag.len());
        let kids = sort_spec(children(dag, node));
        let inner = if is_root {
            Seq::empty()
        } else {
            prefix + if is_last {
                "    "@
            } else {
                "│   "@
            }
        };
        lemma_forest_grows(dag, kids, 0, inner, p2);
    }
}

proof fn lemma_forest_grows(
    dag: Seq<TokenBlock>,
    kids: Seq<Seq<char>>,
    k: nat,
    prefix: Seq<char>,
    printed: Set<Seq<char>>,
)
    ensures
        printed.subset_of(forest_spec(dag, kids, k, prefix, printed).1),
    decreases unprinted(dag, printed, dag.len()), 1nat, kids.len() - k,
{
    if k < kids.len() {
        let (l1, p1) = tree_spec(dag, kids[k as int], prefix, false, k == kids.len() - 1, printed);
        lemma_tree_grows(dag, kids[k as int], prefix, false, k == kids.len() - 1, printed);
        let joined = printed.union(p1);
        lemma_unprinted_mono(dag, printed, joined, dag.len());
        lemma_forest_grows(dag, kids, k + 1, prefix, joined);
    }
}

/// The ids drawn, as a set.
pub open spec fn printed_set(v: Seq<String>) -> Set<Seq<char>> {
    Set::new(|x: Seq<char>| ids_view(v).contains(x))
}

fn contains_id(v: &Vec<String>, id: &String) -> (r: bool)
    ensures
        r == printed_set(v@).contains(id@),
{
    let mut k: usize = 0;
    while k < v.len()
        invariant
            k <= v@.len(),
            forall|j: int| 0 <= j < k ==> ids_view(v@)[j] != id@,
        decreases v@.len() - k,
    {
        if str_equals(v[k].as_str(), id.as_str()) {
            assert(ids_view(v@)[k as int] == id@);
            return true;
        }
        k = k + 1;
    }
    false
}

fn string_of_chars(s: &Vec<char>) -> (r: String)
    ensures
        r@ == s@,
{
    crate::text::string_from_chars(s)
}

/// Whether `map` lists, for each block of `dag` in order, its id and the
/// ids of the blocks that require it.
pub open spec fn is_children_map(dag: Seq<TokenBlock>, map: Seq<(String, Vec<String>)>) -> bool {
    &&& map.len() == dag.len()
    &&& forall|i: int|
        0 <= i < map.len() ==> (#[trigger] map[i]).0@ == dag[i].id@ && ids_view(map[i].1@)
            == children(dag, dag[i].id@)
}

/// Draws the block `node` and what hangs under it (see `tree_spec`),
/// appending the lines to `out` and the ids drawn to `printed`.
fn print_tree(
    dag: &Vec<TokenBlock>,
    children_map: &Vec<(String, Vec<String>)>,
    node: &String,
    prefix: &Vec<char>,
    is_root: bool,
    is_last: bool,
    printed: &mut Vec<String>,
    out: &mut Vec<String>,
)
    requires
        is_children_map(dag@, children_map@),
    ensures
        ids_view(final(out)@) == ids_view(old(out)@) + tree_spec(
            dag@,
            node@,
            prefix@,
            is_root,
            is_last,
            printed_set(old(printed)@),
        ).0,
        printed_set(final(printed)@) == tree_spec(
            dag@,
            node@,
            prefix@,
            is_root,
            is_last,
            printed_set(old(printed)@),
        ).1,
    decreases unprinted(dag@, printed_set(old(printed)@), dag@.len() as nat),
{
    let ghost start = printed_set(printed@);
    let mut line: Vec<char> = Vec::new();
    if is_root {
        crate::interpreter::push_str(&mut line, "\x1b[32m");
    } else {
        let mut k: usize = 0;
        while k < prefix.len()
            invariant
                k <= prefix@.len(),
                line@ == prefix@.take(k as int),
            decreases prefix@.len() - k,
        {
            line.push(prefix[k]);
            k = k + 1;
            assert(line@ =~= prefix@.take(k as int));
        }
        assert(prefix@.take(prefix@.len() as int) =~= prefix@);
        if is_last {
            crate::interpreter::push_str(&mut line, "└── ");
        } else {
            crate::interpreter::push_str(&mut line, "├── ");
        }
    }
    crate::interpreter::push_str(&mut line, "Block ");
    crate::interpreter::push_str(&mut line, node.as_str());
    crate::interpreter::push_str(&mut line, "\x1b[0m");
    assert(line@ =~= node_line(node@, prefix@, is_root, is_last));
    let ghost out_before = ids_view(out@);
    out.push(string_of_chars(&line));
    assert(ids_view(out@) =~= out_before.push(node_line(node@, prefix@, is_root, is_last)));
    if contains_id(printed, node) {
        assert(ids_view(out@) =~= out_before + seq![node_line(node@, prefix@, is_root, is_last)]);
        return;
    }
    let p = match position_of(dag, node) {
        Some(p) => p,
        None => {
            assert(ids_view(out@) =~= out_before + seq![node_line(node@, prefix@, is_root, is_last)]);
            return;
        },
    };
    let ghost printed_before = printed@;
    printed.push(node.clone());
    assert forall|x: Seq<char>| #[trigger] printed_set(printed@).contains(x) == start.insert(node@).contains(x) by {
        let a = ids_view(printed_before);
        let b = ids_view(printed@);
        assert(b =~= a.push(node@));
        if a.contains(x) {
            let j = choose|j: int| 0 <= j < a.len() && a[j] == x;
            assert(b[j] == x);
        }
        if x == node@ {
            assert(b[a.len() as int] == x);
        }
        if b.contains(x) {
            let j = choose|j: int| 0 <= j < b.len() && b[j] == x;
            if j < a.len() {
                assert(a[j] == x);
            }
        }
    }
    assert(printed_set(printed@) =~= start.insert(node@));
    proof {
        lemma_unprinted_insert(dag@, start, node@, dag@.len() as nat);
    }
    let kids = sort_ids(&children_map[p].1);
    let mut inner: Vec<char> = Vec::new();
    if !is_root {
        let mut k: usize = 0;
        while k < prefix.len()
            invariant
                k <= prefix@.len(),
                inner@ == prefix@.take(k as int),
            decreases prefix@.len() - k,
        {
            inner.push(prefix[k]);
            k = k + 1;
            assert(inner@ =~= prefix@.take(k as int));
        }
        assert(prefix@.take(prefix@.len() as int) =~= prefix@);
        if is_last {
            crate::interpreter::push_str(&mut inner, "    ");
        } else {
            crate::interpreter::push_str(&mut inner, "│   ");
        }
    }
    let ghost kv = ids_view(kids@);
    let ghost p2 = start.insert(node@);
    let ghost iv = inner@;
    assert(kv == sort_spec(children(dag@, node@)));
    assert(iv == (if is_root {
        Seq::<char>::empty()
    } else {
        prefix@ + if is_last {
            "    "@
        } else {
            "│   "@
        }
    }));
    let ghost whole = forest_spec(dag@, kv, 0, iv, p2);
    let ghost lines_start = ids_view(out@);
    let mut k: usize = 0;
    while k < kids.len()
        invariant
            k <= kids@.len(),
            kv == ids_view(kids@),
            iv == inner@,
            is_children_map(dag@, children_map@),
            p2.subset_of(printed_set(printed@)),
            start == printed_set(old(printed)@),
            unprinted(dag@, p2, dag@.len() as nat) < unprinted(dag@, start, dag@.len() as nat),
            whole.1 == forest_spec(dag@, kv, k as nat, iv, printed_set(printed@)).1,
            lines_start + whole.0 == ids_view(out@) + forest_spec(dag@, kv, k as nat, iv, printed_set(printed@)).0,
        decreases kids@.len() - k,
    {
        let ghost cur = printed_set(printed@);
        let ghost out_now = ids_view(out@);
        proof {
            lemma_unprinted_mono(dag@, p2, cur, dag@.len() as nat);
            lemma_tree_grows(dag@, kv[k as int], iv, false, k == kids@.len() - 1, cur);
        }
        let child_last = k + 1 == kids.len();
        print_tree(dag, children_map, &kids[k], &inner, false, child_last, printed, out);
        proof {
            let (l1, p1) = tree_spec(dag@, kv[k as int], iv, false, k == kids@.len() - 1, cur);
            assert(cur.union(p1) =~= p1);
            assert(ids_view(out@) =~= out_now + l1);
            let rest = forest_spec(dag@, kv, (k + 1) as nat, iv, p1);
            assert(out_now + (l1 + rest.0) =~= (out_now + l1) + rest.0);
        }
        k = k + 1;
    }
    proof {
        assert(ids_view(out@) + Seq::<Seq<char>>::empty() =~= ids_view(out@));
        assert(lines_start =~= out_before.push(node_line(node@, prefix@, is_root, is_last)));
        assert(ids_view(out@) =~= out_before + (seq![node_line(node@, prefix@, is_root, is_last)] + whole.0));
    }
}

/// Whether the block at `q` requires some block of the graph.
pub open spec fn is_child(dag: Seq<TokenBlock>, q: int) -> bool {
    exists|k: int| 0 <= k < required_ids(dag[q]).len() && defines(dag, #[trigger] required_ids(dag[q])[k])
}

/// The ids of the blocks among `dag[..n]` that require no block of the
/// graph, in order.
pub open spec fn root_ids_upto(dag: Seq<TokenBlock>, n: nat) -> Seq<Seq<char>>
    decreases n,
{
    if n == 0 || n > dag.len() {
        Seq::empty()
    } else {
        root_ids_upto(dag, (n - 1) as nat) + if is_child(dag, n - 1) {
            Seq::empty()
        } else {
            seq![dag[n - 1].id@]
        }
    }
}

/// The blocks the drawing starts from, sorted: those that require no block
/// of the graph, or, where every block requires one, all of them.
pub open spec fn roots_spec(dag: Seq<TokenBlock>) -> Seq<Seq<char>> {
    let r = root_ids_upto(dag, dag.len());
    if r.len() == 0 {
        sort_spec(dag.map_values(|b: TokenBlock| b.id@))
    } else {
        sort_spec(r)
    }
}

/// The lines drawn for the trees of `roots[k..]`.
pub open spec fn roots_forest(dag: Seq<TokenBlock>, roots: Seq<Seq<char>>, k: nat, printed: Set<Seq<char>>) -> (
    Seq<Seq<char>>,
    Set<Seq<char>>,
)
    decreases roots.len() - k,
{
    if k >= roots.len() {
        (Seq::empty(), printed)
    } else {
        let (l1, p1) = tree_spec(dag, roots[k as int], Seq::empty(), true, k == roots.len() - 1, printed);
        let (l2, p2) = roots_forest(dag, roots, k + 1, p1);
        (l1 + l2, p2)
    }
}

/// The drawing of a graph: a title, then the tree of each root, each block
/// with the blocks that require it below it; a block drawn before is drawn
/// again without what hangs under it.
pub open spec fn dag_lines_spec(dag: Seq<TokenBlock>) -> Seq<Seq<char>> {
    seq![green() + "DAG:"@ + reset() + " "@] + roots_forest(dag, roots_spec(dag), 0, Set::empty()).0
}

fn requires_some_block(dag: &Vec<TokenBlock>, q: usize) -> (r: bool)
    requires
        q < dag@.len(),
    ensures
        r == is_child(dag@, q as int),
{
    let reqs = &dag[q].requirements;
    let mut k: usize = 0;
    while k < reqs.len()
        invariant
            k <= reqs@.len(),
            *reqs == dag@[q as int].requirements,
            q < dag@.len(),
            forall|m: int| 0 <= m < k ==> !defines(dag@, #[trigger] required_ids(dag@[q as int])[m]),
        decreases reqs@.len() - k,
    {
        assert(required_ids(dag@[q as int])[k as int] == reqs@[k as int].0@);
        if position_of(dag, &reqs[k].0).is_some() {
            return true;
        }
        k = k + 1;
    }
    false
}

/// The lines that draw the graph (see `dag_lines_spec`).
pub fn dag_lines(dag: &Vec<TokenBlock>) -> (lines: Vec<String>)
    ensures
        ids_view(lines@) == dag_lines_spec(dag@),
{
    let children_map = build_children_map(dag);
    assert(is_children_map(dag@, children_map@));
    let mut candidates: Vec<String> = Vec::new();
    let mut q: usize = 0;
    while q < dag.len()
        invariant
            q <= dag@.len(),
            ids_view(candidates@) == root_ids_upto(dag@, q as nat),
        decreases dag@.len() - q,
    {
        if !requires_some_block(dag, q) {
            let ghost before = ids_view(candidates@);
            candidates.push(dag[q].id.clone());
            assert(ids_view(candidates@) =~= before + seq![dag@[q as int].id@]);
        } else {
            assert(root_ids_upto(dag@, (q + 1) as nat) =~= root_ids_upto(dag@, q as nat));
        }
        q = q + 1;
    }
    if candidates.len() == 0 {
        let mut j: usize = 0;
        while j < dag.len()
            invariant
                j <= dag@.len(),
                ids_view(candidates@) == dag@.map_values(|b: TokenBlock| b.id@).take(j as int),
            decreases dag@.len() - j,
        {
            let ghost before = ids_view(candidates@);
            candidates.push(dag[j].id.clone());
            assert(ids_view(candidates@) =~= before.push(dag@[j as int].id@));
            assert(ids_view(candidates@) =~= dag@.map_values(|b: TokenBlock| b.id@).take(j as int + 1));
            j = j + 1;
        }
        assert(dag@.map_values(|b: TokenBlock| b.id@).take(dag@.len() as int) =~= dag@.map_values(
            |b: TokenBlock| b.id@,
        ));
    }
    let roots = sort_ids(&candidates);
    assert(ids_view(roots@) == roots_spec(dag@));
    let mut out: Vec<String> = Vec::new();
    let mut title: Vec<char> = Vec::new();
    crate::interpreter::push_str(&mut title, "\x1b[32m");
    crate::interpreter::push_str(&mut title, "DAG:");
    crate::interpreter::push_str(&mut title, "\x1b[0m");
    crate::interpreter::push_str(&mut title, " ");
    out.push(string_of_chars(&title));
    let ghost rv = ids_view(roots@);
    let ghost whole = roots_forest(dag@, rv, 0, Set::empty());
    let ghost title_line = green() + "DAG:"@ + reset() + " "@;
    assert(title@ =~= title_line);
    let mut printed: Vec<String> = Vec::new();
    assert(printed_set(printed@) =~= Set::<Seq<char>>::empty());
    assert(ids_view(out@) =~= seq![title_line]);
    let empty: Vec<char> = Vec::new();
    let mut k: usize = 0;
    while k < roots.len()
        invariant
            k <= roots@.len(),
            rv == ids_view(roots@),
            empty@ == Seq::<char>::empty(),
            is_children_map(dag@, children_map@),
            whole.1 == roots_forest(dag@, rv, k as nat, printed_set(printed@)).1,
            seq![title_line] + whole.0 == ids_view(out@) + roots_forest(dag@, rv, k as nat, printed_set(printed@)).0,
        decreases roots@.len() - k,
    {
        let ghost cur = printed_set(printed@);
        let ghost out_now = ids_view(out@);
        let last = k + 1 == roots.len();
        print_tree(dag, &children_map, &roots[k], &empty, true, last, &mut printed, &mut out);
        proof {
            let (l1, p1) = tree_spec(dag@, rv[k as int], Seq::empty(), true, k == roots@.len() - 1, cur);
            assert(ids_view(out@) =~= out_now + l1);
            let rest = roots_forest(dag@, rv, (k + 1) as nat, p1);
            assert(out_now + (l1 + rest.0) =~= (out_now + l1) + rest.0);
        }
        k = k + 1;
    }
    assert(ids_view(out@) + Seq::<Seq<char>>::empty() =~= ids_view(out@));
    out
}

} // verus!
