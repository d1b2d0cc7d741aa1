use vstd::prelude::*;
use crate::decimal::{parse_bounded, parse_bounded_spec};

verus! {

/// Fewest top stories one run requests.
pub const MIN_LIMIT: usize = 1;

/// Most top stories one run requests.
pub const MAX_LIMIT: usize = 99;

/// Number of top stories requested when none is given.
pub const DEFAULT_LIMIT: usize = 10;

/// A story as the ranking service describes it.
#[derive(Debug)]
pub struct Story {
    pub by: String,
    pub descendants: u32,
    pub id: u32,
    pub score: u32,
    pub title: String,
}

/// A story identifier of the top list that is to be fetched, with its
/// zero-based position in that list.
#[derive(Clone, Copy, Debug, PartialEq, Eq, Structural)]
pub struct Candidate {
    pub rank: usize,
    pub id: u32,
}

/// A fetched story with its zero-based position in the top list it came from.
#[derive(Debug)]
pub struct RankedEntry {
    pub rank: usize,
    pub story: Story,
}

/// What became of fetching one story.
#[derive(Debug)]
pub enum FetchOutcome {
    /// The story record arrived.
    Fetched(Story),
    /// It did not: the identifier asked for and why.
    Skipped(u32, String),
}

/// `n` brought into the range of allowed limits.
pub open spec fn clamp_spec(n: nat) -> nat {
    if n < MIN_LIMIT {
        MIN_LIMIT as nat
    } else if n > MAX_LIMIT {
        MAX_LIMIT as nat
    } else {
        n
    }
}

/// The limit that the text `arg` asks for: its number brought into range, or
/// the default where there is no text or it is no number.
pub open spec fn limit_spec(arg: Option<Seq<u8>>) -> nat {
    match arg {
        None => DEFAULT_LIMIT as nat,
        Some(a) => match parse_bounded_spec(a, usize::MAX as nat) {
            Some(v) => clamp_spec(v),
            None => DEFAULT_LIMIT as nat,
        },
    }
}

/// Brings `n` into the range of allowed limits.
pub fn clamp_limit(n: usize) -> (r: usize)
    ensures
        r as nat == clamp_spec(n as nat),
        MIN_LIMIT <= r <= MAX_LIMIT,
{
    if n < MIN_LIMIT {
        MIN_LIMIT
    } else if n > MAX_LIMIT {
        MAX_LIMIT
    } else {
        n
    }
}

/// The limit that a count given as text asks for.
pub fn limit_from_arg(arg: Option<&[u8]>) -> (r: usize)
    ensures
        r as nat == limit_spec(
            match arg {
                None => None,
                Some(a) => Some(a@),
            },
        ),
        MIN_LIMIT <= r <= MAX_LIMIT,
{
    match arg {
        None => DEFAULT_LIMIT,
        Some(a) => match parse_bounded(a, usize::MAX as u64) {
            Some(v) => clamp_limit(v as usize),
            None => DEFAULT_LIMIT,
        },
    }
}

/// The first `limit` identifiers of the top list `all`, in its order.
pub fn take_top(all: Vec<u32>, limit: usize) -> (r: Vec<u32>)
    ensures
        r@ == all@.take(if limit < all@.len() { limit as int } else { all@.len() as int }),
        r@.len() <= limit,
{
    let mut r = all;
    let ghost before = r@;
    if limit < r.len() {
        r.truncate(limit);
        assert(r@ =~= before.take(limit as int));
    } else {
        assert(r@ =~= before.take(before.len() as int));
    }
    r
}

/// The history a run starts from: what was loaded, when only unseen stories
/// are wanted; otherwise nothing, since the history is reset.
pub open spec fn prior_history_spec(dedup: bool, loaded: Option<Seq<u32>>) -> Seq<u32> {
    match loaded {
        Some(ids) if dedup => ids,
        _ => Seq::<u32>::empty(),
    }
}

/// The history a run starts from; a history that could not be loaded counts
/// as empty.
pub fn prior_history(dedup: bool, loaded: Option<Vec<u32>>) -> (r: Vec<u32>)
    ensures
        r@ == prior_history_spec(
            dedup,
            match loaded {
                None => None,
                Some(v) => Some(v@),
            },
        ),
{
    match loaded {
        Some(ids) if dedup => ids,
        _ => Vec::new(),
    }
}

/// The stories of `top` to fetch, each with its position in `top`, in order:
/// all of them, or, where `dedup` holds, those that `history` lacks.
pub open spec fn plan_spec(top: Seq<u32>, history: Seq<u32>, dedup: bool) -> Seq<Candidate>
    decreases top.len(),
{
    if top.len() == 0 {
        Seq::<Candidate>::empty()
    } else {
        let prev = plan_spec(top.drop_last(), history, dedup);
        if dedup && history.contains(top.last()) {
            prev
        } else {
            prev.push(Candidate { rank: (top.len() - 1) as usize, id: top.last() })
        }
    }
}

/// Whether `id` is among `history`.
fn seen(history: &[u32], id: u32) -> (r: bool)
    ensures
        r == history@.contains(id),
{
    let mut i: usize = 0;
    while i < history.len()
        invariant
            i <= history@.len(),
            forall|k: int| 0 <= k < i ==> history@[k] != id,
        decreases history.len() - i,
    {
        if history[i] == id {
            assert(history@[i as int] == id);
            return true;
        }
        i = i + 1;
    }
    false
}

/// The stories of the top list to fetch, with their ranks.
pub fn plan_fetches(top: &[u32], history: &[u32], dedup: bool) -> (r: Vec<Candidate>)
    ensures
        r@ == plan_spec(top@, history@, dedup),
{
    let mut r: Vec<Candidate> = Vec::new();
    let mut i: usize = 0;
    while i < top.len()
        invariant
            i <= top@.len(),
            r@ == plan_spec(top@.take(i as int), history@, dedup),
        decreases top.len() - i,
    {
        let ghost t = top@.take(i + 1);
        assert(t.drop_last() =~= top@.take(i as int));
        assert(t.last() == top@[i as int]);
        let id = top[i];
        if !(dedup && seen(history, id)) {
            r.push(Candidate { rank: i, id });
        }
        i = i + 1;
    }
    assert(top@.take(top@.len() as int) =~= top@);
    r
}

/// The ranked entries that the outcomes `outs` of fetching `cands` give, in
/// order: one for each story that arrived, with the rank of its candidate.
pub open spec fn entries_spec(cands: Seq<Candidate>, outs: Seq<FetchOutcome>) -> Seq<RankedEntry>
    decreases cands.len(),
{
    if cands.len() == 0 {
        Seq::<RankedEntry>::empty()
    } else {
        let prev = entries_spec(cands.drop_last(), outs);
        match outs[cands.len() - 1] {
            FetchOutcome::Fetched(s) => prev.push(RankedEntry { rank: cands.last().rank, story: s }),
            FetchOutcome::Skipped(_, _) => prev,
        }
    }
}

/// Pairs each story that arrived with the rank of the candidate it was
/// fetched for; the outcomes stand in the order of the candidates.
pub fn collect_entries(cands: &[Candidate], outcomes: Vec<FetchOutcome>) -> (r: Vec<RankedEntry>)
    requires
        outcomes@.len() == cands@.len(),
    ensures
        r@ == entries_spec(cands@, outcomes@),
{
    let ghost outs = outcomes@;
    let mut rest = outcomes;
    let mut r: Vec<RankedEntry> = Vec::new();
    let mut i: usize = 0;
    while i < cands.len()
        invariant
            i <= cands@.len(),
            outs.len() == cands@.len(),
            rest@ == outs.skip(i as int),
            r@ == entries_spec(cands@.take(i as int), outs),
        decreases cands.len() - i,
    {
        let ghost c = cands@.take(i + 1);
        assert(c.drop_last() =~= cands@.take(i as int));
        assert(c.last() == cands@[i as int]);
        let out = rest.remove(0);
        assert(out == outs[i as int]);
        match out {
            FetchOutcome::Fetched(story) => {
                r.push(RankedEntry { rank: cands[i].rank, story });
            },
            FetchOutcome::Skipped(_, _) => {},
        }
        assert(rest@ =~= outs.skip(i + 1));
        i = i + 1;
    }
    assert(cands@.take(cands@.len() as int) =~= cands@);
    r
}

/// The identifiers of `cands`, in order.
pub open spec fn candidate_ids(cands: Seq<Candidate>) -> Seq<u32> {
    cands.map_values(|c: Candidate| c.id)
}

/// The history after a run: the prior one, then every identifier that was
/// fetched, whether its story arrived or not.
pub fn updated_history(history: Vec<u32>, cands: &[Candidate]) -> (r: Vec<u32>)
    ensures
        r@ == history@ + candidate_ids(cands@),
{
    let mut r = history;
    let ghost start = r@;
    let mut i: usize = 0;
    while i < cands.len()
        invariant
            i <= cands@.len(),
            r@ == start + candidate_ids(cands@.take(i as int)),
        decreases cands.len() - i,
    {
        r.push(cands[i].id);
        i = i + 1;
        assert(candidate_ids(cands@.take(i as int)) =~= candidate_ids(cands@.take(i - 1)).push(
            cands@[i - 1].id,
        ));
        assert(r@ =~= start + candidate_ids(cands@.take(i as int)));
    }
    assert(cands@.take(cands@.len() as int) =~= cands@);
    r
}

/// Every outcome of fetching `cands` that brought a story brought the one
/// asked for.
pub open spec fn outcomes_match(cands: Seq<Candidate>, outs: Seq<FetchOutcome>) -> bool {
    forall|k: int|
        0 <= k < cands.len() ==> match #[trigger] outs[k] {
            FetchOutcome::Fetched(s) => s.id == cands[k].id,
            FetchOutcome::Skipped(_, _) => true,
        }
}

/// Facts on the planned candidates: each names the identifier at its rank,
/// skips what `dedup` hides, and ranks strictly increase.
proof fn lemma_plan_facts(top: Seq<u32>, history: Seq<u32>, dedup: bool)
    requires
        top.len() <= usize::MAX,
    ensures
        plan_spec(top, history, dedup).len() <= top.len(),
        forall|k: int|
            0 <= k < plan_spec(top, history, dedup).len() ==> {
                let c = #[trigger] plan_spec(top, history, dedup)[k];
                &&& c.rank < top.len()
                &&& c.id == top[c.rank as int]
                &&& !(dedup && history.contains(c.id))
            },
        forall|a: int, b: int|
            0 <= a < b < plan_spec(top, history, dedup).len() ==> (#[trigger] plan_spec(
                top,
                history,
                dedup,
            )[a]).rank < (#[trigger] plan_spec(top, history, dedup)[b]).rank,
    decreases top.len(),
{
    if top.len() > 0 {
        let init = top.drop_last();
        lemma_plan_facts(init, history, dedup);
        let prev = plan_spec(init, history, dedup);
        let p = plan_spec(top, history, dedup);
        assert forall|k: int| 0 <= k < prev.len() implies prev[k].rank < top.len() - 1
            && top[prev[k].rank as int] == init[prev[k].rank as int] by {}
        if !(dedup && history.contains(top.last())) {
            assert forall|k: int| 0 <= k < prev.len() implies p[k] == prev[k] by {}
        }
    }
}

/// Without `dedup` every identifier of the top list is planned, at its own rank.
proof fn lemma_plan_all(top: Seq<u32>, history: Seq<u32>)
    requires
        top.len() <= usize::MAX,
    ensures
        plan_spec(top, history, false).len() == top.len(),
        forall|k: int|
            0 <= k < top.len() ==> #[trigger] plan_spec(top, history, false)[k] == (Candidate {
                rank: k as usize,
                id: top[k],
            }),
    decreases top.len(),
{
    if top.len() > 0 {
        lemma_plan_all(top.drop_last(), history);
    }
}

/// Facts on the entries: each comes from a candidate whose outcome brought
/// its story, and, where candidate ranks strictly increase, so do theirs.
proof fn lemma_entries_facts(cands: Seq<Candidate>, outs: Seq<FetchOutcome>)
    ensures
        forall|j: int|
            0 <= j < entries_spec(cands, outs).len() ==> exists|k: int|
                0 <= k < cands.len() && (#[trigger] entries_spec(cands, outs)[j]).rank
                    == cands[k].rank && outs[k] == FetchOutcome::Fetched(
                    entries_spec(cands, outs)[j].story,
                ),
        (forall|a: int, b: int|
            0 <= a < b < cands.len() ==> (#[trigger] cands[a]).rank < (#[trigger] cands[b]).rank)
            ==> (forall|a: int, b: int|
            0 <= a < b < entries_spec(cands, outs).len() ==> (#[trigger] entries_spec(
                cands,
                outs,
            )[a]).rank < (#[trigger] entries_spec(cands, outs)[b]).rank),
    decreases cands.len(),
{
    if cands.len() > 0 {
        let init = cands.drop_last();
        let n = cands.len() - 1;
        lemma_entries_facts(init, outs);
        let prev = entries_spec(init, outs);
        let e = entries_spec(cands, outs);
        assert forall|j: int| 0 <= j < e.len() implies exists|k: int|
            0 <= k < cands.len() && (#[trigger] e[j]).rank == cands[k].rank && outs[k]
                == FetchOutcome::Fetched(e[j].story) by {
            if j < prev.len() {
                let k = choose|k: int|
                    0 <= k < n && (#[trigger] prev[j]).rank == init[k].rank && outs[k]
                        == FetchOutcome::Fetched(prev[j].story);
                assert(e[j] == prev[j]);
                assert(cands[k] == init[k]);
            } else {
                assert(e[j].rank == cands[n].rank);
            }
        }
        if forall|a: int, b: int|
            0 <= a < b < cands.len() ==> (#[trigger] cands[a]).rank < (#[trigger] cands[b]).rank {
            assert forall|a: int, b: int| 0 <= a < b < e.len() implies (#[trigger] e[a]).rank < (
            #[trigger] e[b]).rank by {
                if b < prev.len() {
                    assert(e[a] == prev[a] && e[b] == prev[b]);
                    assert forall|x: int, y: int| 0 <= x < y < init.len() implies (
                    #[trigger] init[x]).rank < (#[trigger] init[y]).rank by {
                        assert(init[x] == cands[x] && init[y] == cands[y]);
                    }
                } else {
                    let k = choose|k: int|
                        0 <= k < n && (#[trigger] prev[a]).rank == init[k].rank && outs[k]
                            == FetchOutcome::Fetched(prev[a].story);
                    assert(e[a] == prev[a]);
                    assert(init[k] == cands[k]);
                    assert(cands[k].rank < cands[n].rank);
                }
            }
        }
    }
}

/// Ranks are kept: each entry carries the position in the fetched top list
/// of the identifier it was fetched for, not its position among the entries,
/// and the entries come in increasing rank. Where each story that arrived is
/// the one asked for, the entry's story is the one at its rank.
pub proof fn lemma_ranks_kept(
    top: Seq<u32>,
    history: Seq<u32>,
    dedup: bool,
    outs: Seq<FetchOutcome>,
)
    requires
        top.len() <= usize::MAX,
        outs.len() == plan_spec(top, history, dedup).len(),
    ensures
        forall|j: int|
            0 <= j < entries_spec(plan_spec(top, history, dedup), outs).len() ==> {
                let e = #[trigger] entries_spec(plan_spec(top, history, dedup), outs)[j];
                &&& e.rank < top.len()
                &&& outcomes_match(plan_spec(top, history, dedup), outs) ==> e.story.id
                    == top[e.rank as int]
            },
        forall|a: int, b: int|
            0 <= a < b < entries_spec(plan_spec(top, history, dedup), outs).len() ==> (
            #[trigger] entries_spec(plan_spec(top, history, dedup), outs)[a]).rank < (
            #[trigger] entries_spec(plan_spec(top, history, dedup), outs)[b]).rank,
{
    let p = plan_spec(top, history, dedup);
    let e = entries_spec(p, outs);
    lemma_plan_facts(top, history, dedup);
    lemma_entries_facts(p, outs);
    assert forall|j: int| 0 <= j < e.len() implies {
        &&& (#[trigger] e[j]).rank < top.len()
        &&& outcomes_match(p, outs) ==> e[j].story.id == top[e[j].rank as int]
    } by {
        let k = choose|k: int|
            0 <= k < p.len() && (#[trigger] e[j]).rank == p[k].rank && outs[k]
                == FetchOutcome::Fetched(e[j].story);
        assert(p[k].rank < top.len());
        if outcomes_match(p, outs) {
            assert(match outs[k] {
                FetchOutcome::Fetched(s) => s.id == p[k].id,
                FetchOutcome::Skipped(_, _) => true,
            });
        }
    }
}

/// With `dedup`, no entry is for an identifier that the history holds: its
/// rank names no such identifier of the top list, and, where each story that
/// arrived is the one asked for, its story is none of them.
pub proof fn lemma_seen_stay_hidden(top: Seq<u32>, history: Seq<u32>, outs: Seq<FetchOutcome>)
    requires
        top.len() <= usize::MAX,
        outs.len() == plan_spec(top, history, true).len(),
    ensures
        forall|j: int|
            0 <= j < entries_spec(plan_spec(top, history, true), outs).len() ==> {
                let e = #[trigger] entries_spec(plan_spec(top, history, true), outs)[j];
                &&& !history.contains(top[e.rank as int])
                &&& outcomes_match(plan_spec(top, history, true), outs) ==> !history.contains(
                    e.story.id,
                )
            },
{
    let p = plan_spec(top, history, true);
    let e = entries_spec(p, outs);
    lemma_plan_facts(top, history, true);
    lemma_entries_facts(p, outs);
    lemma_ranks_kept(top, history, true, outs);
    assert forall|j: int| 0 <= j < e.len() implies {
        &&& !history.contains(top[(#[trigger] e[j]).rank as int])
        &&& outcomes_match(p, outs) ==> !history.contains(e[j].story.id)
    } by {
        let k = choose|k: int|
            0 <= k < p.len() && (#[trigger] e[j]).rank == p[k].rank && outs[k]
                == FetchOutcome::Fetched(e[j].story);
        assert(top[p[k].rank as int] == p[k].id);
    }
}

/// Runs that reset the history plan the same fetches whatever history they
/// start from (every identifier of the top list, at its own rank), so on the
/// same top list and outcomes they show the same entries in the same order,
/// and each leaves the top list as the new history.
pub proof fn lemma_reset_runs_agree(
    top: Seq<u32>,
    loaded1: Option<Seq<u32>>,
    loaded2: Option<Seq<u32>>,
    outs: Seq<FetchOutcome>,
)
    requires
        top.len() <= usize::MAX,
        outs.len() == top.len(),
    ensures
        prior_history_spec(false, loaded1) == Seq::<u32>::empty(),
        plan_spec(top, prior_history_spec(false, loaded1), false) == plan_spec(
            top,
            prior_history_spec(false, loaded2),
            false,
        ),
        entries_spec(plan_spec(top, prior_history_spec(false, loaded1), false), outs)
            == entries_spec(plan_spec(top, prior_history_spec(false, loaded2), false), outs),
        forall|k: int|
            0 <= k < top.len() ==> #[trigger] plan_spec(top, prior_history_spec(false, loaded1), false)[k]
                == (Candidate { rank: k as usize, id: top[k] }),
        prior_history_spec(false, loaded1) + candidate_ids(
            plan_spec(top, prior_history_spec(false, loaded1), false),
        ) == top,
{
    let h = prior_history_spec(false, loaded1);
    lemma_plan_all(top, h);
    let p = plan_spec(top, h, false);
    assert(h + candidate_ids(p) =~= top);
}

} // verus!
