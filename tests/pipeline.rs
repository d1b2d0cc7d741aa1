use hn::history::{history_bytes, parse_history};
use hn::pipeline::{
    clamp_limit, collect_entries, limit_from_arg, plan_fetches, prior_history, take_top,
    updated_history, Candidate, FetchOutcome, RankedEntry, Story,
};

fn story(id: u32) -> Story {
    Story {
        by: format!("user{}", id),
        descendants: id % 7,
        id,
        score: id * 2,
        title: format!("Story {}", id),
    }
}

fn fetch_all(cands: &[Candidate]) -> Vec<FetchOutcome> {
    cands.iter().map(|c| FetchOutcome::Fetched(story(c.id))).collect()
}

fn ranks_and_ids(entries: &[RankedEntry]) -> Vec<(usize, u32)> {
    entries.iter().map(|e| (e.rank, e.story.id)).collect()
}

/// One run as the program performs it, on a given top list and stored history.
fn run(
    upstream: Vec<u32>,
    limit: usize,
    dedup: bool,
    stored: Option<Vec<u8>>,
    fetch: impl Fn(&Candidate) -> FetchOutcome,
) -> (Vec<RankedEntry>, Vec<u8>) {
    let stored = if dedup { stored } else { None };
    let loaded = stored.and_then(|t| parse_history(&t));
    let history = prior_history(dedup, loaded);
    let top = take_top(upstream, limit);
    let cands = plan_fetches(&top, &history, dedup);
    let outcomes: Vec<FetchOutcome> = cands.iter().map(|c| fetch(c)).collect();
    let entries = collect_entries(&cands, outcomes);
    let new_history = updated_history(history, &cands);
    (entries, history_bytes(&new_history))
}

#[test]
fn first_run_without_dedup_shows_all_and_stores_them() {
    let (entries, text) = run(
        vec![101, 102, 103],
        3,
        false,
        Some(b"5\n6".to_vec()),
        |c| FetchOutcome::Fetched(story(c.id)),
    );
    assert_eq!(ranks_and_ids(&entries), vec![(0, 101), (1, 102), (2, 103)]);
    let shown: Vec<usize> = entries.iter().map(|e| e.rank + 1).collect();
    assert_eq!(shown, vec![1, 2, 3]);
    assert_eq!(text, b"101\n102\n103".to_vec());
}

#[test]
fn second_run_with_dedup_shows_only_new() {
    let (entries, text) = run(
        vec![102, 104, 105],
        3,
        true,
        Some(b"101\n102\n103".to_vec()),
        |c| FetchOutcome::Fetched(story(c.id)),
    );
    assert_eq!(ranks_and_ids(&entries), vec![(1, 104), (2, 105)]);
    assert_eq!(text, b"101\n102\n103\n104\n105".to_vec());
}

#[test]
fn missing_history_with_dedup_shows_everything() {
    let (entries, text) = run(vec![1, 2, 3], 10, true, None, |c| {
        FetchOutcome::Fetched(story(c.id))
    });
    assert_eq!(ranks_and_ids(&entries), vec![(0, 1), (1, 2), (2, 3)]);
    assert_eq!(text, b"1\n2\n3".to_vec());
}

#[test]
fn malformed_history_with_dedup_shows_everything() {
    let (entries, text) = run(vec![1, 2], 10, true, Some(b"1\nx".to_vec()), |c| {
        FetchOutcome::Fetched(story(c.id))
    });
    assert_eq!(ranks_and_ids(&entries), vec![(0, 1), (1, 2)]);
    assert_eq!(text, b"1\n2".to_vec());
}

#[test]
fn two_runs_without_dedup_agree() {
    let upstream = vec![9, 8, 7, 6];
    let (first, text1) = run(upstream.clone(), 4, false, None, |c| {
        FetchOutcome::Fetched(story(c.id))
    });
    let (second, text2) = run(upstream, 4, false, Some(text1.clone()), |c| {
        FetchOutcome::Fetched(story(c.id))
    });
    assert_eq!(ranks_and_ids(&first), ranks_and_ids(&second));
    assert_eq!(ranks_and_ids(&first), vec![(0, 9), (1, 8), (2, 7), (3, 6)]);
    assert_eq!(text1, text2);
}

#[test]
fn ranks_keep_gaps_of_seen_stories() {
    let top = vec![10, 20, 30, 40];
    let cands = plan_fetches(&top, &[20, 40], true);
    assert_eq!(cands, vec![Candidate { rank: 0, id: 10 }, Candidate { rank: 2, id: 30 }]);
    let entries = collect_entries(&cands, fetch_all(&cands));
    assert_eq!(ranks_and_ids(&entries), vec![(0, 10), (2, 30)]);
}

#[test]
fn seen_stories_never_shown_with_dedup() {
    let top = vec![5, 6, 7, 8, 9];
    let history = vec![6, 9, 100];
    let cands = plan_fetches(&top, &history, true);
    let entries = collect_entries(&cands, fetch_all(&cands));
    for e in &entries {
        assert!(!history.contains(&e.story.id));
        assert!(!history.contains(&top[e.rank]));
    }
    assert_eq!(ranks_and_ids(&entries), vec![(0, 5), (2, 7), (3, 8)]);
}

#[test]
fn history_ignored_without_dedup() {
    let cands = plan_fetches(&[5, 6], &[5, 6], false);
    assert_eq!(cands, vec![Candidate { rank: 0, id: 5 }, Candidate { rank: 1, id: 6 }]);
}

#[test]
fn failed_fetch_leaves_gap_but_is_remembered() {
    let (entries, text) = run(vec![1, 2, 3], 3, false, None, |c| {
        if c.id == 2 {
            FetchOutcome::Skipped(c.id, String::from("deleted"))
        } else {
            FetchOutcome::Fetched(story(c.id))
        }
    });
    assert_eq!(ranks_and_ids(&entries), vec![(0, 1), (2, 3)]);
    assert_eq!(text, b"1\n2\n3".to_vec());
}

#[test]
fn entries_carry_whole_story() {
    let cands = vec![Candidate { rank: 4, id: 77 }];
    let entries = collect_entries(&cands, vec![FetchOutcome::Fetched(story(77))]);
    assert_eq!(entries.len(), 1);
    assert_eq!(entries[0].rank, 4);
    assert_eq!(entries[0].story.title, "Story 77");
    assert_eq!(entries[0].story.by, "user77");
    assert_eq!(entries[0].story.score, 154);
    assert_eq!(entries[0].story.descendants, 0);
}

#[test]
fn empty_top_list_gives_nothing_and_keeps_history() {
    let (entries, text) = run(vec![], 10, true, Some(b"1\n2".to_vec()), |c| {
        FetchOutcome::Fetched(story(c.id))
    });
    assert!(entries.is_empty());
    assert_eq!(text, b"1\n2".to_vec());
}

#[test]
fn top_list_is_cut_to_limit() {
    let all: Vec<u32> = (1..=150).collect();
    for limit in 1..=99usize {
        let top = take_top(all.clone(), limit);
        assert!(top.len() <= limit);
        assert_eq!(top, (1..=limit as u32).collect::<Vec<u32>>());
    }
    assert_eq!(take_top(vec![1, 2], 10), vec![1, 2]);
}

#[test]
fn limit_is_clamped() {
    assert_eq!(clamp_limit(0), 1);
    assert_eq!(clamp_limit(1), 1);
    assert_eq!(clamp_limit(42), 42);
    assert_eq!(clamp_limit(99), 99);
    assert_eq!(clamp_limit(100), 99);
    assert_eq!(clamp_limit(usize::MAX), 99);
}

#[test]
fn limit_read_from_argument() {
    assert_eq!(limit_from_arg(None), 10);
    assert_eq!(limit_from_arg(Some(&b"5"[..])), 5);
    assert_eq!(limit_from_arg(Some(&b"0"[..])), 1);
    assert_eq!(limit_from_arg(Some(&b"250"[..])), 99);
    assert_eq!(limit_from_arg(Some(&b"abc"[..])), 10);
    assert_eq!(limit_from_arg(Some(&b"-3"[..])), 10);
    assert_eq!(limit_from_arg(Some(&b"99999999999999999999999"[..])), 10);
}

#[test]
fn prior_history_only_with_dedup() {
    assert_eq!(prior_history(true, Some(vec![1, 2])), vec![1, 2]);
    assert_eq!(prior_history(true, None), Vec::<u32>::new());
    assert_eq!(prior_history(false, Some(vec![1, 2])), Vec::<u32>::new());
}

#[test]
fn history_grows_by_fetched_ids() {
    let cands = vec![Candidate { rank: 1, id: 104 }, Candidate { rank: 2, id: 105 }];
    assert_eq!(updated_history(vec![101, 102, 103], &cands), vec![101, 102, 103, 104, 105]);
}
