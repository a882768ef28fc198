use dedup_cache::scoped::ScopedCache;
use dedup_cache::select::filter_candidates;
use dedup_cache::select::pick_best;
use dedup_cache::select::Candidate;

fn item(id: u64, up: i64, down: i64, deleted: bool) -> Candidate {
    Candidate { id, up, down, deleted }
}

#[test]
fn filter_drops_deleted_and_seen() {
    let mut cache = ScopedCache::new(4);
    cache.insert(1, 100);
    let page = vec![
        item(100, 5, 0, false), // seen in scope 1
        item(101, 4, 0, true),  // deleted
        item(102, 3, 0, false),
        item(103, 2, 0, false),
    ];
    let kept = filter_candidates(&page, &cache, 1);
    assert_eq!(kept.len(), 2);
    assert_eq!(kept[0].id, 102);
    assert_eq!(kept[1].id, 103);
    // a different scope never saw 100
    let kept_elsewhere = filter_candidates(&page, &cache, 2);
    assert_eq!(kept_elsewhere.len(), 3);
    assert_eq!(kept_elsewhere[0].id, 100);
}

#[test]
fn pick_best_takes_highest_score() {
    let page = vec![
        item(1, 10, 4, false),  // score 6
        item(2, 30, 2, false),  // score 28
        item(3, 20, 15, false), // score 5
    ];
    assert_eq!(pick_best(&page), Some(1));
}

#[test]
fn pick_best_breaks_ties_towards_the_last() {
    let page = vec![
        item(1, 7, 0, false),
        item(2, 8, 1, false),
        item(3, 3, -4, false),
        item(4, 0, 0, false),
    ];
    assert_eq!(pick_best(&page), Some(2));
}

#[test]
fn pick_best_of_nothing_is_nothing() {
    let page: Vec<Candidate> = Vec::new();
    assert_eq!(pick_best(&page), None);
}

#[test]
fn pick_best_handles_extreme_votes() {
    let page = vec![
        item(1, i64::MAX, i64::MIN, false),
        item(2, i64::MAX, 0, false),
    ];
    assert_eq!(pick_best(&page), Some(0));
}
