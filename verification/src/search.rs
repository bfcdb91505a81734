//! The move-search engine: a time-bounded breadth-first search over the
//! transition graph rooted at one board.
//!
//! States are expanded in first-in-first-out order, so the first matching
//! board found lies at minimal action depth: when the search returns a path
//! whose replay holds a match, it is proved that no strictly shorter action
//! sequence reaches a match from the start board. A deduplication list
//! prunes boards already enqueued (membership by full structural equality).
//! When the wall-clock budget runs out, or the reachable space is exhausted,
//! the search falls back to the best-scoring board seen so far and returns
//! its path — proved to strictly beat the start board's score — or the
//! empty path when nothing did ("hold position").
//!
//! How much of the space is explored before the fallback depends on the
//! wall clock, which is outside the model; the loop also carries an explicit
//! step bound so that it provably terminates even if the clock were to
//! stand still.

use crate::board::{replay, spec_apply, Board, BoardModel, Move};
use crate::heuristics::spec_score;
use crate::matching::spec_has_match;
use std::collections::VecDeque;
use std::time::{Duration, Instant};
use vstd::prelude::*;

verus! {

#[verifier::external_type_specification]
#[verifier::external_body]
pub struct ExInstant(Instant);

/// Relies on std::time::Instant::now: an opaque reading of the monotonic
/// wall clock. The value depends on the clock, so nothing is assumed of it.
pub assume_specification[ Instant::now ]() -> (t: Instant);

/// Relies on std::time::Instant::elapsed: the time passed since the reading
/// was taken. The value depends on the clock, so nothing is assumed of it.
pub assume_specification[ Instant::elapsed ](t: &Instant) -> (d: Duration);

/// Relies on std::time::Duration::as_millis: the duration in whole
/// milliseconds. Used only to compare an elapsed time against the budget, so
/// nothing is assumed of the value.
pub assume_specification[ Duration::as_millis ](d: &Duration) -> (ms: u128);

/// Upper bound on breadth-first expansions in one search, so that the search
/// loop provably terminates even with an idle clock. The wall-clock budget
/// fires long before a real search reaches it.
pub const MAX_EXPANSIONS: u64 = 4000000000;

/// Whether some board in the deduplication list has model `x`.
pub open spec fn in_seen(seen: Seq<Board>, x: BoardModel) -> bool {
    exists|k: int| 0 <= k < seen.len() && (#[trigger] seen[k])@ == x
}

/// Whether some frontier entry's board has model `x`.
pub open spec fn in_queue(q: Seq<(Board, Vec<Move>)>, x: BoardModel) -> bool {
    exists|k: int| 0 <= k < q.len() && (#[trigger] q[k]).0@ == x
}

/// No action sequence shorter than `d` reaches `x` from `start`.
pub open spec fn no_shorter(start: BoardModel, x: BoardModel, d: int) -> bool {
    forall|q: Seq<Move>| q.len() < d ==> #[trigger] replay(start, q) != x
}

/// A sound frontier entry: a well-formed, matchless board that is exactly
/// the replay of its path, already recorded in the deduplication list, and
/// not reachable by any shorter path.
pub open spec fn entry_ok(start: BoardModel, seen: Seq<Board>, e: (Board, Vec<Move>)) -> bool {
    &&& e.0@.valid()
    &&& e.0@ == replay(start, e.1@)
    &&& !spec_has_match(e.0@)
    &&& in_seen(seen, e.0@)
    &&& no_shorter(start, e.0@, e.1@.len() as int)
}

/// The deduplication list holds the start board and only well-formed,
/// matchless boards.
pub open spec fn seen_ok(start: BoardModel, seen: Seq<Board>) -> bool {
    &&& in_seen(seen, start)
    &&& forall|k: int|
        0 <= k < seen.len() ==> (#[trigger] seen[k])@.valid() && !spec_has_match(seen[k]@)
}

/// Every recorded board that is no longer on the frontier — with the single
/// possible exception of `except` — has all four successors recorded.
pub open spec fn seen_closed_except(
    q: Seq<(Board, Vec<Move>)>,
    seen: Seq<Board>,
    except: BoardModel,
) -> bool {
    forall|k: int, m: Move|
        0 <= k < seen.len() && !in_queue(q, seen[k]@) && seen[k]@ != except ==> in_seen(
            seen,
            #[trigger] spec_apply(seen[k]@, m),
        )
}

/// Every recorded board that is no longer on the frontier has all four
/// successors recorded.
pub open spec fn seen_closed(q: Seq<(Board, Vec<Move>)>, seen: Seq<Board>) -> bool {
    forall|k: int, m: Move|
        0 <= k < seen.len() && !in_queue(q, seen[k]@) ==> in_seen(
            seen,
            #[trigger] spec_apply(seen[k]@, m),
        )
}

/// Every board reachable within `d` actions is recorded.
pub open spec fn complete_to(start: BoardModel, seen: Seq<Board>, d: int) -> bool {
    forall|p: Seq<Move>| p.len() <= d ==> in_seen(seen, #[trigger] replay(start, p))
}

/// Every reachable board is recorded (the frontier has been exhausted).
pub open spec fn complete_all(start: BoardModel, seen: Seq<Board>) -> bool {
    forall|p: Seq<Move>| in_seen(seen, #[trigger] replay(start, p))
}

/// The search loop's invariant over the frontier and the deduplication
/// list: sound entries in breadth-first order (path lengths nondecreasing
/// and spanning at most two depths), a sound deduplication list closed under
/// expansion away from the frontier, and completeness up to the depth of
/// the frontier's head.
pub open spec fn bfs_inv(start: BoardModel, q: Seq<(Board, Vec<Move>)>, seen: Seq<Board>) -> bool {
    &&& forall|k: int| 0 <= k < q.len() ==> entry_ok(start, seen, #[trigger] q[k])
    &&& forall|i: int, j: int|
        0 <= i <= j < q.len() ==> (#[trigger] q[i]).1@.len() <= (#[trigger] q[j]).1@.len()
    &&& forall|k: int| 0 <= k < q.len() ==> (#[trigger] q[k]).1@.len() <= q[0].1@.len() + 1
    &&& seen_ok(start, seen)
    &&& seen_closed(q, seen)
    &&& if q.len() > 0 {
        complete_to(start, seen, q[0].1@.len() as int)
    } else {
        complete_all(start, seen)
    }
}

/// The loop invariant in the middle of expanding one popped board: the
/// closure may lack the popped board itself, the frontier spans depths `d`
/// to `d + 1`, and completeness holds to the popped depth `d`.
pub open spec fn mid_inv(
    start: BoardModel,
    popped: BoardModel,
    d: int,
    q: Seq<(Board, Vec<Move>)>,
    seen: Seq<Board>,
) -> bool {
    &&& forall|k: int| 0 <= k < q.len() ==> entry_ok(start, seen, #[trigger] q[k])
    &&& forall|i: int, j: int|
        0 <= i <= j < q.len() ==> (#[trigger] q[i]).1@.len() <= (#[trigger] q[j]).1@.len()
    &&& forall|k: int| 0 <= k < q.len() ==> d <= (#[trigger] q[k]).1@.len() <= d + 1
    &&& seen_ok(start, seen)
    &&& seen_closed_except(q, seen, popped)
    &&& complete_to(start, seen, d)
    &&& in_seen(seen, popped)
    &&& !spec_has_match(popped)
}

/// The recorded best path is empty with the start board's own score, or
/// leads to a matchless board that strictly beats that score.
pub open spec fn best_inv(start: BoardModel, hs: i64, hp: Seq<Move>) -> bool {
    &&& hp.len() == 0 ==> hs == spec_score(start)
    &&& hp.len() > 0 ==> hs == spec_score(replay(start, hp)) && hs > spec_score(start)
        && !spec_has_match(replay(start, hp))
}

proof fn lemma_in_seen_prefix(s1: Seq<Board>, s2: Seq<Board>, x: BoardModel)
    requires
        in_seen(s1, x),
        s1.is_prefix_of(s2),
    ensures
        in_seen(s2, x),
{
    let k = choose|k: int| 0 <= k < s1.len() && (#[trigger] s1[k])@ == x;
    assert(s2.subrange(0, s1.len() as int)[k] == s2[k]);
    assert(s2[k]@ == x);
}

/// A deduplication list that contains the start board and is closed under
/// expansion contains every reachable board.
proof fn lemma_complete_all(start: BoardModel, seen: Seq<Board>, p: Seq<Move>)
    requires
        in_seen(seen, start),
        forall|k: int, m: Move|
            0 <= k < seen.len() ==> in_seen(seen, #[trigger] spec_apply(seen[k]@, m)),
    ensures
        in_seen(seen, replay(start, p)),
    decreases p.len(),
{
    if p.len() > 0 {
        lemma_complete_all(start, seen, p.drop_last());
        let x = replay(start, p.drop_last());
        let k = choose|k: int| 0 <= k < seen.len() && (#[trigger] seen[k])@ == x;
        assert(in_seen(seen, spec_apply(seen[k]@, p.last())));
    }
}

/// A structurally equal copy of an action path.
fn clone_path(p: &Vec<Move>) -> (q: Vec<Move>)
    ensures
        q@ == p@,
{
    let mut q: Vec<Move> = Vec::new();
    let mut i: usize = 0;
    while i < p.len()
        invariant
            i <= p@.len(),
            q@ == p@.take(i as int),
        decreases p@.len() - i,
    {
        let m = p[i];
        q.push(m);
        proof {
            assert(p@.take(i + 1) =~= p@.take(i as int).push(p@[i as int]));
        }
        i = i + 1;
    }
    proof {
        assert(p@.take(p@.len() as int) =~= p@);
    }
    q
}

/// Whether a structurally equal board is already in the deduplication list.
fn contains_board(seen: &Vec<Board>, b: &Board) -> (r: bool)
    ensures
        r == in_seen(seen@, b@),
{
    let mut i: usize = 0;
    while i < seen.len()
        invariant
            i <= seen@.len(),
            forall|k: int| 0 <= k < i ==> (#[trigger] seen@[k])@ != b@,
        decreases seen@.len() - i,
    {
        if &seen[i] == b {
            return true;
        }
        i = i + 1;
    }
    false
}

/// Expand one popped board by one action: skip the successor if it was
/// already recorded; return its path at once if it holds a match; otherwise
/// record it, track the best score, and put it on the frontier.
#[verifier::rlimit(100)]
fn expand(
    board: &Board,
    path: &Vec<Move>,
    m: Move,
    queue: &mut VecDeque<(Board, Vec<Move>)>,
    seen: &mut Vec<Board>,
    highest_score: &mut i64,
    highest_path: &mut Vec<Move>,
    Ghost(start): Ghost<BoardModel>,
) -> (found: Option<Vec<Move>>)
    requires
        board@.valid(),
        board@ == replay(start, path@),
        mid_inv(start, board@, path@.len() as int, old(queue)@, old(seen)@),
        best_inv(start, *old(highest_score), old(highest_path)@),
    ensures
        mid_inv(start, board@, path@.len() as int, final(queue)@, final(seen)@),
        best_inv(start, *final(highest_score), final(highest_path)@),
        old(seen)@.is_prefix_of(final(seen)@),
        match found {
            Some(pp) => {
                &&& pp@ == path@.push(m)
                &&& spec_has_match(spec_apply(board@, m))
                &&& final(seen)@ == old(seen)@
                &&& final(queue)@ == old(queue)@
            },
            None => in_seen(final(seen)@, spec_apply(board@, m)),
        },
{
    let ghost d = path@.len() as int;
    let nb = board.do_move(m);
    if !contains_board(seen, &nb) {
        let mut np = clone_path(path);
        np.push(m);
        proof {
            assert(np@.drop_last() =~= path@);
            assert(np@.last() == m);
            assert(nb@ == replay(start, np@));
        }
        if nb.has_match() {
            proof {
                assert(old(seen)@.is_prefix_of(seen@)) by {
                    assert(seen@.subrange(0, old(seen)@.len() as int) =~= seen@);
                }
            }
            return Some(np);
        }
        seen.push(nb.duplicate());
        let ghost s2 = seen@;
        proof {
            assert(s2.drop_last() =~= old(seen)@);
            assert(old(seen)@.is_prefix_of(s2)) by {
                assert(s2.subrange(0, old(seen)@.len() as int) =~= old(seen)@);
            }
            assert(s2[s2.len() - 1]@ == nb@);
            assert(in_seen(s2, nb@));
            assert(in_seen(s2, start)) by {
                lemma_in_seen_prefix(old(seen)@, s2, start);
            }
            assert(in_seen(s2, board@)) by {
                lemma_in_seen_prefix(old(seen)@, s2, board@);
            }
        }
        let ns = nb.score();
        if ns > *highest_score {
            *highest_score = ns;
            *highest_path = clone_path(&np);
        }
        queue.push_back((nb, np));
        proof {
            let q2 = queue@;
            let s0 = old(seen)@;
            // The new entry is sound: its depth is d + 1 and no path of
            // length at most d reaches it, since every board that close is
            // already recorded and the new board was not.
            assert(no_shorter(start, q2[q2.len() - 1].0@, d + 1)) by {
                assert forall|q: Seq<Move>| q.len() < d + 1 implies #[trigger] replay(start, q)
                    != q2[q2.len() - 1].0@ by {
                    assert(in_seen(s0, replay(start, q)));
                    if replay(start, q) == q2[q2.len() - 1].0@ {
                        assert(in_seen(s0, q2[q2.len() - 1].0@));
                    }
                }
            }
            assert(entry_ok(start, s2, q2[q2.len() - 1]));
            assert forall|k: int| 0 <= k < q2.len() implies entry_ok(
                start,
                s2,
                #[trigger] q2[k],
            ) by {
                if k < q2.len() - 1 {
                    assert(entry_ok(start, s0, old(queue)@[k]));
                    lemma_in_seen_prefix(s0, s2, old(queue)@[k].0@);
                }
            }
            // Closure away from the frontier, except for the popped board:
            // old entries keep it, and the freshly recorded board is itself
            // on the frontier.
            assert forall|k: int, m2: Move|
                0 <= k < s2.len() && !in_queue(q2, s2[k]@) && s2[k]@ != board@ implies in_seen(
                s2,
                #[trigger] spec_apply(s2[k]@, m2),
            ) by {
                if k < s2.len() - 1 {
                    assert(s2[k] == s0[k]);
                    assert(!in_queue(old(queue)@, s2[k]@)) by {
                        if in_queue(old(queue)@, s2[k]@) {
                            let j = choose|j: int|
                                0 <= j < old(queue)@.len() && (#[trigger] old(
                                    queue,
                                )@[j]).0@ == s2[k]@;
                            assert(q2[j].0@ == s2[k]@);
                            assert(in_queue(q2, s2[k]@));
                        }
                    }
                    assert(in_seen(s0, spec_apply(s2[k]@, m2)));
                    lemma_in_seen_prefix(s0, s2, spec_apply(s2[k]@, m2));
                } else {
                    assert(q2[q2.len() - 1].0@ == s2[k]@);
                    assert(in_queue(q2, s2[k]@));
                }
            }
            assert forall|p: Seq<Move>| p.len() <= d implies in_seen(
                s2,
                #[trigger] replay(start, p),
            ) by {
                assert(in_seen(s0, replay(start, p)));
                lemma_in_seen_prefix(s0, s2, replay(start, p));
            }
            assert(mid_inv(start, board@, d, q2, s2));
        }
        None
    } else {
        proof {
            assert(old(seen)@.is_prefix_of(seen@)) by {
                assert(seen@.subrange(0, old(seen)@.len() as int) =~= seen@);
            }
        }
        None
    }
}

/// Search for the shortest action sequence that produces a match on `start`,
/// within a wall-clock budget.
///
/// If the start board already holds a match, the empty path is returned at
/// once. Otherwise boards are expanded breadth-first through the four
/// actions; the first matching board found is at minimal depth, and its
/// path is returned: whenever the result's replay holds a match, no
/// strictly shorter action sequence reaches a match. When the budget
/// expires, or the reachable space is exhausted, the best-scoring path
/// recorded so far is returned instead — its replay strictly beats the
/// start board's score — or the empty path if no board did ("hold
/// position").
pub fn find_path(start: &Board, budget: Duration) -> (p: Vec<Move>)
    requires
        start@.valid(),
    ensures
        spec_has_match(start@) ==> p@.len() == 0,
        p@.len() > 0 ==> spec_has_match(replay(start@, p@)) || spec_score(replay(start@, p@))
            > spec_score(start@),
        p@.len() > 0 && spec_has_match(replay(start@, p@)) ==> forall|q: Seq<Move>|
            q.len() < p@.len() ==> !spec_has_match(#[trigger] replay(start@, q)),
{
    if start.has_match() {
        return Vec::new();
    }
    let start_time = Instant::now();
    let budget_ms = budget.as_millis();
    let mut queue: VecDeque<(Board, Vec<Move>)> = VecDeque::new();
    let mut seen: Vec<Board> = Vec::new();
    let mut highest_score: i64 = start.score();
    let mut highest_path: Vec<Move> = Vec::new();
    seen.push(start.duplicate());
    queue.push_back((start.duplicate(), Vec::new()));
    proof {
        assert(seen@[0]@ == start@);
        assert(in_seen(seen@, start@));
        assert(queue@[0].0@ == start@ && queue@[0].1@ == Seq::<Move>::empty());
        assert(queue@[0].1@.len() == 0);
        assert(entry_ok(start@, seen@, queue@[0]));
        assert forall|p2: Seq<Move>| p2.len() <= 0 implies in_seen(
            seen@,
            #[trigger] replay(start@, p2),
        ) by {
            assert(p2 =~= Seq::<Move>::empty());
            assert(replay(start@, p2) == start@);
        }
        assert forall|k: int, m: Move|
            0 <= k < seen@.len() && !in_queue(queue@, seen@[k]@) implies in_seen(
            seen@,
            #[trigger] spec_apply(seen@[k]@, m),
        ) by {
            assert(queue@[0].0@ == seen@[k]@);
            assert(in_queue(queue@, seen@[k]@));
        }
        assert(bfs_inv(start@, queue@, seen@));
    }
    let mut fuel: u64 = MAX_EXPANSIONS;
    while queue.len() > 0 && fuel > 0
        invariant
            start@.valid(),
            !spec_has_match(start@),
            bfs_inv(start@, queue@, seen@),
            best_inv(start@, highest_score, highest_path@),
        decreases fuel,
    {
        fuel = fuel - 1;
        let el = start_time.elapsed();
        if el.as_millis() > budget_ms {
            return highest_path;
        }
        let ghost q0 = queue@;
        let ghost s0 = seen@;
        let front = queue.pop_front();
        let (board, path) = match front {
            Some(x) => x,
            None => {
                return highest_path;
            },
        };
        let ghost d = path@.len() as int;
        proof {
            let q1 = queue@;
            assert(board@ == q0[0].0@ && path@ == q0[0].1@);
            assert(entry_ok(start@, s0, q0[0]));
            assert forall|k: int| 0 <= k < q1.len() implies entry_ok(
                start@,
                s0,
                #[trigger] q1[k],
            ) && d <= q1[k].1@.len() <= d + 1 by {
                assert(q1[k] == q0[k + 1]);
                assert(entry_ok(start@, s0, q0[k + 1]));
            }
            assert forall|i: int, j: int| 0 <= i <= j < q1.len() implies (#[trigger] q1[i]).1@.len()
                <= (#[trigger] q1[j]).1@.len() by {
                assert(q1[i] == q0[i + 1] && q1[j] == q0[j + 1]);
            }
            assert forall|k: int, m: Move|
                0 <= k < s0.len() && !in_queue(q1, s0[k]@) && s0[k]@ != board@ implies in_seen(
                s0,
                #[trigger] spec_apply(s0[k]@, m),
            ) by {
                assert(!in_queue(q0, s0[k]@)) by {
                    if in_queue(q0, s0[k]@) {
                        let j = choose|j: int|
                            0 <= j < q0.len() && (#[trigger] q0[j]).0@ == s0[k]@;
                        if j == 0 {
                            assert(s0[k]@ == board@);
                        } else {
                            assert(q1[j - 1].0@ == s0[k]@);
                            assert(in_queue(q1, s0[k]@));
                        }
                    }
                }
            }
            assert(mid_inv(start@, board@, d, queue@, seen@));
        }
        let r1 = expand(
            &board,
            &path,
            Move::Left,
            &mut queue,
            &mut seen,
            &mut highest_score,
            &mut highest_path,
            Ghost(start@),
        );
        if let Some(p) = r1 {
            proof {
                assert(p@.drop_last() =~= path@);
                assert(replay(start@, p@) == spec_apply(board@, p@.last()));
                assert forall|q: Seq<Move>| q.len() < p@.len() implies !spec_has_match(
                    #[trigger] replay(start@, q),
                ) by {
                    assert(in_seen(seen@, replay(start@, q)));
                    let k = choose|k: int|
                        0 <= k < seen@.len() && (#[trigger] seen@[k])@ == replay(start@, q);
                }
            }
            return p;
        }
        let ghost s_a = seen@;
        let r2 = expand(
            &board,
            &path,
            Move::Right,
            &mut queue,
            &mut seen,
            &mut highest_score,
            &mut highest_path,
            Ghost(start@),
        );
        if let Some(p) = r2 {
            proof {
                assert(p@.drop_last() =~= path@);
                assert(replay(start@, p@) == spec_apply(board@, p@.last()));
                assert forall|q: Seq<Move>| q.len() < p@.len() implies !spec_has_match(
                    #[trigger] replay(start@, q),
                ) by {
                    assert(in_seen(seen@, replay(start@, q)));
                    let k = choose|k: int|
                        0 <= k < seen@.len() && (#[trigger] seen@[k])@ == replay(start@, q);
                }
            }
            return p;
        }
        let ghost s_b = seen@;
        let r3 = expand(
            &board,
            &path,
            Move::Swap,
            &mut queue,
            &mut seen,
            &mut highest_score,
            &mut highest_path,
            Ghost(start@),
        );
        if let Some(p) = r3 {
            proof {
                assert(p@.drop_last() =~= path@);
                assert(replay(start@, p@) == spec_apply(board@, p@.last()));
                assert forall|q: Seq<Move>| q.len() < p@.len() implies !spec_has_match(
                    #[trigger] replay(start@, q),
                ) by {
                    assert(in_seen(seen@, replay(start@, q)));
                    let k = choose|k: int|
                        0 <= k < seen@.len() && (#[trigger] seen@[k])@ == replay(start@, q);
                }
            }
            return p;
        }
        let ghost s_c = seen@;
        let r4 = expand(
            &board,
            &path,
            Move::Exchange,
            &mut queue,
            &mut seen,
            &mut highest_score,
            &mut highest_path,
            Ghost(start@),
        );
        if let Some(p) = r4 {
            proof {
                assert(p@.drop_last() =~= path@);
                assert(replay(start@, p@) == spec_apply(board@, p@.last()));
                assert forall|q: Seq<Move>| q.len() < p@.len() implies !spec_has_match(
                    #[trigger] replay(start@, q),
                ) by {
                    assert(in_seen(seen@, replay(start@, q)));
                    let k = choose|k: int|
                        0 <= k < seen@.len() && (#[trigger] seen@[k])@ == replay(start@, q);
                }
            }
            return p;
        }
        proof {
            let qf = queue@;
            let sf = seen@;
            // All four successors of the popped board are recorded.
            assert forall|m: Move| in_seen(sf, #[trigger] spec_apply(board@, m)) by {
                match m {
                    Move::Left => {
                        lemma_in_seen_prefix(s_a, sf, spec_apply(board@, Move::Left));
                    },
                    Move::Right => {
                        lemma_in_seen_prefix(s_b, sf, spec_apply(board@, Move::Right));
                    },
                    Move::Swap => {
                        lemma_in_seen_prefix(s_c, sf, spec_apply(board@, Move::Swap));
                    },
                    Move::Exchange => {},
                }
            }
            // Full closure: the popped board is no longer an exception.
            assert forall|k: int, m: Move|
                0 <= k < sf.len() && !in_queue(qf, sf[k]@) implies in_seen(
                sf,
                #[trigger] spec_apply(sf[k]@, m),
            ) by {
                if sf[k]@ == board@ {
                    assert(in_seen(sf, spec_apply(board@, m)));
                }
            }
            // Completeness at the new frontier head.
            if qf.len() == 0 {
                assert forall|p2: Seq<Move>| in_seen(sf, #[trigger] replay(start@, p2)) by {
                    lemma_complete_all(start@, sf, p2);
                }
            } else {
                let d2 = qf[0].1@.len() as int;
                if d2 == d + 1 {
                    assert forall|p2: Seq<Move>| p2.len() <= d + 1 implies in_seen(
                        sf,
                        #[trigger] replay(start@, p2),
                    ) by {
                        if p2.len() == d + 1 {
                            let x = replay(start@, p2.drop_last());
                            assert(p2.drop_last().len() == d);
                            assert(in_seen(sf, x));
                            let k = choose|k: int|
                                0 <= k < sf.len() && (#[trigger] sf[k])@ == x;
                            assert(!in_queue(qf, x)) by {
                                if in_queue(qf, x) {
                                    let j = choose|j: int|
                                        0 <= j < qf.len() && (#[trigger] qf[j]).0@ == x;
                                    assert(entry_ok(start@, sf, qf[j]));
                                    assert(qf[j].1@.len() >= d2);
                                    assert(replay(start@, p2.drop_last()) == x);
                                    assert(no_shorter(start@, x, qf[j].1@.len() as int));
                                }
                            }
                            assert(in_seen(sf, spec_apply(sf[k]@, p2.last())));
                            assert(replay(start@, p2) == spec_apply(x, p2.last()));
                        }
                    }
                }
                assert(complete_to(start@, sf, d2));
            }
            assert(bfs_inv(start@, qf, sf));
        }
    }
    highest_path
}

} // verus!
