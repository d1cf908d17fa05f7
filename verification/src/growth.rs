//! Growth after eating, and the leaderboard it feeds.
//!
//! The leaderboard update follows the rule: find or create the row for the
//! player's name and raise its score to the snake's length if that is
//! higher. A row whose score did not rise keeps its rank; one that rose (or
//! is new) is placed behind every row scoring at least as much, so among
//! equal scores the first-seen row stays first. At most the ten best rows
//! are kept.

use vstd::prelude::*;

use crate::engine::{has_id, leader_board_wf, World};
use crate::types::{GrowthEvent, LeaderBoard, PlayerInfo, SyncLeaderBoardEvent};

verus! {

/// The leaderboard rows as mathematical pairs of name and score.
pub open spec fn lb_views(lb: Seq<(String, usize)>) -> Seq<(Seq<char>, int)> {
    Seq::new(lb.len(), |i: int| (lb[i].0@, lb[i].1 as int))
}

/// Score of the first row carrying `name`, if one exists.
pub open spec fn lb_entry_score(s: Seq<(Seq<char>, int)>, name: Seq<char>) -> Option<int>
    decreases s.len(),
{
    if s.len() == 0 {
        None
    } else if s[0].0 == name {
        Some(s[0].1)
    } else {
        lb_entry_score(s.drop_first(), name)
    }
}

/// The rows with the first row carrying `name` taken out.
pub open spec fn lb_remove(s: Seq<(Seq<char>, int)>, name: Seq<char>) -> Seq<(Seq<char>, int)>
    decreases s.len(),
{
    if s.len() == 0 {
        s
    } else if s[0].0 == name {
        s.drop_first()
    } else {
        seq![s[0]] + lb_remove(s.drop_first(), name)
    }
}

/// `e` inserted behind every row whose score is at least as high: on a list
/// sorted descending this keeps the order and puts `e` after its equals.
pub open spec fn lb_insert_desc(
    s: Seq<(Seq<char>, int)>,
    e: (Seq<char>, int),
) -> Seq<(Seq<char>, int)>
    decreases s.len(),
{
    if s.len() == 0 {
        seq![e]
    } else if s[0].1 >= e.1 {
        seq![s[0]] + lb_insert_desc(s.drop_first(), e)
    } else {
        seq![e] + s
    }
}

/// At most the ten best rows stay.
pub open spec fn lb_truncate(s: Seq<(Seq<char>, int)>) -> Seq<(Seq<char>, int)> {
    if s.len() <= 10 {
        s
    } else {
        s.subrange(0, 10)
    }
}

/// The whole leaderboard update for one growth of `name`'s snake to length
/// `score`. A row whose recorded score already reaches `score` is left
/// exactly where it stands, so a growth that does not beat the best keeps
/// the ranking untouched. A row whose score rises (or a new name) is placed
/// behind every row scoring at least as much — on a sorted board this is
/// what a stable descending re-sort does, so among equal scores the
/// first-seen row stays first — and the list is cut to ten.
pub open spec fn lb_updated(
    s: Seq<(Seq<char>, int)>,
    name: Seq<char>,
    score: int,
) -> Seq<(Seq<char>, int)> {
    match lb_entry_score(s, name) {
        Some(o) => if o >= score {
            s
        } else {
            lb_truncate(lb_insert_desc(lb_remove(s, name), (name, score)))
        },
        None => lb_truncate(lb_insert_desc(s, (name, score))),
    }
}

/// When the first row carrying `name` stands at `i`, [`lb_entry_score`] reads
/// that row and [`lb_remove`] removes exactly it.
proof fn lemma_lb_first_match(s: Seq<(Seq<char>, int)>, name: Seq<char>, i: int)
    requires
        0 <= i < s.len(),
        s[i].0 == name,
        forall|t: int| 0 <= t < i ==> (#[trigger] s[t]).0 != name,
    ensures
        lb_entry_score(s, name) == Some(s[i].1),
        lb_remove(s, name) == s.remove(i),
    decreases i,
{
    if i == 0 {
        assert(lb_remove(s, name) =~= s.remove(0));
    } else {
        assert(s[0].0 != name);
        assert(forall|t: int| 0 <= t < i - 1 ==> (#[trigger] s.drop_first()[t]).0 != name);
        assert(s.drop_first()[i - 1] == s[i]);
        lemma_lb_first_match(s.drop_first(), name, i - 1);
        assert(lb_remove(s, name) =~= s.remove(i)) by {
            assert(lb_remove(s.drop_first(), name) == s.drop_first().remove(i - 1));
        }
    }
}

/// With no row carrying `name`, [`lb_entry_score`] finds nothing and
/// [`lb_remove`] removes nothing.
proof fn lemma_lb_no_match(s: Seq<(Seq<char>, int)>, name: Seq<char>)
    requires
        forall|t: int| 0 <= t < s.len() ==> (#[trigger] s[t]).0 != name,
    ensures
        lb_entry_score(s, name) is None,
        lb_remove(s, name) == s,
    decreases s.len(),
{
    if s.len() > 0 {
        assert(forall|t: int|
            0 <= t < s.len() - 1 ==> (#[trigger] s.drop_first()[t]).0 != name);
        lemma_lb_no_match(s.drop_first(), name);
        assert(lb_remove(s, name) =~= s);
    }
}

/// When the first `k` rows all score at least `e.1` and row `k` (if any)
/// scores less, [`lb_insert_desc`] inserts `e` exactly at `k`.
proof fn lemma_lb_insert_at(s: Seq<(Seq<char>, int)>, e: (Seq<char>, int), k: int)
    requires
        0 <= k <= s.len(),
        forall|t: int| 0 <= t < k ==> (#[trigger] s[t]).1 >= e.1,
        k < s.len() ==> s[k].1 < e.1,
    ensures
        lb_insert_desc(s, e) == s.insert(k, e),
    decreases k,
{
    if k == 0 {
        if s.len() == 0 {
            assert(lb_insert_desc(s, e) =~= s.insert(0, e));
        } else {
            assert(s[0].1 < e.1);
            assert(lb_insert_desc(s, e) =~= s.insert(0, e));
        }
    } else {
        assert(s[0].1 >= e.1);
        assert(forall|t: int| 0 <= t < k - 1 ==> (#[trigger] s.drop_first()[t]).1 >= e.1);
        assert(k - 1 < s.drop_first().len() ==> s.drop_first()[k - 1].1 < e.1);
        lemma_lb_insert_at(s.drop_first(), e, k - 1);
        assert(lb_insert_desc(s, e) =~= s.insert(k, e)) by {
            assert(lb_insert_desc(s.drop_first(), e) == s.drop_first().insert(k - 1, e));
        }
    }
}

/// Index of the first leaderboard row carrying `name`, if any.
fn find_row(lb: &LeaderBoard, name: &String) -> (r: Option<usize>)
    ensures
        match r {
            Some(i) => 0 <= i < lb@.len() && lb@[i as int].0@ == name@ && forall|t: int|
                0 <= t < i ==> (#[trigger] lb@[t]).0@ != name@,
            None => forall|t: int| 0 <= t < lb@.len() ==> (#[trigger] lb@[t]).0@ != name@,
        },
{
    let n = lb.0.len();
    let mut i: usize = 0;
    while i < n
        invariant
            n == lb@.len(),
            0 <= i <= n,
            forall|t: int| 0 <= t < i ==> (#[trigger] lb@[t]).0@ != name@,
        decreases n - i,
    {
        if lb.0[i].0 == *name {
            return Some(i);
        }
        i = i + 1;
    }
    None
}

/// Record one growth of `name`'s snake to length `score`: raise the row only
/// if `score` beats its best (leaving its rank alone otherwise), re-rank a
/// risen or new row behind its equals, and cut to the ten best.
fn update_leader_board(lb: &mut LeaderBoard, name: &String, score: usize)
    requires
        leader_board_wf(old(lb)@),
    ensures
        leader_board_wf(final(lb)@),
        lb_views(final(lb)@) == lb_updated(lb_views(old(lb)@), name@, score as int),
{
    let ghost v0 = lb_views(old(lb)@);
    let found = find_row(lb, name);

    // A best score that stands keeps its row exactly where it is.
    if let Some(i) = found {
        proof {
            assert(v0[i as int].0 == name@ && v0[i as int].1 == old(lb)@[i as int].1);
            assert(forall|t: int| 0 <= t < i ==> (#[trigger] v0[t]).0 != name@);
            lemma_lb_first_match(v0, name@, i as int);
        }
        let o = lb.0[i].1;
        if o >= score {
            return ;
        }
        lb.0.remove(i);
        proof {
            assert(lb_views(lb@) =~= lb_remove(v0, name@));
        }
    } else {
        proof {
            assert(forall|t: int| 0 <= t < v0.len() ==> (#[trigger] v0[t]).0 != name@);
            lemma_lb_no_match(v0, name@);
        }
    }
    let ghost v1 = lb_remove(v0, name@);
    proof {
        assert(lb_views(lb@) == v1);
        assert forall|t1: int, t2: int| 0 <= t1 < t2 < lb@.len()
            implies (#[trigger] lb@[t1]).1 >= (#[trigger] lb@[t2]).1
                && (#[trigger] lb@[t1]).0@ != (#[trigger] lb@[t2]).0@ by {
            if found is Some {
                let i = found->0 as int;
                let o1: int = if t1 < i { t1 } else { t1 + 1 };
                let o2: int = if t2 < i { t2 } else { t2 + 1 };
                assert(lb@[t1] == old(lb)@[o1] && lb@[t2] == old(lb)@[o2]);
            }
        }
        assert forall|t: int| 0 <= t < lb@.len() implies (#[trigger] lb@[t]).0@ != name@ by {
            if found is Some {
                let i = found->0 as int;
                let o: int = if t < i { t } else { t + 1 };
                assert(lb@[t] == old(lb)@[o] && o != i);
                assert(old(lb)@[o].0@ != old(lb)@[i as int].0@);
            }
        }
    }

    // Put the risen (or new) row behind every row scoring at least as much.
    let m = lb.0.len();
    let mut k: usize = 0;
    while k < m && lb.0[k].1 >= score
        invariant
            m == lb@.len(),
            0 <= k <= m,
            forall|t: int| 0 <= t < k ==> (#[trigger] lb@[t]).1 >= score,
        decreases m - k,
    {
        k = k + 1;
    }
    proof {
        lemma_lb_insert_at(lb_views(lb@), (name@, score as int), k as int);
    }
    let ghost before_insert = lb@;
    lb.0.insert(k, (name.clone(), score));
    proof {
        assert(lb_views(lb@) =~= lb_insert_desc(lb_views(before_insert), (name@, score as int)));
        assert forall|t1: int, t2: int| 0 <= t1 < t2 < lb@.len()
            implies (#[trigger] lb@[t1]).1 >= (#[trigger] lb@[t2]).1
                && (#[trigger] lb@[t1]).0@ != (#[trigger] lb@[t2]).0@ by {
            let o1: int = if t1 < k { t1 } else { t1 - 1 };
            let o2: int = if t2 < k { t2 } else { t2 - 1 };
            if t1 == k {
                assert(lb@[t2] == before_insert[o2]);
            } else if t2 == k {
                assert(lb@[t1] == before_insert[o1]);
            } else {
                assert(lb@[t1] == before_insert[o1] && lb@[t2] == before_insert[o2]);
            }
        }
    }

    // Keep the ten best rows.
    let ghost before_cut = lb@;
    if lb.0.len() > 10 {
        lb.0.truncate(10);
    }
    proof {
        assert(lb_views(lb@) =~= lb_truncate(lb_views(before_cut)));
        assert(lb_views(lb@) == lb_updated(v0, name@, score as int));
        assert(leader_board_wf(lb@)) by {
            assert(forall|t1: int, t2: int|
                0 <= t1 < t2 < lb@.len() ==> (#[trigger] lb@[t1]).1 >= (#[trigger] lb@[t2]).1
                    && (#[trigger] lb@[t1]).0@ != (#[trigger] lb@[t2]).0@);
        }
    }
}

/// Every player except the one at `i` is unchanged between the two lists.
pub open spec fn only_player_changed(
    ps0: Seq<PlayerInfo>,
    ps1: Seq<PlayerInfo>,
    i: int,
) -> bool {
    forall|t: int| 0 <= t < ps0.len() && t != i ==> #[trigger] ps1[t] == ps0[t]
}

/// Resolve one growth event: the named player's snake (if still joined) gains
/// one segment on the cell its tail vacated on the last move, and the
/// leaderboard records the snake's new length if it beats that name's best
/// (see [`lb_updated`]). The returned event, present exactly when the player
/// was found, tells the caller to send the ranking out.
pub fn snake_growth(w: &mut World, event: &GrowthEvent) -> (r: Option<SyncLeaderBoardEvent>)
    requires
        old(w).wf(),
    ensures
        final(w).wf(),
        final(w).foods == old(w).foods,
        !has_id(old(w).player_list@, event.player_id@) ==> final(w).player_list == old(
            w,
        ).player_list && final(w).leader_board == old(w).leader_board && r is None,
        has_id(old(w).player_list@, event.player_id@) ==> r is Some && exists|i: int|
            {
                &&& 0 <= i < old(w).player_list@.len()
                &&& (#[trigger] old(w).player_list@[i]).player_id@ == event.player_id@
                &&& (match old(w).player_list@[i].last_tail_position {
                    Some(t) => final(w).player_list@[i] == (PlayerInfo {
                        snake_segments: final(w).player_list@[i].snake_segments,
                        ..old(w).player_list@[i]
                    }) && final(w).player_list@[i].snake_segments@ == old(
                        w,
                    ).player_list@[i].snake_segments@.push(t),
                    None => final(w).player_list@[i] == old(w).player_list@[i],
                })
                &&& only_player_changed(old(w).player_list@, final(w).player_list@, i)
                &&& lb_views(final(w).leader_board@) == lb_updated(
                    lb_views(old(w).leader_board@),
                    old(w).player_list@[i].player_name@,
                    final(w).player_list@[i].snake_segments@.len() as int,
                )
            },
{
    let found = crate::engine::find_player(&w.player_list, &event.player_id);
    if let Some(i) = found {
        let lt = w.player_list.0[i].last_tail_position;
        if let Some(t) = lt {
            w.player_list.0[i].snake_segments.push(t);
        }
        let score = w.player_list.0[i].snake_segments.len();
        let name = w.player_list.0[i].player_name.clone();
        update_leader_board(&mut w.leader_board, &name, score);
        proof {
            assert(only_player_changed(old(w).player_list@, final(w).player_list@, i as int));
            assert forall|t: int| 0 <= t < final(w).player_list@.len()
                implies (#[trigger] final(w).player_list@[t]).valid() by {
                if t != i {
                    assert(final(w).player_list@[t] == old(w).player_list@[t]);
                }
            }
            assert forall|t1: int, t2: int| 0 <= t1 < t2 < final(w).player_list@.len()
                implies (#[trigger] final(w).player_list@[t1]).player_id@
                    != (#[trigger] final(w).player_list@[t2]).player_id@ by {
                assert(final(w).player_list@[t1].player_id@ == old(
                    w,
                ).player_list@[t1].player_id@);
                assert(final(w).player_list@[t2].player_id@ == old(
                    w,
                ).player_list@[t2].player_id@);
            }
        }
        Some(SyncLeaderBoardEvent)
    } else {
        None
    }
}

} // verus!
