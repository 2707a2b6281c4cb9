//! The shortest span of a sequence that holds every element of a goal set,
//! found in one pass with a map that keeps goal elements in order of last sight.

use crate::recency::{back_entry, entry_count, front_entry, insert_back, new_map, recency_entries};
use std::collections::HashSet;
use vstd::prelude::*;
use vstd::set_lib::{lemma_len_subset, lemma_subset_equality};

verus! {

/// Every element of `goal` occurs in `pat` at some position of `[start, start + len)`.
pub open spec fn covers(pat: Seq<u32>, goal: Set<u32>, start: int, len: int) -> bool {
    &&& 0 <= start
    &&& 0 <= len
    &&& start + len <= pat.len()
    &&& forall|x: u32|
        goal.contains(x) ==> exists|j: int| start <= j < start + len && #[trigger] pat[j] == x
}

/// Some contiguous range of `pat` holds every element of `goal`.
pub open spec fn coverable(pat: Seq<u32>, goal: Set<u32>) -> bool {
    exists|s: int, l: int| covers(pat, goal, s, l)
}

/// `[start, start + len)` holds all of `goal`, no range that does is shorter, and
/// no range of the same length that does starts further left.
pub open spec fn is_shortest_span(pat: Seq<u32>, goal: Set<u32>, start: int, len: int) -> bool {
    &&& covers(pat, goal, start, len)
    &&& forall|s: int, l: int| #[trigger] covers(pat, goal, s, l) ==> len <= l
    &&& forall|s: int| #[trigger] covers(pat, goal, s, len) ==> start <= s
}

/// The elements of `pat` in `[start, start + len)`, as a set.
pub open spec fn window_set(pat: Seq<u32>, start: int, len: int) -> Set<u32> {
    pat.subrange(start, start + len).to_set()
}

/// A range that holds all of a goal holds the goal within the set of its elements.
proof fn lemma_goal_within_window(pat: Seq<u32>, goal: Set<u32>, start: int, len: int)
    requires
        covers(pat, goal, start, len),
    ensures
        goal.subset_of(window_set(pat, start, len)),
{
    let w = pat.subrange(start, start + len);
    assert forall|x: u32| goal.contains(x) implies #[trigger] w.to_set().contains(x) by {
        let j = choose|j: int| start <= j < start + len && #[trigger] pat[j] == x;
        assert(w[j - start] == x);
        assert(w.contains(x));
    }
}

/// A range that holds every element of a finite goal is at least as long as the goal.
pub proof fn lemma_span_at_least_goal(pat: Seq<u32>, goal: Set<u32>, start: int, len: int)
    requires
        goal.finite(),
        covers(pat, goal, start, len),
    ensures
        goal.len() <= len,
{
    let w = pat.subrange(start, start + len);
    lemma_goal_within_window(pat, goal, start, len);
    w.lemma_cardinality_of_set();
    lemma_len_subset(goal, w.to_set());
}

/// A range that holds every element of a finite goal and is exactly as long as the
/// goal holds each element of the goal once, and nothing else.
pub proof fn lemma_tight_span_is_goal(pat: Seq<u32>, goal: Set<u32>, start: int, len: int)
    requires
        goal.finite(),
        covers(pat, goal, start, len),
        len == goal.len(),
    ensures
        pat.subrange(start, start + len).no_duplicates(),
        window_set(pat, start, len) == goal,
{
    let w = pat.subrange(start, start + len);
    lemma_goal_within_window(pat, goal, start, len);
    w.lemma_cardinality_of_set();
    lemma_len_subset(goal, w.to_set());
    lemma_subset_equality(goal, w.to_set());
    w.lemma_no_dup_set_cardinality();
}

/// The entries of `m` are the goal elements seen in `pat` before position `end`,
/// each with the last position where it was seen, in the order of those positions.
#[verifier::opaque]
spec fn tracks_last_seen(pat: Seq<u32>, goal: Set<u32>, m: Seq<(u32, usize)>, end: int) -> bool {
    &&& forall|k: int|
        0 <= k < m.len() ==> {
            &&& goal.contains(#[trigger] m[k].0)
            &&& m[k].1 < end
            &&& pat[m[k].1 as int] == m[k].0
        }
    &&& forall|k: int, j: int|
        0 <= k < m.len() && m[k].1 < j < end ==> #[trigger] pat[j] != #[trigger] m[k].0
    &&& forall|a: int, b: int|
        0 <= a < b < m.len() ==> #[trigger] m[a].1 < #[trigger] m[b].1 && m[a].0 != m[b].0
    &&& forall|j: int|
        0 <= j < end && goal.contains(#[trigger] pat[j]) ==> exists|k: int|
            0 <= k < m.len() && #[trigger] m[k].0 == pat[j]
}

/// Every element of `goal` is the key of an entry of `m`.
spec fn holds_all(goal: Set<u32>, m: Seq<(u32, usize)>) -> bool {
    forall|x: u32| goal.contains(x) ==> exists|k: int| 0 <= k < m.len() && #[trigger] m[k].0 == x
}

/// `(pos, len)` is the best span among the ranges that end before `end`, or
/// `len == 0` where none of them holds the goal.
#[verifier::opaque]
spec fn best_before(
    pat: Seq<u32>,
    goal: Set<u32>,
    pos: int,
    len: int,
    end: int,
) -> bool {
    &&& 0 <= len
    &&& len == 0 ==> pos == 0
    &&& len == 0 ==> forall|s: int, l: int| s + l <= end ==> !#[trigger] covers(pat, goal, s, l)
    &&& len > 0 ==> {
        &&& covers(pat, goal, pos, len)
        &&& pos + len <= end
        &&& len > goal.len()
        &&& forall|s: int, l: int| s + l <= end && #[trigger] covers(pat, goal, s, l) ==> len <= l
        &&& forall|s: int| s + len <= end && #[trigger] covers(pat, goal, s, len) ==> pos <= s
    }
}

/// The keys of tracked entries are distinct elements of the goal, so they hold
/// every element of a finite goal exactly when there are as many as the goal has.
proof fn lemma_holds_all_by_count(pat: Seq<u32>, goal: Set<u32>, m: Seq<(u32, usize)>, end: int)
    requires
        goal.finite(),
        tracks_last_seen(pat, goal, m, end),
    ensures
        holds_all(goal, m) <==> m.len() == goal.len(),
        m.len() > 0 ==> m[0].1 < end,
{
    reveal(tracks_last_seen);
    if m.len() > 0 {
        assert(goal.contains(m[0].0));
    }
    assert forall|a: int, b: int| 0 <= a < b < m.len() implies #[trigger] m[a].0 != #[trigger] m[b].0 by {
        assert(m[a].1 < m[b].1 && m[a].0 != m[b].0);
    }
    let ks = m.map_values(|e: (u32, usize)| e.0);
    assert(ks.no_duplicates()) by {
        assert forall|a: int, b: int| 0 <= a < ks.len() && 0 <= b < ks.len() && a != b implies ks[a]
            != ks[b] by {
            if a < b {
                assert(m[a].0 != m[b].0);
            } else {
                assert(m[b].0 != m[a].0);
            }
        }
    }
    ks.unique_seq_to_set();
    assert(ks.to_set().subset_of(goal)) by {
        assert forall|x: u32| ks.to_set().contains(x) implies goal.contains(x) by {
            assert(ks.contains(x));
            let k = choose|k: int| 0 <= k < ks.len() && ks[k] == x;
            assert(m[k].0 == x);
        }
    }
    if holds_all(goal, m) {
        assert forall|x: u32| goal.contains(x) implies ks.to_set().contains(x) by {
            let k = choose|k: int| 0 <= k < m.len() && #[trigger] m[k].0 == x;
            assert(ks[k] == x);
            assert(ks.contains(x));
        }
        assert(ks.to_set() =~= goal);
    }
    if m.len() == goal.len() {
        lemma_subset_equality(ks.to_set(), goal);
        assert forall|x: u32| goal.contains(x) implies exists|k: int|
            0 <= k < m.len() && #[trigger] m[k].0 == x by {
            assert(ks.to_set().contains(x));
            assert(ks.contains(x));
            let k = choose|k: int| 0 <= k < ks.len() && ks[k] == x;
            assert(m[k].0 == x);
        }
    }
}

/// Seeing a goal element for the first time appends it.
proof fn lemma_track_append(pat: Seq<u32>, goal: Set<u32>, m: Seq<(u32, usize)>, i: usize)
    requires
        tracks_last_seen(pat, goal, m, i as int),
        i < pat.len(),
        goal.contains(pat[i as int]),
        forall|k: int| 0 <= k < m.len() ==> #[trigger] m[k].0 != pat[i as int],
    ensures
        tracks_last_seen(pat, goal, m.push((pat[i as int], i)), i + 1),
{
    reveal(tracks_last_seen);
    let x = pat[i as int];
    let m2 = m.push((x, i));
    assert forall|k: int| 0 <= k < m2.len() implies {
        &&& goal.contains(#[trigger] m2[k].0)
        &&& m2[k].1 < i + 1
        &&& pat[m2[k].1 as int] == m2[k].0
    } by {
        if k < m.len() {
            assert(m2[k] == m[k]);
        }
    }
    assert forall|k: int, j: int| 0 <= k < m2.len() && m2[k].1 < j < i + 1 implies #[trigger] pat[j]
        != #[trigger] m2[k].0 by {
        if k < m.len() {
            assert(m2[k] == m[k]);
            if j < i {
                assert(pat[j] != m[k].0);
            }
        }
    }
    assert forall|a: int, b: int| 0 <= a < b < m2.len() implies #[trigger] m2[a].1 < #[trigger] m2[b].1
        && m2[a].0 != m2[b].0 by {
        assert(m2[a] == m[a]);
        if b < m.len() {
            assert(m2[b] == m[b]);
            assert(m[a].1 < m[b].1 && m[a].0 != m[b].0);
        } else {
            assert(m2[b] == (x, i));
            assert(0 <= a < m.len());
            assert(goal.contains(m[a].0));
            assert(m[a].1 < i);
            assert(m[a].0 != x);
        }
    }
    assert forall|j: int| 0 <= j < i + 1 && goal.contains(#[trigger] pat[j]) implies exists|k: int|
        0 <= k < m2.len() && #[trigger] m2[k].0 == pat[j] by {
        if j == i {
            assert(m2[m.len() as int].0 == pat[j]);
        } else {
            let k = choose|k: int| 0 <= k < m.len() && #[trigger] m[k].0 == pat[j];
            assert(m2[k] == m[k]);
        }
    }
}

/// Seeing again the goal element of entry `k0` moves it to the back.
#[verifier::spinoff_prover]
proof fn lemma_track_move(
    pat: Seq<u32>,
    goal: Set<u32>,
    m: Seq<(u32, usize)>,
    i: usize,
    k0: int,
)
    requires
        tracks_last_seen(pat, goal, m, i as int),
        i < pat.len(),
        0 <= k0 < m.len(),
        m[k0].0 == pat[i as int],
    ensures
        tracks_last_seen(pat, goal, m.remove(k0).push((pat[i as int], i)), i + 1),
{
    reveal(tracks_last_seen);
    assert(goal.contains(m[k0].0));
    let x = pat[i as int];
    let r = m.remove(k0);
    let m2 = r.push((x, i));
    // position in `m` of the entry at position `t` of `m2`, for `t` before the back
    let src = |t: int| if t < k0 { t } else { t + 1 };
    assert forall|t: int| 0 <= t < r.len() implies #[trigger] m2[t] == m[src(t)] && m[src(t)].0 != x by {
        assert(r[t] == m[src(t)]);
        if t < k0 {
            assert(m[t].0 != m[k0].0);
        } else {
            assert(m[k0].0 != m[t + 1].0);
        }
    }
    assert(m2[r.len() as int] == (x, i));
    assert forall|k: int| 0 <= k < m2.len() implies {
        &&& goal.contains(#[trigger] m2[k].0)
        &&& m2[k].1 < i + 1
        &&& pat[m2[k].1 as int] == m2[k].0
    } by {
        if k < r.len() {
            assert(m2[k] == m[src(k)]);
        }
    }
    assert forall|k: int, j: int| 0 <= k < m2.len() && m2[k].1 < j < i + 1 implies #[trigger] pat[j]
        != #[trigger] m2[k].0 by {
        if k < r.len() {
            assert(m2[k] == m[src(k)]);
            if j < i {
                assert(pat[j] != m[src(k)].0);
            }
        }
    }
    assert forall|a: int, b: int| 0 <= a < b < m2.len() implies #[trigger] m2[a].1 < #[trigger] m2[b].1
        && m2[a].0 != m2[b].0 by {
        assert(m2[a] == m[src(a)]);
        if b < r.len() {
            assert(m2[b] == m[src(b)]);
            assert(m[src(a)].1 < m[src(b)].1 && m[src(a)].0 != m[src(b)].0);
        }
    }
    assert forall|j: int| 0 <= j < i + 1 && goal.contains(#[trigger] pat[j]) implies exists|k: int|
        0 <= k < m2.len() && #[trigger] m2[k].0 == pat[j] by {
        if pat[j] == x {
            assert(m2[r.len() as int].0 == pat[j]);
        } else {
            let k = choose|k: int| 0 <= k < m.len() && #[trigger] m[k].0 == pat[j];
            let k2 = if k < k0 { k } else { k - 1 };
            assert(m2[k2] == m[src(k2)]);
        }
    }
}

/// A range whose last element is outside a non-empty goal holds the goal only if
/// the range without that element does.
proof fn lemma_drop_unneeded_last(pat: Seq<u32>, goal: Set<u32>, s: int, l: int)
    requires
        !goal.is_empty(),
        covers(pat, goal, s, l),
        s + l > 0 ==> !goal.contains(pat[s + l - 1]),
    ensures
        l > 0,
        covers(pat, goal, s, l - 1),
{
    let y = goal.choose();
    assert(goal.contains(y));
    assert forall|x: u32| goal.contains(x) implies exists|j: int|
        s <= j < s + l - 1 && #[trigger] pat[j] == x by {
        let j = choose|j: int| s <= j < s + l && #[trigger] pat[j] == x;
        assert(j != s + l - 1);
    }
}

/// Where a goal element does not occur before `end`, no range that ends there
/// holds the goal.
proof fn lemma_missing_element(pat: Seq<u32>, goal: Set<u32>, y: u32, end: int, s: int, l: int)
    requires
        goal.contains(y),
        forall|j: int| 0 <= j < end ==> #[trigger] pat[j] != y,
        s + l <= end,
    ensures
        !covers(pat, goal, s, l),
{
    if covers(pat, goal, s, l) {
        let j = choose|j: int| s <= j < s + l && #[trigger] pat[j] == y;
        assert(pat[j] != y);
    }
}

/// Once every goal element has been seen, a range that ends at the last position
/// seen holds the goal exactly when it starts no later than the front entry.
proof fn lemma_window_to_end(pat: Seq<u32>, goal: Set<u32>, m: Seq<(u32, usize)>, i: int, s: int)
    requires
        tracks_last_seen(pat, goal, m, i + 1),
        holds_all(goal, m),
        m.len() > 0,
        m.last().1 == i,
        0 <= s <= i + 1,
        i < pat.len(),
    ensures
        covers(pat, goal, s, i + 1 - s) <==> s <= m[0].1,
{
    reveal(tracks_last_seen);
    if s <= m[0].1 {
        assert forall|x: u32| goal.contains(x) implies exists|j: int|
            s <= j < i + 1 && #[trigger] pat[j] == x by {
            let k = choose|k: int| 0 <= k < m.len() && #[trigger] m[k].0 == x;
            if k > 0 {
                assert(m[0].1 < m[k].1);
            }
            assert(pat[m[k].1 as int] == x);
        }
    } else if covers(pat, goal, s, i + 1 - s) {
        let y = m[0].0;
        assert(goal.contains(y));
        let j = choose|j: int| s <= j < i + 1 && #[trigger] pat[j] == y;
        assert(pat[j] != m[0].0);
    }
}

/// What the shortest span is: `(0, 0)` where the goal is empty or no range holds
/// it, else the shortest range that holds it, leftmost among those of its length.
pub open spec fn shortest_span_result(pat: Seq<u32>, goal: Set<u32>, pos: int, len: int) -> bool {
    if goal.is_empty() || !coverable(pat, goal) {
        pos == 0 && len == 0
    } else {
        len > 0 && is_shortest_span(pat, goal, pos, len)
    }
}

/// The properties of a shortest span that follow from what it is.
proof fn lemma_result_properties(pat: Seq<u32>, goal: Set<u32>, pos: int, len: int)
    requires
        goal.finite(),
        shortest_span_result(pat, goal, pos, len),
    ensures
        pat.len() == 0 ==> pos == 0 && len == 0,
        len > 0 ==> covers(pat, goal, pos, len),
        len > 0 ==> forall|s: int, l: int| #[trigger] covers(pat, goal, s, l) ==> len <= l,
        len == goal.len() ==> {
            &&& pat.subrange(pos, pos + len).no_duplicates()
            &&& window_set(pat, pos, len) == goal
        },
        (exists|x: u32| goal.contains(x) && !pat.contains(x)) ==> pos == 0 && len == 0,
{
    if !goal.is_empty() && pat.len() == 0 && coverable(pat, goal) {
        let (s, l) = choose|s: int, l: int| covers(pat, goal, s, l);
        lemma_drop_unneeded_last(pat, goal, s, l);
    }
    if len == goal.len() {
        if goal.is_empty() {
            assert(pat.subrange(pos, pos + len) =~= Seq::<u32>::empty());
            assert(window_set(pat, pos, len) =~= goal);
        } else {
            lemma_tight_span_is_goal(pat, goal, pos, len);
        }
    }
    if exists|x: u32| goal.contains(x) && !pat.contains(x) {
        let y = choose|x: u32| goal.contains(x) && !pat.contains(x);
        if coverable(pat, goal) {
            let (s, l) = choose|s: int, l: int| covers(pat, goal, s, l);
            let j = choose|j: int| s <= j < s + l && #[trigger] pat[j] == y;
            assert(pat.contains(y));
        }
    }
}

/// A position outside the goal leaves the entries as they are.
proof fn lemma_track_skip(pat: Seq<u32>, goal: Set<u32>, m: Seq<(u32, usize)>, i: int)
    requires
        tracks_last_seen(pat, goal, m, i),
        0 <= i < pat.len(),
        !goal.contains(pat[i]),
    ensures
        tracks_last_seen(pat, goal, m, i + 1),
{
    reveal(tracks_last_seen);
    assert forall|k: int, j: int| 0 <= k < m.len() && m[k].1 < j < i + 1 implies #[trigger] pat[j]
        != #[trigger] m[k].0 by {
        assert(goal.contains(m[k].0));
    }
}

/// Before any position, no range holds a non-empty goal.
proof fn lemma_best_start(pat: Seq<u32>, goal: Set<u32>)
    requires
        !goal.is_empty(),
    ensures
        best_before(pat, goal, 0, 0, 0),
{
    reveal(best_before);
    assert forall|s: int, l: int| s + l <= 0 implies !#[trigger] covers(pat, goal, s, l) by {
        if covers(pat, goal, s, l) {
            lemma_drop_unneeded_last(pat, goal, s, l);
        }
    }
}

/// A position outside the goal ends no range that improves on the best one.
proof fn lemma_best_skip(pat: Seq<u32>, goal: Set<u32>, pos: int, len: int, i: int)
    requires
        !goal.is_empty(),
        0 <= i < pat.len(),
        !goal.contains(pat[i]),
        best_before(pat, goal, pos, len, i),
    ensures
        best_before(pat, goal, pos, len, i + 1),
{
    reveal(best_before);
    assert forall|s: int, l: int| s + l == i + 1 && #[trigger] covers(pat, goal, s, l) implies covers(
        pat,
        goal,
        s,
        l - 1,
    ) by {
        lemma_drop_unneeded_last(pat, goal, s, l);
    }
}

/// While some goal element is still unseen, no range ending at `i` holds the goal.
proof fn lemma_best_unseen(
    pat: Seq<u32>,
    goal: Set<u32>,
    m: Seq<(u32, usize)>,
    pos: int,
    len: int,
    i: int,
)
    requires
        0 <= i < pat.len(),
        tracks_last_seen(pat, goal, m, i + 1),
        !holds_all(goal, m),
        best_before(pat, goal, pos, len, i),
    ensures
        best_before(pat, goal, pos, len, i + 1),
{
    reveal(best_before);
    reveal(tracks_last_seen);
    let y = choose|y: u32|
        goal.contains(y) && !(exists|k: int| 0 <= k < m.len() && #[trigger] m[k].0 == y);
    assert forall|j: int| 0 <= j < i + 1 implies #[trigger] pat[j] != y by {
        if pat[j] == y {
            assert(goal.contains(pat[j]));
        }
    }
    assert forall|s: int, l: int| s + l == i + 1 implies !#[trigger] covers(pat, goal, s, l) by {
        lemma_missing_element(pat, goal, y, i + 1, s, l);
    }
}

/// With every goal element seen, the range from the front entry to `i` is the
/// shortest that ends at `i`; where it is no shorter than the best one, the best
/// one stays.
proof fn lemma_best_keep(
    pat: Seq<u32>,
    goal: Set<u32>,
    m: Seq<(u32, usize)>,
    pos: int,
    len: int,
    i: int,
)
    requires
        0 <= i < pat.len(),
        tracks_last_seen(pat, goal, m, i + 1),
        holds_all(goal, m),
        m.len() > 0,
        m.last().1 == i,
        m[0].1 <= i,
        len > 0,
        i + 1 - m[0].1 >= len,
        best_before(pat, goal, pos, len, i),
    ensures
        best_before(pat, goal, pos, len, i + 1),
{
    reveal(best_before);
    assert forall|s: int, l: int| s + l == i + 1 && #[trigger] covers(pat, goal, s, l) implies len
        <= l && (l == len ==> pos <= s) by {
        lemma_window_to_end(pat, goal, m, i, s);
    }
}

/// With every goal element seen, the range from the front entry to `i` becomes
/// the best one where it is shorter than the best one so far, or where there is none.
proof fn lemma_best_take(
    pat: Seq<u32>,
    goal: Set<u32>,
    m: Seq<(u32, usize)>,
    pos: int,
    len: int,
    i: int,
)
    requires
        goal.finite(),
        0 <= i < pat.len(),
        tracks_last_seen(pat, goal, m, i + 1),
        holds_all(goal, m),
        m.len() > 0,
        m.last().1 == i,
        m[0].1 <= i,
        len == 0 || i + 1 - m[0].1 < len,
        best_before(pat, goal, pos, len, i),
    ensures
        i + 1 - m[0].1 >= goal.len(),
        i + 1 - m[0].1 > goal.len() ==> best_before(pat, goal, m[0].1 as int, i + 1 - m[0].1, i + 1),
        i + 1 - m[0].1 == goal.len() ==> shortest_span_result(pat, goal, m[0].1 as int, i + 1 - m[0].1),
{
    reveal(best_before);
    let head = m[0].1 as int;
    let newlen = i + 1 - head;
    lemma_window_to_end(pat, goal, m, i, head);
    lemma_span_at_least_goal(pat, goal, head, newlen);
    assert forall|s: int, l: int| s + l <= i + 1 && #[trigger] covers(pat, goal, s, l) implies newlen
        <= l && (l == newlen ==> head <= s) by {
        if s + l == i + 1 {
            lemma_window_to_end(pat, goal, m, i, s);
        }
    }
    if newlen == goal.len() {
        assert forall|s: int, l: int| #[trigger] covers(pat, goal, s, l) implies newlen <= l && (l
            == newlen ==> head <= s) by {
            lemma_span_at_least_goal(pat, goal, s, l);
        }
        assert(!goal.is_empty()) by {
            lemma_window_to_end(pat, goal, m, i, head);
            assert(goal.contains(m[0].0)) by {
                reveal(tracks_last_seen);
            }
        }
    }
}

/// Once every position is passed, the best range is the shortest span.
proof fn lemma_best_done(pat: Seq<u32>, goal: Set<u32>, pos: int, len: int)
    requires
        !goal.is_empty(),
        best_before(pat, goal, pos, len, pat.len() as int),
    ensures
        shortest_span_result(pat, goal, pos, len),
{
    reveal(best_before);
    if len > 0 {
        assert(covers(pat, goal, pos, len));
    }
    if len == 0 && coverable(pat, goal) {
        let (s, l) = choose|s: int, l: int| covers(pat, goal, s, l);
        assert(!covers(pat, goal, s, l));
    }
}

/// Finds the shortest contiguous range of `pat` that holds every element of
/// `goal`, as its start and length; `(0, 0)` where `goal` is empty or no range
/// holds it. Among shortest ranges the leftmost is returned. Text is searched
/// by passing each character as its code point.
pub fn span(pat: &[u32], goal: HashSet<u32>) -> (r: (usize, usize))
    requires
        goal@.finite(),
    ensures
        shortest_span_result(pat@, goal@, r.0 as int, r.1 as int),
        goal@.is_empty() ==> r == (0usize, 0usize),
        pat@.len() == 0 ==> r == (0usize, 0usize),
        r.1 > 0 ==> covers(pat@, goal@, r.0 as int, r.1 as int),
        r.1 > 0 ==> forall|s: int, l: int| #[trigger] covers(pat@, goal@, s, l) ==> r.1 <= l,
        r.1 == goal@.len() ==> {
            &&& pat@.subrange(r.0 as int, r.0 + r.1).no_duplicates()
            &&& window_set(pat@, r.0 as int, r.1 as int) == goal@
        },
        (exists|x: u32| goal@.contains(x) && !pat@.contains(x)) ==> r == (0usize, 0usize),
{
    broadcast use vstd::std_specs::hash::group_hash_axioms;
    broadcast use vstd::set_lib::lemma_set_empty_equivalency_len;

    let ghost p = pat@;
    let ghost g = goal@;
    let goal_len = goal.len();
    if goal_len == 0 {
        proof {
            lemma_result_properties(p, g, 0, 0);
        }
        return (0, 0);
    }
    let mut pos: usize = 0;
    let mut len: usize = 0;
    let mut map = new_map();
    proof {
        reveal(tracks_last_seen);
        lemma_best_start(p, g);
    }
    let mut i: usize = 0;
    while i < pat.len()
        invariant
            p == pat@,
            g == goal@,
            g.finite(),
            !g.is_empty(),
            goal_len == g.len(),
            i <= p.len(),
            tracks_last_seen(p, g, recency_entries(map), i as int),
            best_before(p, g, pos as int, len as int, i as int),
        decreases p.len() - i,
    {
        let x = pat[i];
        if goal.contains(&x) {
            let ghost m0 = recency_entries(map);
            insert_back(&mut map, x, i);
            proof {
                if exists|k: int| 0 <= k < m0.len() && #[trigger] m0[k].0 == x {
                    let k0 = choose|k: int| 0 <= k < m0.len() && #[trigger] m0[k].0 == x;
                    lemma_track_move(p, g, m0, i, k0);
                } else {
                    lemma_track_append(p, g, m0, i);
                }
            }
            let ghost m = recency_entries(map);
            proof {
                lemma_holds_all_by_count(p, g, m, i + 1);
            }
            let head = front_entry(&map).unwrap().1;
            let tail = back_entry(&map).unwrap().1;
            let newlen = tail - head + 1;
            if entry_count(&map) == goal_len && (len == 0 || newlen < len) {
                proof {
                    lemma_best_take(p, g, m, pos as int, len as int, i as int);
                }
                pos = head;
                len = newlen;
                if len == goal_len {
                    proof {
                        lemma_result_properties(p, g, pos as int, len as int);
                    }
                    return (pos, len);
                }
            } else if entry_count(&map) == goal_len {
                proof {
                    lemma_best_keep(p, g, m, pos as int, len as int, i as int);
                }
            } else {
                proof {
                    lemma_best_unseen(p, g, m, pos as int, len as int, i as int);
                }
            }
        } else {
            proof {
                lemma_track_skip(p, g, recency_entries(map), i as int);
                lemma_best_skip(p, g, pos as int, len as int, i as int);
            }
        }
        i = i + 1;
    }
    proof {
        lemma_best_done(p, g, pos as int, len as int);
        lemma_result_properties(p, g, pos as int, len as int);
    }
    (pos, len)
}

} // verus!
