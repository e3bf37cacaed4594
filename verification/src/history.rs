use vstd::prelude::*;
use crate::words::{words_of, copy_word, same_word};
use crate::stats::{Tcmdstate, table_view, record_spec, record_guess, keys_unique, count_in_table, lemma_record_counts, find_entry, lemma_find_entry_found};

verus! {

// ---------------------------------------------------------------------
// The saved state, as read
// ---------------------------------------------------------------------

/// A game of the saved state as read: its answer and its guesses, each
/// present only where the saved text held a string (a guess list that is
/// not a list is `None`).
pub struct SavedRound {
    pub answer: Option<Vec<char>>,
    pub guesses: Option<Vec<Option<Vec<char>>>>,
}

/// The saved state as read: the number of rounds where it is a number, and
/// the games where they are a list.
pub struct SavedState {
    pub total_rounds: Option<u64>,
    pub games: Option<Vec<SavedRound>>,
}

/// A game as it is kept and saved again.
pub struct GameRound {
    pub answer: Vec<char>,
    pub guesses: Vec<Vec<char>>,
}

/// The state that is saved.
pub struct Statesjson {
    pub total_rounds: u64,
    pub games: Vec<GameRound>,
}

/// What loading the saved state gives: the state, the guess table, and
/// the games won, lost, and the guesses of the games won.
pub struct History {
    pub record: Statesjson,
    pub table: Vec<Tcmdstate>,
    pub wins: i32,
    pub losses: i32,
    pub win_guesses: i32,
}

/// The strings among the listed guesses, in order.
pub open spec fn text_guesses(g: Seq<Option<Vec<char>>>) -> Seq<Seq<char>>
    decreases g.len(),
{
    if g.len() == 0 {
        seq![]
    } else {
        let prev = text_guesses(g.drop_last());
        match g.last() {
            Some(w) => prev.push(w@),
            None => prev,
        }
    }
}

/// The guesses of a saved game that are strings.
pub open spec fn saved_guesses(r: SavedRound) -> Seq<Seq<char>> {
    match r.guesses {
        Some(g) => text_guesses(g@),
        None => seq![],
    }
}

/// How many entries the guess list of a saved game has, strings or not.
pub open spec fn listed_guesses(r: SavedRound) -> int {
    match r.guesses {
        Some(g) => g@.len() as int,
        None => 0,
    }
}

/// The answer of a saved game; empty when it is not a string.
pub open spec fn saved_answer(r: SavedRound) -> Seq<char> {
    match r.answer {
        Some(a) => a@,
        None => seq![],
    }
}

/// A saved game was won when its last guess is its answer.
pub open spec fn round_won(r: SavedRound) -> bool {
    saved_answer(r) == saved_guesses(r).last()
}

/// A saved game has a guess list with at least one string.
pub open spec fn playable(r: SavedRound) -> bool {
    r.guesses is Some && saved_guesses(r).len() > 0
}

/// The saved games.
pub open spec fn saved_rounds(s: SavedState) -> Seq<SavedRound> {
    match s.games {
        Some(g) => g@,
        None => seq![],
    }
}

/// The games won.
pub open spec fn wins_in(rs: Seq<SavedRound>) -> int
    decreases rs.len(),
{
    if rs.len() == 0 {
        0
    } else {
        wins_in(rs.drop_last()) + (if round_won(rs.last()) {
            1int
        } else {
            0int
        })
    }
}

/// The listed guesses of the games won.
pub open spec fn win_guesses_in(rs: Seq<SavedRound>) -> int
    decreases rs.len(),
{
    if rs.len() == 0 {
        0
    } else {
        win_guesses_in(rs.drop_last()) + (if round_won(rs.last()) {
            listed_guesses(rs.last())
        } else {
            0int
        })
    }
}

/// All string guesses of the games, in order.
pub open spec fn guesses_in(rs: Seq<SavedRound>) -> Seq<Seq<char>>
    decreases rs.len(),
{
    if rs.len() == 0 {
        seq![]
    } else {
        guesses_in(rs.drop_last()) + saved_guesses(rs.last())
    }
}

/// The guess table `t` after the guesses `ws`, in order.
pub open spec fn table_after(t: Seq<(Seq<char>, int)>, ws: Seq<Seq<char>>) -> Seq<(Seq<char>, int)>
    decreases ws.len(),
{
    if ws.len() == 0 {
        t
    } else {
        record_spec(table_after(t, ws.drop_last()), ws.last())
    }
}

/// How often `w` occurs in `ws`.
pub open spec fn occurrences(ws: Seq<Seq<char>>, w: Seq<char>) -> int
    decreases ws.len(),
{
    if ws.len() == 0 {
        0
    } else {
        occurrences(ws.drop_last(), w) + (if ws.last() == w {
            1int
        } else {
            0int
        })
    }
}

/// A kept game as its answer and guesses.
pub open spec fn round_view(g: GameRound) -> (Seq<char>, Seq<Seq<char>>) {
    (g.answer@, words_of(g.guesses@))
}

/// Kept games as answers and guesses.
pub open spec fn rounds_view(v: Seq<GameRound>) -> Seq<(Seq<char>, Seq<Seq<char>>)> {
    v.map_values(|g: GameRound| round_view(g))
}

/// A saved game as answer and guesses, as it is kept.
pub open spec fn saved_view(r: SavedRound) -> (Seq<char>, Seq<Seq<char>>) {
    (saved_answer(r), saved_guesses(r))
}

/// Every count of the table is at most `n`.
pub open spec fn counts_at_most(t: Seq<(Seq<char>, int)>, n: int) -> bool {
    forall|i: int| 0 <= i < t.len() ==> (#[trigger] t[i]).1 <= n
}

// ---------------------------------------------------------------------
// Lemmas
// ---------------------------------------------------------------------

proof fn lemma_table_after_push(t: Seq<(Seq<char>, int)>, ws: Seq<Seq<char>>, w: Seq<char>)
    ensures
        table_after(t, ws.push(w)) == record_spec(table_after(t, ws), w),
{
    assert(ws.push(w).drop_last() =~= ws);
}

proof fn lemma_table_after_concat(t: Seq<(Seq<char>, int)>, a: Seq<Seq<char>>, b: Seq<Seq<char>>)
    ensures
        table_after(t, a + b) == table_after(table_after(t, a), b),
    decreases b.len(),
{
    if b.len() == 0 {
        assert(a + b =~= a);
    } else {
        lemma_table_after_concat(t, a, b.drop_last());
        assert((a + b).drop_last() =~= a + b.drop_last());
    }
}

proof fn lemma_record_bound(t: Seq<(Seq<char>, int)>, w: Seq<char>, n: int)
    requires
        counts_at_most(t, n),
        n >= 0,
    ensures
        counts_at_most(record_spec(t, w), n + 1),
{
    lemma_find_entry_found(t, w, 0);
    let i = find_entry(t, w, 0);
    let r = record_spec(t, w);
    assert forall|j: int| 0 <= j < r.len() implies (#[trigger] r[j]).1 <= n + 1 by {
        if j < t.len() {
            assert(t[j].1 <= n);
        }
    }
}

proof fn lemma_text_guesses_len(g: Seq<Option<Vec<char>>>)
    ensures
        text_guesses(g).len() <= g.len(),
    decreases g.len(),
{
    if g.len() > 0 {
        lemma_text_guesses_len(g.drop_last());
    }
}

proof fn lemma_guesses_in_push(rs: Seq<SavedRound>, r: SavedRound)
    ensures
        guesses_in(rs.push(r)) == guesses_in(rs) + saved_guesses(r),
        wins_in(rs.push(r)) == wins_in(rs) + (if round_won(r) { 1int } else { 0int }),
        win_guesses_in(rs.push(r)) == win_guesses_in(rs) + (if round_won(r) {
            listed_guesses(r)
        } else {
            0int
        }),
{
    assert(rs.push(r).drop_last() =~= rs);
}

proof fn lemma_wins_bounds(rs: Seq<SavedRound>)
    ensures
        0 <= wins_in(rs) <= rs.len(),
    decreases rs.len(),
{
    if rs.len() > 0 {
        lemma_wins_bounds(rs.drop_last());
    }
}

proof fn lemma_prefix_bounds(rs: Seq<SavedRound>, k: int)
    requires
        0 <= k <= rs.len(),
        forall|j: int| 0 <= j < rs.len() ==> listed_guesses(#[trigger] rs[j]) >= 0,
    ensures
        guesses_in(rs.take(k)).len() <= guesses_in(rs).len(),
        0 <= win_guesses_in(rs.take(k)) <= win_guesses_in(rs),
    decreases rs.len() - k,
{
    if k < rs.len() {
        lemma_prefix_bounds(rs, k + 1);
        assert(rs.take(k + 1) =~= rs.take(k).push(rs[k]));
        lemma_guesses_in_push(rs.take(k), rs[k]);
        lemma_win_guesses_nonneg(rs.take(k));
    } else {
        assert(rs.take(k) =~= rs);
        lemma_win_guesses_nonneg(rs);
    }
}

proof fn lemma_win_guesses_nonneg(rs: Seq<SavedRound>)
    requires
        forall|j: int| 0 <= j < rs.len() ==> listed_guesses(#[trigger] rs[j]) >= 0,
    ensures
        win_guesses_in(rs) >= 0,
    decreases rs.len(),
{
    if rs.len() > 0 {
        lemma_win_guesses_nonneg(rs.drop_last());
    }
}

// ---------------------------------------------------------------------
// Loading
// ---------------------------------------------------------------------

/// Reads one saved game: its answer (empty when missing) and its string
/// guesses, each counted in the guess table.
fn load_round(r: &SavedRound, table: &mut Vec<Tcmdstate>, Ghost(n): Ghost<int>) -> (res: (GameRound, usize))
    requires
        r.guesses is Some,
        0 <= n,
        counts_at_most(table_view(old(table)@), n),
        n + saved_guesses(*r).len() < i32::MAX,
    ensures
        round_view(res.0) == saved_view(*r),
        res.1 as int == listed_guesses(*r),
        table_view(final(table)@) == table_after(table_view(old(table)@), saved_guesses(*r)),
        counts_at_most(table_view(final(table)@), n + saved_guesses(*r).len()),
{
    let answer = match &r.answer {
        Some(a) => copy_word(a),
        None => Vec::new(),
    };
    let mut guesses: Vec<Vec<char>> = Vec::new();
    let ghost t0 = table_view(table@);
    let listed = match &r.guesses {
        Some(v) => {
            proof {
                lemma_text_guesses_len(v@);
            }
            for k in 0..v.len()
                invariant
                    0 <= n,
                    n + text_guesses(v@).len() < i32::MAX,
                    words_of(guesses@) == text_guesses(v@.take(k as int)),
                    table_view(table@) == table_after(t0, text_guesses(v@.take(k as int))),
                    counts_at_most(table_view(table@), n + text_guesses(v@.take(k as int)).len()),
                    text_guesses(v@.take(k as int)).len() <= text_guesses(v@).len(),
            {
                proof {
                    assert(v@.take(k + 1).drop_last() =~= v@.take(k as int));
                    lemma_text_guesses_prefix(v@, k + 1);
                }
                match &v[k] {
                    Some(w) => {
                        proof {
                            lemma_table_after_push(t0, text_guesses(v@.take(k as int)), w@);
                            lemma_record_bound(
                                table_view(table@),
                                w@,
                                n + text_guesses(v@.take(k as int)).len(),
                            );
                        }
                        guesses.push(copy_word(w));
                        proof {
                            let tv = table_view(table@);
                            assert forall|j: int| 0 <= j < table@.len() implies (
                            #[trigger] table@[j]).num < i32::MAX by {
                                assert(tv[j].1 <= n + text_guesses(v@.take(k as int)).len());
                            }
                        }
                        record_guess(table, w);
                        assert(words_of(guesses@) =~= text_guesses(v@.take(k + 1)));
                    },
                    None => {},
                }
            }
            assert(v@.take(v@.len() as int) =~= v@);
            v.len()
        },
        None => 0,
    };
    (GameRound { answer, guesses }, listed)
}

proof fn lemma_text_guesses_prefix(g: Seq<Option<Vec<char>>>, k: int)
    requires
        0 <= k <= g.len(),
    ensures
        text_guesses(g.take(k)).len() <= text_guesses(g).len(),
    decreases g.len() - k,
{
    if k < g.len() {
        lemma_text_guesses_prefix(g, k + 1);
        assert(g.take(k + 1).drop_last() =~= g.take(k));
    } else {
        assert(g.take(k) =~= g);
    }
}

/// Loads the saved state: the number of rounds (0 when it is not a
/// number), every game with its answer and string guesses, the guess
/// table counting every string guess, and the games won (those whose last
/// string guess is the answer), lost, and the listed guesses of the games
/// won.
pub fn load_history(saved: &SavedState) -> (h: History)
    requires
        forall|j: int|
            0 <= j < saved_rounds(*saved).len() ==> #[trigger] playable(saved_rounds(*saved)[j]),
        forall|j: int|
            0 <= j < saved_rounds(*saved).len() ==> #[trigger] listed_guesses(saved_rounds(*saved)[j])
                <= i32::MAX,
        saved_rounds(*saved).len() <= i32::MAX,
        win_guesses_in(saved_rounds(*saved)) <= i32::MAX,
        guesses_in(saved_rounds(*saved)).len() < i32::MAX,
    ensures
        h.record.total_rounds == (match saved.total_rounds {
            Some(n) => n,
            None => 0,
        }),
        rounds_view(h.record.games@) == saved_rounds(*saved).map_values(|r: SavedRound| saved_view(r)),
        h.wins == wins_in(saved_rounds(*saved)),
        h.losses == saved_rounds(*saved).len() - wins_in(saved_rounds(*saved)),
        h.win_guesses == win_guesses_in(saved_rounds(*saved)),
        table_view(h.table@) == table_after(seq![], guesses_in(saved_rounds(*saved))),
        counts_at_most(table_view(h.table@), guesses_in(saved_rounds(*saved)).len() as int),
{
    let ghost rs = saved_rounds(*saved);
    let total_rounds: u64 = match saved.total_rounds {
        Some(n) => n,
        None => 0,
    };
    let mut games: Vec<GameRound> = Vec::new();
    let mut table: Vec<Tcmdstate> = Vec::new();
    let mut wins: i32 = 0;
    let mut losses: i32 = 0;
    let mut win_guesses: i32 = 0;
    proof {
        assert(table_view(table@) =~= seq![]);
    }
    match &saved.games {
        Some(list) => {
            proof {
                lemma_win_guesses_nonneg(rs);
            }
            for k in 0..list.len()
                invariant
                    rs == list@,
                    forall|j: int| 0 <= j < rs.len() ==> #[trigger] playable(rs[j]),
                    forall|j: int| 0 <= j < rs.len() ==> #[trigger] listed_guesses(rs[j]) <= i32::MAX,
                    rs.len() <= i32::MAX,
                    win_guesses_in(rs) <= i32::MAX,
                    guesses_in(rs).len() < i32::MAX,
                    rounds_view(games@) == rs.take(k as int).map_values(|r: SavedRound| saved_view(r)),
                    wins == wins_in(rs.take(k as int)),
                    losses == k - wins_in(rs.take(k as int)),
                    win_guesses == win_guesses_in(rs.take(k as int)),
                    table_view(table@) == table_after(seq![], guesses_in(rs.take(k as int))),
                    counts_at_most(table_view(table@), guesses_in(rs.take(k as int)).len() as int),
            {
                let ghost before = games@;
                let ghost pre = rs.take(k as int);
                proof {
                    assert(rs.take(k + 1) =~= pre.push(rs[k as int]));
                    lemma_guesses_in_push(pre, rs[k as int]);
                    assert forall|j: int| 0 <= j < rs.len() implies listed_guesses(#[trigger] rs[j]) >= 0 by {}
                    lemma_prefix_bounds(rs, k + 1);
                    lemma_wins_bounds(pre);
                    lemma_table_after_concat(seq![], guesses_in(pre), saved_guesses(rs[k as int]));
                    assert(playable(rs[k as int]));
                    assert(listed_guesses(rs[k as int]) <= i32::MAX);
                }
                let (round, listed) = load_round(&list[k], &mut table, Ghost(guesses_in(pre).len() as int));
                let sumsum: i32 = listed as i32;
                let last = round.guesses.len() - 1;
                let won = same_word(&round.answer, &round.guesses[last]);
                proof {
                    assert(words_of(round.guesses@)[last as int] == round.guesses@[last as int]@);
                    assert(won == round_won(rs[k as int]));
                }
                if won {
                    wins += 1;
                    win_guesses += sumsum;
                } else {
                    losses += 1;
                }
                games.push(round);
                proof {
                    let target = rs.take(k + 1).map_values(|r: SavedRound| saved_view(r));
                    assert(rounds_view(before).len() == k);
                    assert forall|j: int| 0 <= j < k + 1 implies #[trigger] rounds_view(games@)[j]
                        == target[j] by {
                        if j < k {
                            assert(games@[j] == before[j]);
                            assert(rounds_view(before)[j] == rs.take(k as int).map_values(
                                |r: SavedRound| saved_view(r),
                            )[j]);
                        } else {
                            assert(games@[j] == round);
                        }
                    }
                    assert(rounds_view(games@) =~= target);
                }
            }
            proof {
                assert(rs.take(rs.len() as int) =~= rs);
            }
        },
        None => {
            proof {
                assert(rounds_view(games@) =~= rs.map_values(|r: SavedRound| saved_view(r)));
            }
        },
    }
    History {
        record: Statesjson { total_rounds, games },
        table,
        wins,
        losses,
        win_guesses,
    }
}

// ---------------------------------------------------------------------
// Laws
// ---------------------------------------------------------------------

/// Law: the guess table built from a list of guesses has one entry per
/// word, and counts each word as often as it occurs in the list.
pub proof fn lemma_table_counts_occurrences(ws: Seq<Seq<char>>)
    ensures
        keys_unique(table_after(seq![], ws)),
        forall|x: Seq<char>| #[trigger] count_in_table(table_after(seq![], ws), x) == occurrences(ws, x),
    decreases ws.len(),
{
    if ws.len() == 0 {
        assert forall|x: Seq<char>| #[trigger] count_in_table(table_after(seq![], ws), x) == occurrences(
            ws,
            x,
        ) by {
            lemma_find_entry_found(seq![], x, 0);
        }
    } else {
        lemma_table_counts_occurrences(ws.drop_last());
        lemma_record_counts(table_after(seq![], ws.drop_last()), ws.last());
        assert forall|x: Seq<char>| #[trigger] count_in_table(table_after(seq![], ws), x) == occurrences(
            ws,
            x,
        ) by {
            assert(count_in_table(table_after(seq![], ws.drop_last()), x) == occurrences(ws.drop_last(), x));
        }
    }
}

} // verus!
