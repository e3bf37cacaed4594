use vstd::prelude::*;
use crate::letters::{StateofChar, is_upper, letter_index};
use crate::game::{WordleGame, GameMode, GameDifficulty, blank_row};
use crate::feedback::{refresh, wordle_feedback, keyboard_after, lemma_fresh_row_is_wordle, lemma_all_green_iff_same_word};
use crate::hard_mode::{difficultmode, hard_mode_allows};
use crate::words::{words_of, copy_word, contains_word, normalize_word, uppercase};
use crate::stats::{Tcmdstate, table_view, record_spec, record_guess, counts_below_max};
use crate::history::{GameRound, Statesjson, rounds_view};

verus! {

// ---------------------------------------------------------------------
// One game
// ---------------------------------------------------------------------

/// Clears the keyboard before a new game.
pub fn start_game(game: &mut WordleGame)
    requires
        old(game).wf(),
    ensures
        final(game).wf(),
        final(game).same_setup(&*old(game)),
        final(game).gamestates.stateofword@ == old(game).gamestates.stateofword@,
        final(game).gamestates.guessword@ == old(game).gamestates.guessword@,
        final(game).gamestates.stateofal@ == blank_row(26),
{
    for k in 0..26usize
        invariant
            game.wf(),
            game.same_setup(&*old(game)),
            game.gamestates.stateofword@ == old(game).gamestates.stateofword@,
            game.gamestates.guessword@ == old(game).gamestates.guessword@,
            forall|j: int| 0 <= j < k ==> #[trigger] game.gamestates.stateofal@[j] == StateofChar::X,
    {
        game.gamestates.stateofal.set(k, StateofChar::X);
    }
    assert(game.gamestates.stateofal@ =~= blank_row(26));
}

/// Takes a typed answer: upper-cased, it becomes the answer when it is in
/// the list of answers.
pub fn choose_answer(game: &mut WordleGame, answers: &Vec<Vec<char>>, typed: &Vec<char>) -> (ok: bool)
    requires
        old(game).wf(),
    ensures
        final(game).wf(),
        ok == words_of(answers@).contains(uppercase(typed@)),
        ok ==> final(game).gamestates.answer@ == uppercase(typed@),
        !ok ==> final(game).gamestates.answer@ == old(game).gamestates.answer@,
        final(game).same_options(&*old(game)),
        final(game).gamestates.days == old(game).gamestates.days,
        final(game).gamestates.stateofword@ == old(game).gamestates.stateofword@,
        final(game).gamestates.stateofal@ == old(game).gamestates.stateofal@,
        final(game).gamestates.guessword@ == old(game).gamestates.guessword@,
{
    let w = normalize_word(typed);
    if contains_word(answers, &w) {
        game.gamestates.answer = w;
        true
    } else {
        false
    }
}

/// Takes guess `word` (already upper-cased) in round `round` (from 1): in
/// hard mode from the second round on it must obey the hard-mode rule, and
/// it must be an acceptable word. An accepted guess becomes the last guess
/// and is counted in the guess table.
pub fn submit_guess(
    game: &mut WordleGame,
    acceptable: &Vec<Vec<char>>,
    word: &Vec<char>,
    round: usize,
    table: &mut Vec<Tcmdstate>,
) -> (ok: bool)
    requires
        old(game).wf(),
        old(game).gamedifficulty == GameDifficulty::Difficult && round > 1 ==> word@.len() >= 5,
        words_of(acceptable@).contains(word@) ==> word@.len() <= 5,
        counts_below_max(old(table)@),
    ensures
        final(game).wf(),
        final(game).same_setup(&*old(game)),
        final(game).gamestates.stateofword@ == old(game).gamestates.stateofword@,
        final(game).gamestates.stateofal@ == old(game).gamestates.stateofal@,
        ok == ((old(game).gamedifficulty == GameDifficulty::Difficult && round > 1 ==> hard_mode_allows(
            old(game).gamestates.stateofword@,
            old(game).gamestates.guessword@,
            word@,
        )) && words_of(acceptable@).contains(word@)),
        ok ==> final(game).gamestates.guessword@ == word@ + old(game).gamestates.guessword@.skip(
            word@.len() as int,
        ),
        ok ==> table_view(final(table)@) == record_spec(table_view(old(table)@), word@),
        !ok ==> final(game).gamestates.guessword@ == old(game).gamestates.guessword@,
        !ok ==> final(table)@ == old(table)@,
{
    let mut diff = true;
    if game.gamedifficulty == GameDifficulty::Difficult && round > 1 {
        diff = difficultmode(word, game);
    }
    if diff {
        if contains_word(acceptable, word) {
            let ghost g0 = game.gamestates.guessword@;
            for csum in 0..word.len()
                invariant
                    word@.len() <= 5,
                    game.wf(),
                    game.same_setup(&*old(game)),
                    game.gamestates.stateofword@ == old(game).gamestates.stateofword@,
                    game.gamestates.stateofal@ == old(game).gamestates.stateofal@,
                    g0 == old(game).gamestates.guessword@,
                    g0.len() == 5,
                    game.gamestates.guessword@ == word@.take(csum as int) + g0.skip(csum as int),
            {
                let ghost prev = game.gamestates.guessword@;
                game.gamestates.guessword.set(csum, word[csum]);
                assert forall|j: int| 0 <= j < 5 implies #[trigger] game.gamestates.guessword@[j] == (word@.take(
                    csum + 1,
                ) + g0.skip(csum + 1))[j] by {
                    if j < csum {
                        assert(prev[j] == word@.take(csum as int)[j]);
                    } else if j > csum {
                        assert(prev[j] == g0.skip(csum as int)[j - csum]);
                    }
                }
                assert(game.gamestates.guessword@ =~= word@.take(csum + 1) + g0.skip(csum + 1));
            }
            assert(word@.take(word@.len() as int) =~= word@);
            record_guess(table, word);
            return true;
        }
    }
    false
}

/// Colours guess `word` against the answer on a cleared row, types it on
/// the keyboard, and tells whether every letter is green.
pub fn judge_guess(game: &mut WordleGame, word: &Vec<char>) -> (won: bool)
    requires
        old(game).wf(),
        word@.len() >= 5,
        old(game).gamestates.answer@.len() >= 5,
    ensures
        final(game).wf(),
        final(game).same_setup(&*old(game)),
        final(game).gamestates.guessword@ == old(game).gamestates.guessword@,
        final(game).gamestates.stateofword@ == wordle_feedback(word@, old(game).gamestates.answer@),
        final(game).gamestates.stateofal@ == keyboard_after(
            old(game).gamestates.stateofal@,
            word@,
            final(game).gamestates.stateofword@,
            5,
        ),
        forall|k: int|
            0 <= k < 26 && #[trigger] final(game).gamestates.stateofal@[k] == StateofChar::G
                ==> old(game).gamestates.stateofal@[k] == StateofChar::G || exists|j: int|
                0 <= j < 5 && is_upper(word@[j]) && letter_index(word@[j]) == k
                    && final(game).gamestates.stateofword@[j] == StateofChar::G,
        won == (forall|i: int| 0 <= i < 5 ==> #[trigger] final(game).gamestates.stateofword@[i] == StateofChar::G),
        won == (word@.take(5) == old(game).gamestates.answer@.take(5)),
{
    for k in 0..5usize
        invariant
            game.wf(),
            game.same_setup(&*old(game)),
            game.gamestates.guessword@ == old(game).gamestates.guessword@,
            game.gamestates.stateofal@ == old(game).gamestates.stateofal@,
            forall|j: int| 0 <= j < k ==> #[trigger] game.gamestates.stateofword@[j] == StateofChar::X,
    {
        game.gamestates.stateofword.set(k, StateofChar::X);
    }
    assert(game.gamestates.stateofword@ =~= blank_row(5));
    let anvec = copy_word(&game.gamestates.answer);
    refresh(word, &anvec, game);
    proof {
        lemma_fresh_row_is_wordle(word@, anvec@);
        lemma_all_green_iff_same_word(word@, anvec@);
    }
    let mut endgame = true;
    for i in 0..5usize
        invariant
            game.wf(),
            endgame == (forall|j: int| 0 <= j < i ==> #[trigger] game.gamestates.stateofword@[j] == StateofChar::G),
    {
        match game.gamestates.stateofword[i] {
            StateofChar::G => {},
            _ => {
                endgame = false;
            },
        }
    }
    endgame
}

/// The plain board line: the five letter colours, a space, the 26 key
/// colours.
pub open spec fn plain_line(w: Seq<StateofChar>, al: Seq<StateofChar>) -> Seq<char> {
    w.map_values(|s: StateofChar| s.letter()) + seq![' '] + al.map_values(|s: StateofChar| s.letter())
}

/// The board line printed when the output is not a terminal.
pub fn render_plain(game: &WordleGame) -> (line: Vec<char>)
    requires
        game.wf(),
    ensures
        line@ == plain_line(game.gamestates.stateofword@, game.gamestates.stateofal@),
{
    let mut line: Vec<char> = Vec::new();
    let ghost w = game.gamestates.stateofword@;
    let ghost al = game.gamestates.stateofal@;
    for i in 0..5usize
        invariant
            game.wf(),
            w == game.gamestates.stateofword@,
            line@ == w.take(i as int).map_values(|s: StateofChar| s.letter()),
    {
        line.push(game.gamestates.stateofword[i].to_char());
        assert(line@ =~= w.take(i + 1).map_values(|s: StateofChar| s.letter()));
    }
    line.push(' ');
    for i in 0..26usize
        invariant
            game.wf(),
            w == game.gamestates.stateofword@,
            al == game.gamestates.stateofal@,
            line@ == w.map_values(|s: StateofChar| s.letter()) + seq![' '] + al.take(i as int).map_values(
                |s: StateofChar| s.letter(),
            ),
    {
        proof {
            assert(w.take(5) =~= w);
        }
        line.push(game.gamestates.stateofal[i].to_char());
        assert(line@ =~= w.map_values(|s: StateofChar| s.letter()) + seq![' '] + al.take(i + 1).map_values(
            |s: StateofChar| s.letter(),
        ));
    }
    assert(al.take(26) =~= al);
    line
}

/// The row kept for the terminal board: the five letter colours, then the
/// 26 key colours.
pub fn board_row(game: &WordleGame) -> (row: Vec<StateofChar>)
    requires
        game.wf(),
    ensures
        row@ == game.gamestates.stateofword@ + game.gamestates.stateofal@,
{
    let mut row: Vec<StateofChar> = Vec::new();
    for i in 0..5usize
        invariant
            game.wf(),
            row@ == game.gamestates.stateofword@.take(i as int),
    {
        row.push(game.gamestates.stateofword[i]);
    }
    for i in 0..26usize
        invariant
            game.wf(),
            row@ == game.gamestates.stateofword@ + game.gamestates.stateofal@.take(i as int),
    {
        proof {
            assert(game.gamestates.stateofword@.take(5) =~= game.gamestates.stateofword@);
        }
        row.push(game.gamestates.stateofal[i]);
        assert(row@ =~= game.gamestates.stateofword@ + game.gamestates.stateofal@.take(i + 1));
    }
    assert(game.gamestates.stateofal@.take(26) =~= game.gamestates.stateofal@);
    row
}

// ---------------------------------------------------------------------
// The score
// ---------------------------------------------------------------------

/// Games won and lost, and the guesses used in the games won.
pub struct Score {
    pub wins: i32,
    pub losses: i32,
    pub win_guesses: i32,
}

impl Score {
    pub fn new() -> (s: Score)
        ensures
            s.wins == 0,
            s.losses == 0,
            s.win_guesses == 0,
    {
        Score { wins: 0, losses: 0, win_guesses: 0 }
    }

    /// Counts a game won in `rounds` guesses, or lost.
    pub fn record_game(&mut self, won: bool, rounds: i32)
        requires
            won ==> old(self).wins < i32::MAX && old(self).win_guesses + rounds <= i32::MAX
                && old(self).win_guesses + rounds >= i32::MIN,
            !won ==> old(self).losses < i32::MAX,
        ensures
            won ==> final(self).wins == old(self).wins + 1 && final(self).win_guesses == old(self).win_guesses
                + rounds && final(self).losses == old(self).losses,
            !won ==> final(self).losses == old(self).losses + 1 && final(self).wins == old(self).wins
                && final(self).win_guesses == old(self).win_guesses,
    {
        if won {
            self.wins = self.wins + 1;
            self.win_guesses = self.win_guesses + rounds;
        } else {
            self.losses = self.losses + 1;
        }
    }
}

// ---------------------------------------------------------------------
// The random mode
// ---------------------------------------------------------------------

/// Starts a round of the random mode: one more round, a new saved game
/// whose answer is that of the current day in the shuffled answers, which
/// also becomes the answer of the game.
pub fn begin_random_round(game: &mut WordleGame, shuffled_words: &Vec<Vec<char>>, record: &mut Statesjson)
    requires
        old(game).wf(),
        1 <= old(game).gamestates.days <= shuffled_words@.len(),
        old(record).total_rounds < u64::MAX,
    ensures
        final(game).wf(),
        final(game).gamestates.answer@ == shuffled_words@[old(game).gamestates.days - 1]@,
        final(game).gamestates.days == old(game).gamestates.days,
        final(game).same_options(&*old(game)),
        final(game).gamestates.stateofword@ == old(game).gamestates.stateofword@,
        final(game).gamestates.stateofal@ == old(game).gamestates.stateofal@,
        final(game).gamestates.guessword@ == old(game).gamestates.guessword@,
        final(record).total_rounds == old(record).total_rounds + 1,
        rounds_view(final(record).games@) == rounds_view(old(record).games@).push(
            (shuffled_words@[old(game).gamestates.days - 1]@, Seq::<Seq<char>>::empty()),
        ),
{
    record.total_rounds = record.total_rounds + 1;
    let n = shuffled_words.len();
    let days = game.gamestates.days;
    assert(days - 1 < n);
    let idx: usize = (days - 1) as usize;
    let answer = copy_word(&shuffled_words[idx]);
    let ghost before = record.games@;
    record.games.push(GameRound { answer: copy_word(&answer), guesses: Vec::new() });
    proof {
        let target = rounds_view(before).push(
            (shuffled_words@[days - 1]@, Seq::<Seq<char>>::empty()),
        );
        assert forall|j: int| 0 <= j < record.games@.len() implies #[trigger] rounds_view(record.games@)[j]
            == target[j] by {
            if j < before.len() {
                assert(record.games@[j] == before[j]);
            } else {
                assert(words_of(record.games@[j].guesses@) =~= Seq::<Seq<char>>::empty());
            }
        }
        assert(rounds_view(record.games@) =~= target);
    }
    game.gamestates.answer = answer;
}

/// Adds an accepted guess to the saved game in progress.
pub fn record_round_guess(record: &mut Statesjson, word: &Vec<char>)
    requires
        old(record).games@.len() > 0,
    ensures
        final(record).total_rounds == old(record).total_rounds,
        rounds_view(final(record).games@) == rounds_view(old(record).games@).update(
            old(record).games@.len() - 1,
            (
                rounds_view(old(record).games@).last().0,
                rounds_view(old(record).games@).last().1.push(word@),
            ),
        ),
{
    let ghost before = record.games@;
    let mut g = record.games.pop().unwrap();
    let ghost g0 = g;
    g.guesses.push(copy_word(word));
    record.games.push(g);
    proof {
        let target = rounds_view(before).update(
            before.len() - 1,
            (rounds_view(before).last().0, rounds_view(before).last().1.push(word@)),
        );
        assert(words_of(g.guesses@) =~= words_of(g0.guesses@).push(word@));
        assert forall|j: int| 0 <= j < record.games@.len() implies #[trigger] rounds_view(record.games@)[j]
            == target[j] by {
            if j < before.len() - 1 {
                assert(record.games@[j] == before[j]);
            }
        }
        assert(rounds_view(record.games@) =~= target);
    }
}

/// Moves the random mode to the next day.
pub fn next_day(game: &mut WordleGame)
    requires
        old(game).gamestates.days < u64::MAX,
        old(game).wf(),
    ensures
        final(game).wf(),
        final(game).gamestates.days == old(game).gamestates.days + 1,
        final(game).gamestates.answer@ == old(game).gamestates.answer@,
        final(game).same_options(&*old(game)),
        final(game).gamestates.stateofword@ == old(game).gamestates.stateofword@,
        final(game).gamestates.stateofal@ == old(game).gamestates.stateofal@,
        final(game).gamestates.guessword@ == old(game).gamestates.guessword@,
{
    game.gamestates.days = game.gamestates.days + 1;
}

/// After a game: whether a game follows, given the reply typed. The random
/// mode takes `N` (stop) or `Y` (go on) and refuses anything else (`None`);
/// the other modes stop on `N` and go on otherwise.
pub fn continue_after(mode: GameMode, reply: char) -> (next: Option<bool>)
    ensures
        mode == GameMode::RandomMode ==> next == (if reply == 'N' {
            Some(false)
        } else if reply == 'Y' {
            Some(true)
        } else {
            None
        }),
        mode != GameMode::RandomMode ==> next == Some(reply != 'N'),
{
    if mode == GameMode::RandomMode {
        if reply == 'N' {
            Some(false)
        } else if reply == 'Y' {
            Some(true)
        } else {
            None
        }
    } else {
        Some(reply != 'N')
    }
}

/// Whether a reply is asked for after a game: not when the answer was
/// given on the command line, which plays one game.
pub fn asks_to_continue(mode: GameMode) -> (ask: bool)
    ensures
        ask == (mode != GameMode::AnswerConsoleMode),
{
    mode != GameMode::AnswerConsoleMode
}

// ---------------------------------------------------------------------
// The terminal board
// ---------------------------------------------------------------------

/// The kept rows after round `u` (from 1) added `row`: a new empty row is
/// appended, then `row` is appended to row `u - 1`; rows are kept across
/// games, so in later games a round adds to the row of that round number.
pub open spec fn rows_after(rows: Seq<Seq<StateofChar>>, u: int, row: Seq<StateofChar>) -> Seq<Seq<StateofChar>> {
    let grown = rows.push(Seq::<StateofChar>::empty());
    grown.update(u - 1, grown[u - 1] + row)
}

/// The colours of the kept rows.
pub open spec fn rows_view(rows: Seq<Vec<StateofChar>>) -> Seq<Seq<StateofChar>> {
    rows.map_values(|r: Vec<StateofChar>| r@)
}

/// Adds the row of round `u` to the rows shown on the terminal.
pub fn add_board_row(rows: &mut Vec<Vec<StateofChar>>, u: usize, row: &Vec<StateofChar>)
    requires
        1 <= u <= old(rows)@.len() + 1,
    ensures
        rows_view(final(rows)@) == rows_after(rows_view(old(rows)@), u as int, row@),
{
    let ghost r0 = rows_view(rows@);
    rows.push(Vec::new());
    let ghost grown = rows@;
    let mut merged: Vec<StateofChar> = Vec::new();
    let n = rows[u - 1].len();
    for i in 0..n
        invariant
            1 <= u <= grown.len(),
            rows@ == grown,
            n == grown[u - 1]@.len(),
            merged@ == grown[u - 1]@.take(i as int),
    {
        merged.push(rows[u - 1][i]);
    }
    assert(merged@ =~= grown[u - 1]@);
    for i in 0..row.len()
        invariant
            1 <= u <= grown.len(),
            merged@ == grown[u - 1]@ + row@.take(i as int),
    {
        merged.push(row[i]);
        assert(merged@ =~= grown[u - 1]@ + row@.take(i + 1));
    }
    assert(row@.take(row@.len() as int) =~= row@);
    rows.set(u - 1, merged);
    proof {
        let target = rows_after(r0, u as int, row@);
        assert forall|j: int| 0 <= j < rows@.len() implies #[trigger] rows_view(rows@)[j] == target[j] by {
            if j < r0.len() {
                assert(grown[j] == old(rows)@[j]);
            }
        }
        assert(rows_view(rows@) =~= target);
    }
}

/// What a terminal row shows: every colour but the sixth, which is shown
/// as a blank (`None`).
pub fn terminal_cells(row: &Vec<StateofChar>) -> (cells: Vec<Option<StateofChar>>)
    ensures
        cells@ == Seq::new(row@.len(), |i: int| if i == 5 { None } else { Some(row@[i]) }),
{
    let mut cells: Vec<Option<StateofChar>> = Vec::new();
    for i in 0..row.len()
        invariant
            cells@ == Seq::new(i as nat, |j: int| if j == 5 { None } else { Some(row@[j]) }),
    {
        if i == 5 {
            cells.push(None);
        } else {
            cells.push(Some(row[i]));
        }
        assert(cells@ =~= Seq::new((i + 1) as nat, |j: int| if j == 5 { None } else { Some(row@[j]) }));
    }
    cells
}

} // verus!
