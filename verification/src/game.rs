use vstd::prelude::*;
use crate::letters::StateofChar;

verus! {

/// How the answer of a game is chosen.
#[derive(Clone, Copy, PartialEq, Eq, Structural, Debug)]
pub enum GameMode {
    /// The answer is typed in before each game.
    AnswerMode,
    /// The answer was given on the command line.
    AnswerConsoleMode,
    /// The answer is drawn from the shuffled list of answers, one per day.
    RandomMode,
}

#[derive(Clone, Copy, PartialEq, Eq, Structural, Debug)]
pub enum GameDifficulty {
    Normal,
    Difficult,
}

/// The state of the game in progress.
pub struct GameStates {
    pub answer: Vec<char>,
    pub days: u64,
    /// The colours of the five letters of the last guess.
    pub stateofword: Vec<StateofChar>,
    /// The colours of the 26 keys of the keyboard.
    pub stateofal: Vec<StateofChar>,
    /// The last accepted guess.
    pub guessword: Vec<char>,
}

pub struct WordleGame {
    pub wordle_istty: bool,
    pub gamemode: GameMode,
    pub gamedifficulty: GameDifficulty,
    pub seed: u64,
    pub stats: bool,
    pub gamestates: GameStates,
}

/// A row of `n` colours, all `X`.
pub open spec fn blank_row(n: nat) -> Seq<StateofChar> {
    Seq::new(n, |i: int| StateofChar::X)
}

impl WordleGame {
    /// Five letter colours, 26 key colours and a five-letter last guess.
    pub open spec fn wf(&self) -> bool {
        &&& self.gamestates.stateofword@.len() == 5
        &&& self.gamestates.stateofal@.len() == 26
        &&& self.gamestates.guessword@.len() == 5
    }

    /// The same options: terminal, mode, difficulty, seed and statistics.
    pub open spec fn same_options(&self, other: &WordleGame) -> bool {
        &&& self.wordle_istty == other.wordle_istty
        &&& self.gamemode == other.gamemode
        &&& self.gamedifficulty == other.gamedifficulty
        &&& self.seed == other.seed
        &&& self.stats == other.stats
    }

    /// Everything but the colours and the last guess.
    pub open spec fn same_setup(&self, other: &WordleGame) -> bool {
        &&& self.wordle_istty == other.wordle_istty
        &&& self.gamemode == other.gamemode
        &&& self.gamedifficulty == other.gamedifficulty
        &&& self.seed == other.seed
        &&& self.stats == other.stats
        &&& self.gamestates.answer@ == other.gamestates.answer@
        &&& self.gamestates.days == other.gamestates.days
    }

    /// The game before any option is applied: answer `CARGO`, day 1, all
    /// colours `X`, last guess `AAAAA`, answers typed in, normal difficulty.
    pub fn new() -> (g: WordleGame)
        ensures
            g.wf(),
            g.gamestates.answer@ == seq!['C', 'A', 'R', 'G', 'O'],
            g.gamestates.days == 1,
            g.gamestates.stateofword@ == blank_row(5),
            g.gamestates.stateofal@ == blank_row(26),
            g.gamestates.guessword@ == seq!['A', 'A', 'A', 'A', 'A'],
            g.wordle_istty == false,
            g.gamemode == GameMode::AnswerMode,
            g.gamedifficulty == GameDifficulty::Normal,
            g.seed == 11111111,
            g.stats == false,
    {
        let mut stateofword: Vec<StateofChar> = Vec::new();
        let mut stateofal: Vec<StateofChar> = Vec::new();
        let mut guessword: Vec<char> = Vec::new();
        for _i in 0..5usize
            invariant
                stateofword@ == blank_row(_i as nat),
        {
            stateofword.push(StateofChar::X);
        }
        for _i in 0..26usize
            invariant
                stateofal@ == blank_row(_i as nat),
        {
            stateofal.push(StateofChar::X);
        }
        for _i in 0..5usize
            invariant
                guessword@ == Seq::new(_i as nat, |k: int| 'A'),
        {
            guessword.push('A');
        }
        assert(guessword@ =~= seq!['A', 'A', 'A', 'A', 'A']);
        let gamestates = GameStates {
            answer: vec!['C', 'A', 'R', 'G', 'O'],
            days: 1,
            stateofword,
            stateofal,
            guessword,
        };
        WordleGame {
            wordle_istty: false,
            gamemode: GameMode::AnswerMode,
            gamedifficulty: GameDifficulty::Normal,
            seed: 11111111,
            stats: false,
            gamestates,
        }
    }
}

} // verus!
