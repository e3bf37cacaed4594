use vstd::prelude::*;
use crate::game::{WordleGame, GameMode, GameDifficulty, blank_row};
use crate::words::{normalize_word, uppercase};

verus! {

/// The options given on the command line.
pub struct CommandLine {
    /// `-w`: the answer.
    pub word: Option<Vec<char>>,
    /// `-r`: random mode.
    pub random: bool,
    /// `-D`: hard mode.
    pub difficult: bool,
    /// `-t`: statistics.
    pub stats: bool,
    /// `-d`: the day to start from.
    pub days: Option<u64>,
    /// `-s`: the seed of the shuffle.
    pub seed: Option<u64>,
    /// `-f`: the file of answers.
    pub final_set: Option<String>,
    /// `-a`: the file of acceptable words.
    pub acceptable_set: Option<String>,
    /// `-S`: the state file (`Errorfile` when the option has no value).
    pub state: Option<String>,
}

/// The options read from the configuration file; each is present only
/// where the file held a value of the right kind.
pub struct Config {
    pub random: Option<bool>,
    pub difficult: Option<bool>,
    pub stats: Option<bool>,
    pub seed: Option<u64>,
    pub day: Option<u64>,
    pub final_set: Option<String>,
    pub acceptable_set: Option<String>,
    pub word: Option<Vec<char>>,
}

/// The game to play and where its word lists come from (`None`: the
/// built-in list).
pub struct Setup {
    pub game: WordleGame,
    pub final_file: Option<String>,
    pub acceptable_file: Option<String>,
}

/// The mode: random when asked for on the command line; the answer of the
/// command line; random when the configuration asks for it; else answers
/// are typed in.
pub open spec fn chosen_mode(cfg: Config, cli: CommandLine) -> GameMode {
    if cli.random {
        GameMode::RandomMode
    } else if cli.word is Some {
        GameMode::AnswerConsoleMode
    } else if cfg.random == Some(true) {
        GameMode::RandomMode
    } else {
        GameMode::AnswerMode
    }
}

fn copy_path(p: &Option<String>) -> (r: Option<String>)
    ensures
        r == *p,
{
    match p {
        Some(s) => Some(s.clone()),
        None => None,
    }
}

/// Applies the configuration file, then the command line over it.
pub fn configure(cfg: &Config, cli: &CommandLine) -> (s: Setup)
    ensures
        s.game.wf(),
        s.game.gamestates.stateofword@ == blank_row(5),
        s.game.gamestates.stateofal@ == blank_row(26),
        s.game.gamestates.guessword@ == seq!['A', 'A', 'A', 'A', 'A'],
        s.game.wordle_istty == false,
        s.game.gamemode == chosen_mode(*cfg, *cli),
        cli.random ==> s.game.gamemode == GameMode::RandomMode,
        !cli.random && cli.word is Some ==> s.game.gamemode == GameMode::AnswerConsoleMode,
        !cli.random && cli.word is None && cfg.random == Some(true) ==> s.game.gamemode
            == GameMode::RandomMode,
        !cli.random && cli.word is None && cfg.random != Some(true) ==> s.game.gamemode
            == GameMode::AnswerMode,
        s.game.gamedifficulty == (if cli.difficult || cfg.difficult == Some(true) {
            GameDifficulty::Difficult
        } else {
            GameDifficulty::Normal
        }),
        s.game.stats == (cli.stats || cfg.stats == Some(true)),
        s.game.seed == (match cli.seed {
            Some(n) => n,
            None => match cfg.seed {
                Some(n) => n,
                None => 11111111,
            },
        }),
        s.game.gamestates.days == (match cli.days {
            Some(n) => n,
            None => match cfg.day {
                Some(n) => n,
                None => 1,
            },
        }),
        s.game.gamestates.answer@ == (match cli.word {
            Some(w) => uppercase(w@),
            None => match cfg.word {
                Some(w) => uppercase(w@),
                None => seq!['C', 'A', 'R', 'G', 'O'],
            },
        }),
        s.final_file == (if cli.final_set is Some {
            cli.final_set
        } else {
            cfg.final_set
        }),
        s.acceptable_file == (if cli.acceptable_set is Some {
            cli.acceptable_set
        } else {
            cfg.acceptable_set
        }),
{
    let mut game = WordleGame::new();
    // the configuration file
    if cfg.random == Some(true) {
        game.gamemode = GameMode::RandomMode;
    }
    if cfg.difficult == Some(true) {
        game.gamedifficulty = GameDifficulty::Difficult;
    }
    match cfg.stats {
        Some(b) => {
            game.stats = b;
        },
        None => {},
    }
    match cfg.seed {
        Some(n) => {
            game.seed = n;
        },
        None => {},
    }
    match cfg.day {
        Some(n) => {
            game.gamestates.days = n;
        },
        None => {},
    }
    let mut final_file = copy_path(&cfg.final_set);
    let mut acceptable_file = copy_path(&cfg.acceptable_set);
    match &cfg.word {
        Some(w) => {
            game.gamestates.answer = normalize_word(w);
        },
        None => {},
    }
    // the command line
    match &cli.word {
        Some(w) => {
            game.gamestates.answer = normalize_word(w);
        },
        None => {},
    }
    match cli.seed {
        Some(n) => {
            game.seed = n;
        },
        None => {},
    }
    match cli.days {
        Some(n) => {
            game.gamestates.days = n;
        },
        None => {},
    }
    if cli.random {
        game.gamemode = GameMode::RandomMode;
    }
    if cli.word.is_some() {
        game.gamemode = GameMode::AnswerConsoleMode;
    }
    if cli.difficult {
        game.gamedifficulty = GameDifficulty::Difficult;
    }
    if cli.stats {
        game.stats = true;
    }
    if cli.random {
        game.gamemode = GameMode::RandomMode;
    }
    if cli.final_set.is_some() {
        final_file = copy_path(&cli.final_set);
    }
    if cli.acceptable_set.is_some() {
        acceptable_file = copy_path(&cli.acceptable_set);
    }
    Setup { game, final_file, acceptable_file }
}

/// Law: the command line decides the mode over the configuration file:
/// `-r` gives the random mode, else an answer given with `-w` is played;
/// only without either does the file's `random` choose.
pub proof fn lemma_command_line_decides_mode(cfg: Config, cli: CommandLine)
    ensures
        cli.random ==> chosen_mode(cfg, cli) == GameMode::RandomMode,
        !cli.random && cli.word is Some ==> chosen_mode(cfg, cli) == GameMode::AnswerConsoleMode,
        !cli.random && cli.word is None ==> (chosen_mode(cfg, cli) == GameMode::RandomMode <==> cfg.random
            == Some(true)),
        !cli.random && cli.word is None && cfg.random != Some(true) ==> chosen_mode(cfg, cli)
            == GameMode::AnswerMode,
{
}

/// The options refused together: a seed or a day with an answer given or
/// with answers typed in; the random mode with an answer given.
pub fn options_conflict(cli: &CommandLine, mode: GameMode) -> (bad: bool)
    ensures
        bad == (((cli.seed is Some || cli.days is Some) && (cli.word is Some || mode
            == GameMode::AnswerMode)) || (cli.random && cli.word is Some)),
{
    ((cli.seed.is_some() || cli.days.is_some()) && (cli.word.is_some() || mode == GameMode::AnswerMode))
        || (cli.random && cli.word.is_some())
}

/// Where the state is saved in the random mode: the state file of the
/// command line, unless the option came without a value.
pub fn save_path(cli: &CommandLine) -> (p: Option<String>)
    ensures
        p == (match cli.state {
            Some(s) => if s@ != "Errorfile"@ {
                Some(s)
            } else {
                None
            },
            None => None,
        }),
{
    match &cli.state {
        Some(s) => {
            let placeholder = String::from_str("Errorfile");
            if *s != placeholder {
                Some(s.clone())
            } else {
                None
            }
        },
        None => None,
    }
}

} // verus!
