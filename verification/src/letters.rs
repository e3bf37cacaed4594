use vstd::prelude::*;

verus! {

/// The colour a letter of a guess (or a key of the keyboard) carries.
/// `G`: right letter in the right place; `Y`: the letter occurs elsewhere in
/// the answer; `R`: the letter does not occur (any more) in the answer;
/// `X`: not judged yet.
#[derive(Clone, Copy, PartialEq, Eq, Structural, Debug)]
pub enum StateofChar {
    G,
    Y,
    R,
    X,
}

impl StateofChar {
    /// The one-letter name of the colour.
    pub open spec fn letter(self) -> char {
        match self {
            StateofChar::G => 'G',
            StateofChar::Y => 'Y',
            StateofChar::R => 'R',
            StateofChar::X => 'X',
        }
    }

    /// How much a colour tells about a key: `X < R < Y < G`.
    pub open spec fn rank(self) -> int {
        match self {
            StateofChar::X => 0,
            StateofChar::R => 1,
            StateofChar::Y => 2,
            StateofChar::G => 3,
        }
    }

    pub fn to_char(self) -> (c: char)
        ensures
            c == self.letter(),
    {
        match self {
            StateofChar::G => 'G',
            StateofChar::Y => 'Y',
            StateofChar::R => 'R',
            StateofChar::X => 'X',
        }
    }

    pub fn to_string(self) -> (s: String)
        ensures
            s@ == seq![self.letter()],
    {
        match self {
            StateofChar::G => {
                let s = String::from_str("G");
                proof {
                    reveal_strlit("G");
                }
                s
            },
            StateofChar::Y => {
                let s = String::from_str("Y");
                proof {
                    reveal_strlit("Y");
                }
                s
            },
            StateofChar::R => {
                let s = String::from_str("R");
                proof {
                    reveal_strlit("R");
                }
                s
            },
            StateofChar::X => {
                let s = String::from_str("X");
                proof {
                    reveal_strlit("X");
                }
                s
            },
        }
    }
}

/// An upper-case ASCII letter.
pub open spec fn is_upper(c: char) -> bool {
    65 <= (c as int) <= 90
}

/// The position of an upper-case letter in the alphabet (`'A'` is 0).
pub open spec fn letter_index(c: char) -> int {
    (c as int) - 65
}

/// The letter at position `k` of the alphabet.
pub open spec fn alphabet_letter(k: int) -> char {
    (k + 65) as char
}

/// The alphabet, in order.
pub fn alphabet() -> (v: Vec<char>)
    ensures
        v@.len() == 26,
        forall|k: int| 0 <= k < 26 ==> #[trigger] v@[k] == alphabet_letter(k),
{
    let v: Vec<char> = vec![
        'A', 'B', 'C', 'D', 'E', 'F', 'G', 'H', 'I', 'J',
        'K', 'L', 'M', 'N', 'O', 'P', 'Q', 'R', 'S', 'T',
        'U', 'V', 'W', 'X', 'Y', 'Z',
    ];
    assert(v@ =~= Seq::new(26, |k: int| alphabet_letter(k)));
    v
}

} // verus!
