use vstd::prelude::*;
use crate::letters::{StateofChar, alphabet, alphabet_letter, is_upper, letter_index};
use crate::game::WordleGame;
use crate::feedback::count_open;

verus! {

/// Positions `j < n` that were yellow in the last colouring `s` and held `c`
/// in the last guess `prev`.
pub open spec fn count_yellow(s: Seq<StateofChar>, prev: Seq<char>, c: char, n: int) -> int
    decreases n,
{
    if n <= 0 {
        0
    } else {
        count_yellow(s, prev, c, n - 1) + (if s[n - 1] == StateofChar::Y && prev[n - 1] == c {
            1int
        } else {
            0int
        })
    }
}

/// Every position that was green in the last colouring and holds `c` in the
/// new guess `w` still holds the letter of the last guess.
pub open spec fn greens_kept(s: Seq<StateofChar>, prev: Seq<char>, w: Seq<char>, c: char) -> bool {
    forall|i: int| 0 <= i < 5 && s[i] == StateofChar::G && w[i] == c ==> #[trigger] prev[i] == w[i]
}

/// The hard-mode rule for letter `c`: greens with `c` are kept, and the new
/// guess `w` has at least as many `c` outside the green positions as the
/// last guess had yellow `c`.
pub open spec fn hard_mode_ok(s: Seq<StateofChar>, prev: Seq<char>, w: Seq<char>, c: char) -> bool {
    &&& greens_kept(s, prev, w, c)
    &&& count_open(s, w, c, 5) >= count_yellow(s, prev, c, 5)
}

/// The hard-mode rule for every letter of the alphabet.
pub open spec fn hard_mode_allows(s: Seq<StateofChar>, prev: Seq<char>, w: Seq<char>) -> bool {
    forall|k: int| 0 <= k < 26 ==> #[trigger] hard_mode_ok(s, prev, w, alphabet_letter(k))
}

/// Whether guess `inword` obeys the hard-mode rule for letter `ch`, judged
/// against the last guess and its colours.
pub fn difficultnumber_char(inword: &Vec<char>, wordleg: &mut WordleGame, ch: char) -> (ok: bool)
    requires
        inword@.len() >= 5,
        old(wordleg).wf(),
    ensures
        *final(wordleg) == *old(wordleg),
        ok == hard_mode_ok(
            old(wordleg).gamestates.stateofword@,
            old(wordleg).gamestates.guessword@,
            inword@,
            ch,
        ),
        // a letter shown yellow anywhere in the last colouring must be guessed
        // again outside the green positions
        (exists|i: int|
            0 <= i < 5 && #[trigger] old(wordleg).gamestates.stateofword@[i] == StateofChar::Y
                && old(wordleg).gamestates.guessword@[i] == ch) && (forall|j: int|
            0 <= j < 5 && #[trigger] inword@[j] == ch ==> old(wordleg).gamestates.stateofword@[j]
                == StateofChar::G) ==> !ok,
        // a green position keeps its letter
        (exists|i: int|
            0 <= i < 5 && #[trigger] old(wordleg).gamestates.stateofword@[i] == StateofChar::G
                && inword@[i] == ch && old(wordleg).gamestates.guessword@[i] != ch) ==> !ok,
{
    proof {
        let s = old(wordleg).gamestates.stateofword@;
        let prev = old(wordleg).gamestates.guessword@;
        if exists|i: int| 0 <= i < 5 && #[trigger] s[i] == StateofChar::Y && prev[i] == ch {
            let i = choose|i: int| 0 <= i < 5 && #[trigger] s[i] == StateofChar::Y && prev[i] == ch;
            if forall|j: int| 0 <= j < 5 && #[trigger] inword@[j] == ch ==> s[j] == StateofChar::G {
                lemma_yellow_letter_required(s, prev, inword@, ch, i);
            }
        }
        if exists|i: int| 0 <= i < 5 && #[trigger] s[i] == StateofChar::G && inword@[i] == ch && prev[i] != ch {
            let i = choose|i: int| 0 <= i < 5 && #[trigger] s[i] == StateofChar::G && inword@[i] == ch && prev[i] != ch;
            lemma_green_letter_kept(s, prev, inword@, i);
        }
    }
    let ghost s = wordleg.gamestates.stateofword@;
    let ghost prev = wordleg.gamestates.guessword@;
    let ghost w = inword@;
    let mut invec: Vec<char> = Vec::new();
    let mut gstates: Vec<bool> = Vec::new();
    let mut dnum: usize = 0;
    let mut snum: usize = 0;
    for k in 0..inword.len()
        invariant
            invec@ == inword@.take(k as int),
            *wordleg == *old(wordleg),
    {
        invec.push(inword[k]);
    }
    assert(invec@ =~= w);
    for _k in 0..5usize
        invariant
            gstates@ == Seq::new(_k as nat, |j: int| false),
            *wordleg == *old(wordleg),
    {
        gstates.push(false);
    }
    for i in 0..5usize
        invariant
            invec@ == w,
            w == inword@,
            w.len() >= 5,
            *wordleg == *old(wordleg),
            wordleg.wf(),
            s == wordleg.gamestates.stateofword@,
            prev == wordleg.gamestates.guessword@,
            gstates@.len() == 5,
            forall|j: int|
                0 <= j < 5 ==> #[trigger] gstates@[j] == (j < i && s[j] == StateofChar::G && w[j]
                    == ch),
            forall|j: int| 0 <= j < i && s[j] == StateofChar::G && w[j] == ch ==> #[trigger] prev[j] == w[j],
            snum <= i,
            snum == count_yellow(s, prev, ch, i as int),
    {
        match wordleg.gamestates.stateofword[i] {
            StateofChar::G => {
                if ch == invec[i] {
                    if invec[i] == wordleg.gamestates.guessword[i] {
                        gstates.set(i, true);
                    } else {
                        assert(s[i as int] == StateofChar::G && w[i as int] == ch && prev[i as int]
                            != w[i as int]);
                        assert(!greens_kept(s, prev, w, ch));
                        return false;
                    }
                }
            },
            StateofChar::Y => {
                if ch == wordleg.gamestates.guessword[i] {
                    snum += 1;
                }
            },
            _ => {},
        }
    }
    for i in 0..5usize
        invariant
            invec@ == w,
            w == inword@,
            w.len() >= 5,
            *wordleg == *old(wordleg),
            wordleg.wf(),
            s == wordleg.gamestates.stateofword@,
            gstates@.len() == 5,
            forall|j: int|
                0 <= j < 5 ==> #[trigger] gstates@[j] == (s[j] == StateofChar::G && w[j] == ch),
            dnum <= i,
            dnum == count_open(s, w, ch, i as int),
    {
        if invec[i] == ch {
            match gstates[i] {
                true => {},
                false => {
                    dnum += 1;
                },
            }
        }
    }
    if dnum >= snum {
        return true;
    } else {
        return false;
    }
}

/// Whether guess `inword` obeys the hard-mode rule for every letter.
pub fn difficultmode(inword: &Vec<char>, wordleg: &mut WordleGame) -> (ok: bool)
    requires
        inword@.len() >= 5,
        old(wordleg).wf(),
    ensures
        *final(wordleg) == *old(wordleg),
        ok == hard_mode_allows(
            old(wordleg).gamestates.stateofword@,
            old(wordleg).gamestates.guessword@,
            inword@,
        ),
        // every letter shown yellow in the last colouring is guessed again
        // outside the green positions
        ok ==> forall|i: int|
            0 <= i < 5 && old(wordleg).gamestates.stateofword@[i] == StateofChar::Y && is_upper(
                #[trigger] old(wordleg).gamestates.guessword@[i],
            ) ==> exists|j: int|
                0 <= j < 5 && inword@[j] == old(wordleg).gamestates.guessword@[i]
                    && old(wordleg).gamestates.stateofword@[j] != StateofChar::G,
        // every green position keeps its letter
        ok ==> forall|i: int|
            0 <= i < 5 && old(wordleg).gamestates.stateofword@[i] == StateofChar::G && is_upper(
                #[trigger] inword@[i],
            ) ==> inword@[i] == old(wordleg).gamestates.guessword@[i],
{
    let wordvec = alphabet();
    let ghost s = wordleg.gamestates.stateofword@;
    let ghost prev = wordleg.gamestates.guessword@;
    for ui in 0..26usize
        invariant
            inword@.len() >= 5,
            wordvec@.len() == 26,
            forall|k: int| 0 <= k < 26 ==> #[trigger] wordvec@[k] == alphabet_letter(k),
            *wordleg == *old(wordleg),
            wordleg.wf(),
            s == wordleg.gamestates.stateofword@,
            prev == wordleg.gamestates.guessword@,
            forall|k: int| 0 <= k < ui ==> #[trigger] hard_mode_ok(s, prev, inword@, alphabet_letter(k)),
    {
        if !difficultnumber_char(inword, wordleg, wordvec[ui]) {
            return false;
        }
    }
    proof {
        let s0 = old(wordleg).gamestates.stateofword@;
        let p0 = old(wordleg).gamestates.guessword@;
        let w = inword@;
        assert forall|i: int| 0 <= i < 5 && s0[i] == StateofChar::Y && is_upper(#[trigger] p0[i]) implies exists|j: int|
            0 <= j < 5 && w[j] == p0[i] && s0[j] != StateofChar::G by {
            if !exists|j: int| 0 <= j < 5 && w[j] == p0[i] && s0[j] != StateofChar::G {
                assert forall|j: int| 0 <= j < 5 && #[trigger] w[j] == p0[i] implies s0[j] == StateofChar::G by {}
                lemma_yellow_letter_required(s0, p0, w, p0[i], i);
            }
        }
        assert forall|i: int| 0 <= i < 5 && s0[i] == StateofChar::G && is_upper(#[trigger] w[i]) implies w[i] == p0[i] by {
            if w[i] != p0[i] {
                lemma_green_letter_kept(s0, p0, w, i);
            }
        }
    }
    true
}

// ---------------------------------------------------------------------
// Laws
// ---------------------------------------------------------------------

proof fn lemma_yellow_le_open(s: Seq<StateofChar>, prev: Seq<char>, c: char, n: int)
    ensures
        count_yellow(s, prev, c, n) <= count_open(s, prev, c, n),
    decreases n,
{
    if n > 0 {
        lemma_yellow_le_open(s, prev, c, n - 1);
    }
}

proof fn lemma_no_yellow_count(s: Seq<StateofChar>, prev: Seq<char>, c: char, n: int)
    requires
        forall|j: int| 0 <= j < n ==> #[trigger] s[j] != StateofChar::Y,
    ensures
        count_yellow(s, prev, c, n) == 0,
    decreases n,
{
    if n > 0 {
        lemma_no_yellow_count(s, prev, c, n - 1);
    }
}

proof fn lemma_count_open_nonneg(s: Seq<StateofChar>, w: Seq<char>, c: char, n: int)
    ensures
        count_open(s, w, c, n) >= 0,
    decreases n,
{
    if n > 0 {
        lemma_count_open_nonneg(s, w, c, n - 1);
    }
}

/// Law: in hard mode, guessing the last guess again is always allowed.
pub proof fn lemma_repeat_guess_allowed(s: Seq<StateofChar>, prev: Seq<char>)
    ensures
        hard_mode_allows(s, prev, prev),
{
    assert forall|k: int| 0 <= k < 26 implies #[trigger] hard_mode_ok(
        s,
        prev,
        prev,
        alphabet_letter(k),
    ) by {
        lemma_yellow_le_open(s, prev, alphabet_letter(k), 5);
    }
}

/// Law: when the last colouring has no green and no yellow letter (as
/// before the first guess of a game), hard mode allows every guess.
pub proof fn lemma_nothing_known_allows_all(s: Seq<StateofChar>, prev: Seq<char>, w: Seq<char>)
    requires
        forall|j: int| 0 <= j < 5 ==> #[trigger] s[j] != StateofChar::G && s[j] != StateofChar::Y,
    ensures
        hard_mode_allows(s, prev, w),
{
    assert forall|k: int| 0 <= k < 26 implies #[trigger] hard_mode_ok(
        s,
        prev,
        w,
        alphabet_letter(k),
    ) by {
        lemma_no_yellow_count(s, prev, alphabet_letter(k), 5);
        lemma_count_open_nonneg(s, w, alphabet_letter(k), 5);
    }
}

proof fn lemma_open_zero(s: Seq<StateofChar>, w: Seq<char>, c: char, n: int)
    requires
        n <= 5,
        forall|j: int| 0 <= j < 5 && #[trigger] w[j] == c ==> s[j] == StateofChar::G,
    ensures
        count_open(s, w, c, n) == 0,
    decreases n,
{
    if n > 0 {
        lemma_open_zero(s, w, c, n - 1);
        if w[n - 1] == c {
            assert(s[n - 1] == StateofChar::G);
        }
    }
}

proof fn lemma_yellow_counted(s: Seq<StateofChar>, prev: Seq<char>, c: char, i: int, n: int)
    requires
        0 <= i < n,
        s[i] == StateofChar::Y,
        prev[i] == c,
    ensures
        count_yellow(s, prev, c, n) >= 1,
    decreases n,
{
    if n - 1 > i {
        lemma_yellow_counted(s, prev, c, i, n - 1);
    } else {
        lemma_yellow_nonneg(s, prev, c, n - 1);
    }
}

proof fn lemma_yellow_nonneg(s: Seq<StateofChar>, prev: Seq<char>, c: char, n: int)
    ensures
        count_yellow(s, prev, c, n) >= 0,
    decreases n,
{
    if n > 0 {
        lemma_yellow_nonneg(s, prev, c, n - 1);
    }
}

/// Law: in hard mode a letter shown yellow at any of the five positions of
/// the last colouring must occur in the new guess outside the green
/// positions; a guess without it is refused.
pub proof fn lemma_yellow_letter_required(s: Seq<StateofChar>, prev: Seq<char>, w: Seq<char>, c: char, i: int)
    requires
        0 <= i < 5,
        s[i] == StateofChar::Y,
        prev[i] == c,
        forall|j: int| 0 <= j < 5 && #[trigger] w[j] == c ==> s[j] == StateofChar::G,
    ensures
        !hard_mode_ok(s, prev, w, c),
        is_upper(c) ==> !hard_mode_allows(s, prev, w),
{
    lemma_open_zero(s, w, c, 5);
    lemma_yellow_counted(s, prev, c, i, 5);
    if is_upper(c) {
        let k = letter_index(c);
        assert(alphabet_letter(k) == c);
        assert(!hard_mode_ok(s, prev, w, alphabet_letter(k)));
    }
}

/// Law: in hard mode a position that was green must keep its letter; a
/// guess with another letter there is refused.
pub proof fn lemma_green_letter_kept(s: Seq<StateofChar>, prev: Seq<char>, w: Seq<char>, i: int)
    requires
        0 <= i < 5,
        s[i] == StateofChar::G,
        w[i] != prev[i],
    ensures
        !hard_mode_ok(s, prev, w, w[i]),
        is_upper(w[i]) ==> !hard_mode_allows(s, prev, w),
{
    assert(!greens_kept(s, prev, w, w[i]));
    if is_upper(w[i]) {
        let k = letter_index(w[i]);
        assert(alphabet_letter(k) == w[i]);
        assert(!hard_mode_ok(s, prev, w, alphabet_letter(k)));
    }
}

} // verus!
