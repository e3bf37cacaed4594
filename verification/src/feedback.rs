use vstd::prelude::*;
use crate::letters::{StateofChar, is_upper, letter_index, alphabet, alphabet_letter};
use crate::game::{WordleGame, blank_row};

verus! {

// ---------------------------------------------------------------------
// Counting over the five positions of a word
// ---------------------------------------------------------------------

/// Positions `j < n` that are not green in `s` and hold `c` in `w`.
pub open spec fn count_open(s: Seq<StateofChar>, w: Seq<char>, c: char, n: int) -> int
    decreases n,
{
    if n <= 0 {
        0
    } else {
        count_open(s, w, c, n - 1) + (if s[n - 1] != StateofChar::G && w[n - 1] == c {
            1int
        } else {
            0int
        })
    }
}

/// Positions `j < n` that are still unjudged (`X`) in `s` and hold `c` in `w`.
pub open spec fn count_unjudged(s: Seq<StateofChar>, w: Seq<char>, c: char, n: int) -> int
    decreases n,
{
    if n <= 0 {
        0
    } else {
        count_unjudged(s, w, c, n - 1) + (if s[n - 1] == StateofChar::X && w[n - 1] == c {
            1int
        } else {
            0int
        })
    }
}

// ---------------------------------------------------------------------
// What the colouring computes
// ---------------------------------------------------------------------

/// `s` with every position where guess and answer agree turned green.
pub open spec fn mark_green(s: Seq<StateofChar>, g: Seq<char>, a: Seq<char>) -> Seq<StateofChar> {
    Seq::new(5, |i: int| if g[i] == a[i] { StateofChar::G } else { s[i] })
}

/// The colour of an unjudged position `i` of guess `g` against answer `a`,
/// once the greens of `s1` are known: yellow while the occurrences of its
/// letter so far do not exceed the non-green occurrences in the answer.
pub open spec fn judged_colour(s1: Seq<StateofChar>, g: Seq<char>, a: Seq<char>, i: int) -> StateofChar {
    if count_unjudged(s1, g, g[i], i + 1) <= count_open(s1, a, g[i], 5) {
        StateofChar::Y
    } else {
        StateofChar::R
    }
}

/// The colours after judging letter `c` of guess `g` against answer `a`,
/// starting from the colours `s0`.
pub open spec fn refreshword_spec(s0: Seq<StateofChar>, g: Seq<char>, a: Seq<char>, c: char) -> Seq<
    StateofChar,
> {
    let s1 = mark_green(s0, g, a);
    Seq::new(
        5,
        |i: int|
            if s1[i] == StateofChar::X && g[i] == c {
                if count_open(s1, g, c, 5) <= count_open(s1, a, c, 5) {
                    StateofChar::Y
                } else if count_unjudged(s1, g, c, i + 1) <= count_open(s1, a, c, 5) {
                    StateofChar::Y
                } else {
                    StateofChar::R
                }
            } else {
                s1[i]
            },
    )
}

/// The colours after judging the letters with alphabet position below `k`.
pub open spec fn judged_below(s0: Seq<StateofChar>, g: Seq<char>, a: Seq<char>, k: int) -> Seq<
    StateofChar,
> {
    let s1 = mark_green(s0, g, a);
    Seq::new(
        5,
        |i: int|
            if s1[i] == StateofChar::X && is_upper(g[i]) && letter_index(g[i]) < k {
                judged_colour(s1, g, a, i)
            } else {
                s1[i]
            },
    )
}

/// The colours of guess `g` against answer `a`, starting from `s0`: greens
/// where the letters agree; every other unjudged upper-case letter yellow
/// or red by `judged_colour`; everything else as it was.
pub open spec fn feedback_spec(s0: Seq<StateofChar>, g: Seq<char>, a: Seq<char>) -> Seq<StateofChar> {
    let s1 = mark_green(s0, g, a);
    Seq::new(
        5,
        |i: int|
            if s1[i] == StateofChar::X && is_upper(g[i]) {
                judged_colour(s1, g, a, i)
            } else {
                s1[i]
            },
    )
}

/// The new colour of a key that was `old` when a letter coloured `new` is
/// typed on it: an unjudged or red key takes the new colour, a yellow key
/// turns green or stays yellow, a green key stays green.
pub open spec fn key_update(old: StateofChar, new: StateofChar) -> StateofChar {
    match old {
        StateofChar::X => new,
        StateofChar::R => new,
        StateofChar::Y => if new == StateofChar::R { StateofChar::Y } else { new },
        StateofChar::G => StateofChar::G,
    }
}

/// The keyboard `al` after the first `n` letters of guess `g`, coloured `w`,
/// were typed on it in order.
pub open spec fn keyboard_after(al: Seq<StateofChar>, g: Seq<char>, w: Seq<StateofChar>, n: int) -> Seq<
    StateofChar,
>
    decreases n,
{
    if n <= 0 {
        al
    } else {
        let prev = keyboard_after(al, g, w, n - 1);
        if is_upper(g[n - 1]) {
            let k = letter_index(g[n - 1]);
            prev.update(k, key_update(prev[k], w[n - 1]))
        } else {
            prev
        }
    }
}

// ---------------------------------------------------------------------
// Lemmas on the counts
// ---------------------------------------------------------------------

proof fn lemma_count_open_same_greens(s: Seq<StateofChar>, t: Seq<StateofChar>, w: Seq<char>, c: char, n: int)
    requires
        forall|j: int| 0 <= j < n ==> (s[j] == StateofChar::G) == (t[j] == StateofChar::G),
    ensures
        count_open(s, w, c, n) == count_open(t, w, c, n),
    decreases n,
{
    if n > 0 {
        lemma_count_open_same_greens(s, t, w, c, n - 1);
    }
}

proof fn lemma_count_unjudged_same_letter(s: Seq<StateofChar>, t: Seq<StateofChar>, w: Seq<char>, c: char, n: int)
    requires
        forall|j: int| 0 <= j < n && w[j] == c ==> s[j] == t[j],
    ensures
        count_unjudged(s, w, c, n) == count_unjudged(t, w, c, n),
    decreases n,
{
    if n > 0 {
        lemma_count_unjudged_same_letter(s, t, w, c, n - 1);
    }
}

proof fn lemma_count_unjudged_le_open(s: Seq<StateofChar>, w: Seq<char>, c: char, n: int, m: int)
    requires
        n <= m,
    ensures
        count_unjudged(s, w, c, n) <= count_open(s, w, c, m),
    decreases m,
{
    if m > 0 {
        if n == m {
            lemma_count_unjudged_le_open(s, w, c, n - 1, m - 1);
        } else {
            lemma_count_unjudged_le_open(s, w, c, n, m - 1);
            lemma_count_open_nonneg_step(s, w, c, m);
        }
    }
}

proof fn lemma_count_open_nonneg_step(s: Seq<StateofChar>, w: Seq<char>, c: char, m: int)
    requires
        m > 0,
    ensures
        count_open(s, w, c, m - 1) <= count_open(s, w, c, m),
{
}

// ---------------------------------------------------------------------
// The colouring
// ---------------------------------------------------------------------

/// How many of the first five letters of `cvec` equal `ch` at positions that
/// are not green in the current colours.
pub fn countnum(cvec: &Vec<char>, ch: char, wordleg: &WordleGame) -> (count: i32)
    requires
        cvec@.len() >= 5,
        wordleg.wf(),
    ensures
        count == count_open(wordleg.gamestates.stateofword@, cvec@, ch, 5),
{
    let mut count: i32 = 0;
    for n1 in 0..5usize
        invariant
            cvec@.len() >= 5,
            wordleg.wf(),
            0 <= count <= n1,
            count == count_open(wordleg.gamestates.stateofword@, cvec@, ch, n1 as int),
    {
        match wordleg.gamestates.stateofword[n1] {
            StateofChar::G => {},
            _ => {
                if cvec[n1] == ch {
                    count += 1;
                }
            },
        }
    }
    count
}

/// Judges letter `ch` of guess `invec` against answer `anvec`: marks the
/// greens, then colours the unjudged occurrences of `ch` in the guess yellow
/// as long as the answer has unmatched occurrences left, red after that.
pub fn refreshword(invec: &Vec<char>, anvec: &Vec<char>, ch: char, wordleg: &mut WordleGame)
    requires
        invec@.len() >= 5,
        anvec@.len() >= 5,
        old(wordleg).wf(),
    ensures
        final(wordleg).wf(),
        final(wordleg).same_setup(&*old(wordleg)),
        final(wordleg).gamestates.stateofal@ == old(wordleg).gamestates.stateofal@,
        final(wordleg).gamestates.guessword@ == old(wordleg).gamestates.guessword@,
        final(wordleg).gamestates.stateofword@ == refreshword_spec(
            old(wordleg).gamestates.stateofword@,
            invec@,
            anvec@,
            ch,
        ),
{
    let ghost s0 = wordleg.gamestates.stateofword@;
    let ghost g = invec@;
    let ghost a = anvec@;
    let ghost s1 = mark_green(s0, g, a);
    for n2 in 0..5usize
        invariant
            invec@ == g,
            anvec@ == a,
            g.len() >= 5,
            a.len() >= 5,
            wordleg.wf(),
            wordleg.same_setup(&*old(wordleg)),
            wordleg.gamestates.stateofal@ == old(wordleg).gamestates.stateofal@,
            wordleg.gamestates.guessword@ == old(wordleg).gamestates.guessword@,
            s0 == old(wordleg).gamestates.stateofword@,
            wordleg.gamestates.stateofword@ == Seq::new(
                5,
                |i: int|
                    if i < n2 && g[i] == a[i] {
                        StateofChar::G
                    } else {
                        s0[i]
                    },
            ),
    {
        if anvec[n2] == invec[n2] {
            wordleg.gamestates.stateofword.set(n2, StateofChar::G);
        }
    }
    assert(wordleg.gamestates.stateofword@ =~= s1);
    let innum = countnum(invec, ch, wordleg);
    let annum = countnum(anvec, ch, wordleg);
    let ghost target = refreshword_spec(s0, g, a, ch);
    if innum <= annum {
        for i in 0..5usize
            invariant
                invec@ == g,
                anvec@ == a,
                g.len() >= 5,
                a.len() >= 5,
                wordleg.wf(),
                wordleg.same_setup(&*old(wordleg)),
                wordleg.gamestates.stateofal@ == old(wordleg).gamestates.stateofal@,
                wordleg.gamestates.guessword@ == old(wordleg).gamestates.guessword@,
                s1 == mark_green(s0, g, a),
                innum == count_open(s1, g, ch, 5),
                annum == count_open(s1, a, ch, 5),
                innum <= annum,
                target == refreshword_spec(s0, g, a, ch),
                wordleg.gamestates.stateofword@ == Seq::new(
                    5,
                    |j: int|
                        if j < i {
                            target[j]
                        } else {
                            s1[j]
                        },
                ),
        {
            match wordleg.gamestates.stateofword[i] {
                StateofChar::G => {},
                StateofChar::X => {
                    if invec[i] == ch {
                        wordleg.gamestates.stateofword.set(i, StateofChar::Y);
                    }
                },
                _ => {},
            }
        }
    } else {
        let mut liscount: i32 = 0;
        for i in 0..5usize
            invariant
                invec@ == g,
                anvec@ == a,
                g.len() >= 5,
                a.len() >= 5,
                wordleg.wf(),
                wordleg.same_setup(&*old(wordleg)),
                wordleg.gamestates.stateofal@ == old(wordleg).gamestates.stateofal@,
                wordleg.gamestates.guessword@ == old(wordleg).gamestates.guessword@,
                s1 == mark_green(s0, g, a),
                innum == count_open(s1, g, ch, 5),
                annum == count_open(s1, a, ch, 5),
                innum > annum,
                0 <= liscount <= i,
                liscount == count_unjudged(s1, g, ch, i as int),
                target == refreshword_spec(s0, g, a, ch),
                wordleg.gamestates.stateofword@ == Seq::new(
                    5,
                    |j: int|
                        if j < i {
                            target[j]
                        } else {
                            s1[j]
                        },
                ),
        {
            match wordleg.gamestates.stateofword[i] {
                StateofChar::G => {},
                StateofChar::X => {
                    if invec[i] == ch {
                        liscount += 1;
                        if liscount <= annum {
                            wordleg.gamestates.stateofword.set(i, StateofChar::Y);
                        } else {
                            wordleg.gamestates.stateofword.set(i, StateofChar::R);
                        }
                    }
                },
                _ => {},
            }
        }
    }
    assert(wordleg.gamestates.stateofword@ =~= target);
}

proof fn lemma_letter_roundtrip(c: char)
    requires
        is_upper(c),
    ensures
        alphabet_letter(letter_index(c)) == c,
{
}

/// Types a letter coloured `stateofword[un]` on key `n` of the keyboard.
pub fn changeal(n: usize, un: usize, wordleg: &mut WordleGame)
    requires
        n < 26,
        un < 5,
        old(wordleg).wf(),
    ensures
        final(wordleg).wf(),
        final(wordleg).same_setup(&*old(wordleg)),
        final(wordleg).gamestates.stateofword@ == old(wordleg).gamestates.stateofword@,
        final(wordleg).gamestates.guessword@ == old(wordleg).gamestates.guessword@,
        final(wordleg).gamestates.stateofal@ == old(wordleg).gamestates.stateofal@.update(
            n as int,
            key_update(
                old(wordleg).gamestates.stateofal@[n as int],
                old(wordleg).gamestates.stateofword@[un as int],
            ),
        ),
        // the key takes its old colour or the letter's colour
        final(wordleg).gamestates.stateofal@[n as int] == old(wordleg).gamestates.stateofal@[n as int]
            || final(wordleg).gamestates.stateofal@[n as int] == old(wordleg).gamestates.stateofword@[un as int],
        // a key turns green only when it was green or the letter is green
        final(wordleg).gamestates.stateofal@[n as int] == StateofChar::G ==> old(wordleg).gamestates.stateofal@[n as int]
            == StateofChar::G || old(wordleg).gamestates.stateofword@[un as int] == StateofChar::G,
        // a green key stays green; a yellow key typed with a red letter stays yellow
        old(wordleg).gamestates.stateofal@[n as int] == StateofChar::G ==> final(wordleg).gamestates.stateofal@[n as int]
            == StateofChar::G,
        old(wordleg).gamestates.stateofal@[n as int] == StateofChar::Y && old(wordleg).gamestates.stateofword@[un as int]
            == StateofChar::R ==> final(wordleg).gamestates.stateofal@[n as int] == StateofChar::Y,
{
    proof {
        lemma_key_update_takes_a_colour(
            old(wordleg).gamestates.stateofal@[n as int],
            old(wordleg).gamestates.stateofword@[un as int],
        );
    }
    match wordleg.gamestates.stateofal[n] {
        StateofChar::X => {
            let s = wordleg.gamestates.stateofword[un];
            wordleg.gamestates.stateofal.set(n, s);
        },
        StateofChar::R => {
            let s = wordleg.gamestates.stateofword[un];
            wordleg.gamestates.stateofal.set(n, s);
        },
        StateofChar::Y => {
            let mid = wordleg.gamestates.stateofword[un];
            match mid {
                StateofChar::R => {},
                _ => {
                    wordleg.gamestates.stateofal.set(n, mid);
                },
            }
        },
        StateofChar::G => {},
    }
    assert(wordleg.gamestates.stateofal@ =~= old(wordleg).gamestates.stateofal@.update(
        n as int,
        key_update(
            old(wordleg).gamestates.stateofal@[n as int],
            old(wordleg).gamestates.stateofword@[un as int],
        ),
    ));
}

/// Types the five letters of guess `invec`, with their current colours, on
/// the keyboard, in order; characters that are not upper-case letters touch
/// no key.
pub fn refreshal(invec: &Vec<char>, wordleg: &mut WordleGame)
    requires
        invec@.len() >= 5,
        old(wordleg).wf(),
    ensures
        final(wordleg).wf(),
        final(wordleg).same_setup(&*old(wordleg)),
        final(wordleg).gamestates.stateofword@ == old(wordleg).gamestates.stateofword@,
        final(wordleg).gamestates.guessword@ == old(wordleg).gamestates.guessword@,
        final(wordleg).gamestates.stateofal@ == keyboard_after(
            old(wordleg).gamestates.stateofal@,
            invec@,
            old(wordleg).gamestates.stateofword@,
            5,
        ),
{
    let wordvec = alphabet();
    let ghost al0 = wordleg.gamestates.stateofal@;
    let ghost w = wordleg.gamestates.stateofword@;
    for it in 0..5usize
        invariant
            invec@.len() >= 5,
            wordvec@.len() == 26,
            forall|k: int| 0 <= k < 26 ==> #[trigger] wordvec@[k] == alphabet_letter(k),
            wordleg.wf(),
            wordleg.same_setup(&*old(wordleg)),
            wordleg.gamestates.stateofword@ == w,
            wordleg.gamestates.guessword@ == old(wordleg).gamestates.guessword@,
            w == old(wordleg).gamestates.stateofword@,
            al0 == old(wordleg).gamestates.stateofal@,
            wordleg.gamestates.stateofal@ == keyboard_after(al0, invec@, w, it as int),
    {
        let c = invec[it];
        let mut i: usize = 0;
        let mut found = false;
        while i < 26 && !found
            invariant
                0 <= i <= 26,
                it < 5,
                invec@.len() >= 5,
                c == invec@[it as int],
                wordvec@.len() == 26,
                forall|k: int| 0 <= k < 26 ==> #[trigger] wordvec@[k] == alphabet_letter(k),
                wordleg.wf(),
                wordleg.same_setup(&*old(wordleg)),
                wordleg.gamestates.stateofword@ == w,
                wordleg.gamestates.guessword@ == old(wordleg).gamestates.guessword@,
                !found ==> forall|k: int| 0 <= k < i ==> #[trigger] wordvec@[k] != c,
                !found ==> wordleg.gamestates.stateofal@ == keyboard_after(al0, invec@, w, it as int),
                found ==> wordleg.gamestates.stateofal@ == keyboard_after(al0, invec@, w, it + 1),
            decreases 26 - i + (if found { 0int } else { 1int }),
        {
            if c == wordvec[i] {
                proof {
                    assert(is_upper(c));
                    assert(letter_index(c) == i);
                }
                changeal(i, it, wordleg);
                found = true;
            } else {
                i = i + 1;
            }
        }
        if !found {
            proof {
                if is_upper(c) {
                    lemma_letter_roundtrip(c);
                    let k = letter_index(c);
                    assert(wordvec@[k] != c);
                }
            }
        }
    }
}

/// Colours guess `invec` against answer `anvec`, letter by letter through
/// the alphabet, then types it on the keyboard.
pub fn refresh(invec: &Vec<char>, anvec: &Vec<char>, wordleg: &mut WordleGame)
    requires
        invec@.len() >= 5,
        anvec@.len() >= 5,
        old(wordleg).wf(),
    ensures
        final(wordleg).wf(),
        final(wordleg).same_setup(&*old(wordleg)),
        final(wordleg).gamestates.guessword@ == old(wordleg).gamestates.guessword@,
        final(wordleg).gamestates.stateofword@ == feedback_spec(
            old(wordleg).gamestates.stateofword@,
            invec@,
            anvec@,
        ),
        final(wordleg).gamestates.stateofal@ == keyboard_after(
            old(wordleg).gamestates.stateofal@,
            invec@,
            final(wordleg).gamestates.stateofword@,
            5,
        ),
        forall|k: int|
            0 <= k < 26 && #[trigger] final(wordleg).gamestates.stateofal@[k] == StateofChar::G
                ==> old(wordleg).gamestates.stateofal@[k] == StateofChar::G || exists|j: int|
                0 <= j < 5 && is_upper(invec@[j]) && letter_index(invec@[j]) == k
                    && final(wordleg).gamestates.stateofword@[j] == StateofChar::G,
{
    let wordvec = alphabet();
    let ghost s0 = wordleg.gamestates.stateofword@;
    let ghost g = invec@;
    let ghost a = anvec@;
    let ghost s1 = mark_green(s0, g, a);
    for ui in 0..26usize
        invariant
            invec@ == g,
            anvec@ == a,
            g.len() >= 5,
            a.len() >= 5,
            wordvec@.len() == 26,
            forall|k: int| 0 <= k < 26 ==> #[trigger] wordvec@[k] == alphabet_letter(k),
            wordleg.wf(),
            wordleg.same_setup(&*old(wordleg)),
            wordleg.gamestates.stateofal@ == old(wordleg).gamestates.stateofal@,
            wordleg.gamestates.guessword@ == old(wordleg).gamestates.guessword@,
            s0 == old(wordleg).gamestates.stateofword@,
            s1 == mark_green(s0, g, a),
            ui == 0 ==> wordleg.gamestates.stateofword@ == s0,
            ui > 0 ==> wordleg.gamestates.stateofword@ == judged_below(s0, g, a, ui as int),
    {
        let ch = wordvec[ui];
        let ghost cur = wordleg.gamestates.stateofword@;
        proof {
            let jb = judged_below(s0, g, a, ui as int);
            assert(mark_green(cur, g, a) =~= jb);
            assert forall|j: int| 0 <= j < 5 implies (#[trigger] jb[j] == StateofChar::G) == (s1[j]
                == StateofChar::G) by {}
            lemma_count_open_same_greens(jb, s1, g, ch, 5);
            lemma_count_open_same_greens(jb, s1, a, ch, 5);
            assert forall|i: int| 0 <= i < 5 implies #[trigger] refreshword_spec(cur, g, a, ch)[i]
                == judged_below(s0, g, a, ui + 1)[i] by {
                if g[i] == ch && s1[i] == StateofChar::X {
                    assert(is_upper(ch));
                    assert(letter_index(ch) == ui);
                    assert(jb[i] == StateofChar::X);
                    lemma_count_unjudged_same_letter(jb, s1, g, ch, i + 1);
                    lemma_count_unjudged_le_open(s1, g, ch, i + 1, 5);
                } else if s1[i] == StateofChar::X && is_upper(g[i]) && letter_index(g[i]) == ui {
                    lemma_letter_roundtrip(g[i]);
                }
            }
            assert(refreshword_spec(cur, g, a, ch) =~= judged_below(s0, g, a, ui + 1));
        }
        refreshword(invec, anvec, ch, wordleg);
    }
    assert(wordleg.gamestates.stateofword@ =~= feedback_spec(s0, g, a));
    refreshal(invec, wordleg);
    proof {
        let al0 = old(wordleg).gamestates.stateofal@;
        let w = wordleg.gamestates.stateofword@;
        assert forall|k: int|
            0 <= k < 26 && #[trigger] wordleg.gamestates.stateofal@[k] == StateofChar::G implies al0[k]
            == StateofChar::G || exists|j: int|
            0 <= j < 5 && is_upper(g[j]) && letter_index(g[j]) == k && w[j] == StateofChar::G by {
            lemma_keyboard_green_needs_green(al0, g, w, 5, k);
        }
    }
}

// ---------------------------------------------------------------------
// Laws
// ---------------------------------------------------------------------

/// Positions `j < n` where guess `g` and answer `a` differ and the guess
/// holds `c`.
pub open spec fn unmatched_in_guess(g: Seq<char>, a: Seq<char>, c: char, n: int) -> int
    decreases n,
{
    if n <= 0 {
        0
    } else {
        unmatched_in_guess(g, a, c, n - 1) + (if g[n - 1] != a[n - 1] && g[n - 1] == c {
            1int
        } else {
            0int
        })
    }
}

/// Positions `j < n` where guess `g` and answer `a` differ and the answer
/// holds `c`.
pub open spec fn unmatched_in_answer(g: Seq<char>, a: Seq<char>, c: char, n: int) -> int
    decreases n,
{
    if n <= 0 {
        0
    } else {
        unmatched_in_answer(g, a, c, n - 1) + (if g[n - 1] != a[n - 1] && a[n - 1] == c {
            1int
        } else {
            0int
        })
    }
}

/// The Wordle colouring of guess `g` against answer `a`: green where the
/// letters agree; an upper-case letter elsewhere is yellow while its
/// occurrences so far among the unmatched positions of the guess do not
/// exceed its occurrences among the unmatched positions of the answer, red
/// after that; any other character stays unjudged.
pub open spec fn wordle_feedback(g: Seq<char>, a: Seq<char>) -> Seq<StateofChar> {
    Seq::new(
        5,
        |i: int|
            if g[i] == a[i] {
                StateofChar::G
            } else if !is_upper(g[i]) {
                StateofChar::X
            } else if unmatched_in_guess(g, a, g[i], i + 1) <= unmatched_in_answer(g, a, g[i], 5) {
                StateofChar::Y
            } else {
                StateofChar::R
            },
    )
}

proof fn lemma_counts_on_fresh_row(g: Seq<char>, a: Seq<char>, c: char, n: int)
    requires
        0 <= n <= 5,
    ensures
        count_unjudged(mark_green(blank_row(5), g, a), g, c, n) == unmatched_in_guess(g, a, c, n),
        count_open(mark_green(blank_row(5), g, a), a, c, n) == unmatched_in_answer(g, a, c, n),
    decreases n,
{
    if n > 0 {
        lemma_counts_on_fresh_row(g, a, c, n - 1);
    }
}

/// Law: from a row with no colour yet, `refresh` colours the guess exactly
/// by the Wordle rule.
pub proof fn lemma_fresh_row_is_wordle(g: Seq<char>, a: Seq<char>)
    ensures
        feedback_spec(blank_row(5), g, a) == wordle_feedback(g, a),
{
    assert forall|i: int| 0 <= i < 5 implies #[trigger] feedback_spec(blank_row(5), g, a)[i]
        == wordle_feedback(g, a)[i] by {
        lemma_counts_on_fresh_row(g, a, g[i], i + 1);
        lemma_counts_on_fresh_row(g, a, g[i], 5);
    }
    assert(feedback_spec(blank_row(5), g, a) =~= wordle_feedback(g, a));
}

/// Law: a guess is coloured all green exactly when its first five letters
/// are those of the answer.
pub proof fn lemma_all_green_iff_same_word(g: Seq<char>, a: Seq<char>)
    requires
        g.len() >= 5,
        a.len() >= 5,
    ensures
        (forall|i: int| 0 <= i < 5 ==> #[trigger] wordle_feedback(g, a)[i] == StateofChar::G)
            <==> g.take(5) == a.take(5),
{
    if forall|i: int| 0 <= i < 5 ==> #[trigger] wordle_feedback(g, a)[i] == StateofChar::G {
        assert forall|i: int| 0 <= i < 5 implies g[i] == a[i] by {
            assert(wordle_feedback(g, a)[i] == StateofChar::G);
        }
        assert(g.take(5) =~= a.take(5));
    }
    if g.take(5) == a.take(5) {
        assert forall|i: int| 0 <= i < 5 implies #[trigger] wordle_feedback(g, a)[i]
            == StateofChar::G by {
            assert(g.take(5)[i] == a.take(5)[i]);
        }
    }
}

/// Law: a typed key shows either its old colour or the colour of the
/// letter typed; it is green exactly when it was green or the letter is
/// green; a green key stays green; a yellow key typed with a red letter stays
/// yellow.
pub proof fn lemma_key_update_takes_a_colour(old: StateofChar, new: StateofChar)
    ensures
        key_update(old, new) == old || key_update(old, new) == new,
        key_update(old, new) == StateofChar::G <==> (old == StateofChar::G || new == StateofChar::G),
        old == StateofChar::G ==> key_update(old, new) == StateofChar::G,
        old == StateofChar::Y && new == StateofChar::R ==> key_update(old, new) == StateofChar::Y,
        old == StateofChar::Y && new == StateofChar::Y ==> key_update(old, new) == StateofChar::Y,
{
}

/// Law: after a guess is typed, a key is green only when it was green
/// before or one of the typed occurrences of its letter is green.
pub proof fn lemma_keyboard_green_needs_green(al: Seq<StateofChar>, g: Seq<char>, w: Seq<StateofChar>, n: int, k: int)
    requires
        al.len() == 26,
        0 <= k < 26,
        keyboard_after(al, g, w, n)[k] == StateofChar::G,
    ensures
        al[k] == StateofChar::G || exists|j: int|
            0 <= j < n && is_upper(#[trigger] g[j]) && letter_index(g[j]) == k && w[j] == StateofChar::G,
    decreases n,
{
    if n > 0 {
        let prev = keyboard_after(al, g, w, n - 1);
        lemma_keyboard_len(al, g, w, n - 1);
        if is_upper(g[n - 1]) && letter_index(g[n - 1]) == k {
            lemma_key_update_takes_a_colour(prev[k], w[n - 1]);
            if prev[k] == StateofChar::G {
                lemma_keyboard_green_needs_green(al, g, w, n - 1, k);
                if al[k] != StateofChar::G {
                    let j = choose|j: int|
                        0 <= j < n - 1 && is_upper(#[trigger] g[j]) && letter_index(g[j]) == k && w[j]
                            == StateofChar::G;
                    assert(0 <= j < n && is_upper(g[j]) && letter_index(g[j]) == k && w[j] == StateofChar::G);
                }
            } else {
                assert(w[n - 1] == StateofChar::G);
            }
        } else {
            assert(prev[k] == StateofChar::G);
            lemma_keyboard_green_needs_green(al, g, w, n - 1, k);
            if al[k] != StateofChar::G {
                let j = choose|j: int|
                    0 <= j < n - 1 && is_upper(#[trigger] g[j]) && letter_index(g[j]) == k && w[j]
                        == StateofChar::G;
                assert(0 <= j < n && is_upper(g[j]) && letter_index(g[j]) == k && w[j] == StateofChar::G);
            }
        }
    }
}

proof fn lemma_keyboard_len(al: Seq<StateofChar>, g: Seq<char>, w: Seq<StateofChar>, n: int)
    requires
        al.len() == 26,
    ensures
        keyboard_after(al, g, w, n).len() == 26,
    decreases n,
{
    if n > 0 {
        lemma_keyboard_len(al, g, w, n - 1);
    }
}

/// Law: typing a judged letter on a key never lowers what the key tells
/// (`X < R < Y < G`).
pub proof fn lemma_key_update_never_downgrades(old: StateofChar, new: StateofChar)
    requires
        new != StateofChar::X,
    ensures
        key_update(old, new).rank() >= old.rank(),
{
}

/// Law: typing a guess whose letters are all judged on the keyboard never
/// lowers any key, and leaves the number of keys unchanged.
pub proof fn lemma_keyboard_never_downgrades(
    al: Seq<StateofChar>,
    g: Seq<char>,
    w: Seq<StateofChar>,
    n: int,
)
    requires
        al.len() == 26,
        forall|j: int| 0 <= j < n && is_upper(#[trigger] g[j]) ==> w[j] != StateofChar::X,
    ensures
        keyboard_after(al, g, w, n).len() == 26,
        forall|k: int| 0 <= k < 26 ==> #[trigger] keyboard_after(al, g, w, n)[k].rank() >= al[k].rank(),
    decreases n,
{
    if n > 0 {
        lemma_keyboard_never_downgrades(al, g, w, n - 1);
        let prev = keyboard_after(al, g, w, n - 1);
        if is_upper(g[n - 1]) {
            let k = letter_index(g[n - 1]);
            lemma_key_update_never_downgrades(prev[k], w[n - 1]);
        }
    }
}

/// Law: in the Wordle colouring every upper-case letter of the guess is
/// judged (green, yellow or red).
pub proof fn lemma_wordle_judges_letters(g: Seq<char>, a: Seq<char>)
    ensures
        forall|i: int|
            0 <= i < 5 && is_upper(#[trigger] g[i]) ==> wordle_feedback(g, a)[i] != StateofChar::X,
{
}

/// Positions `j < n` of `w` holding `c`.
pub open spec fn count_letter(w: Seq<char>, c: char, n: int) -> int
    decreases n,
{
    if n <= 0 {
        0
    } else {
        count_letter(w, c, n - 1) + (if w[n - 1] == c {
            1int
        } else {
            0int
        })
    }
}

/// Positions `i < n` of guess `g` holding `c` that the Wordle colouring
/// against `a` marks green or yellow.
pub open spec fn count_marked(g: Seq<char>, a: Seq<char>, c: char, n: int) -> int
    decreases n,
{
    if n <= 0 {
        0
    } else {
        count_marked(g, a, c, n - 1) + (if g[n - 1] == c && (wordle_feedback(g, a)[n - 1]
            == StateofChar::G || wordle_feedback(g, a)[n - 1] == StateofChar::Y) {
            1int
        } else {
            0int
        })
    }
}

/// Positions `j < n` where guess and answer agree on `c`.
pub open spec fn count_green_letter(g: Seq<char>, a: Seq<char>, c: char, n: int) -> int
    decreases n,
{
    if n <= 0 {
        0
    } else {
        count_green_letter(g, a, c, n - 1) + (if g[n - 1] == a[n - 1] && a[n - 1] == c {
            1int
        } else {
            0int
        })
    }
}

proof fn lemma_answer_letters_split(g: Seq<char>, a: Seq<char>, c: char, n: int)
    ensures
        count_letter(a, c, n) == count_green_letter(g, a, c, n) + unmatched_in_answer(g, a, c, n),
    decreases n,
{
    if n > 0 {
        lemma_answer_letters_split(g, a, c, n - 1);
    }
}

proof fn lemma_marked_count(g: Seq<char>, a: Seq<char>, c: char, n: int)
    requires
        0 <= n <= 5,
    ensures
        count_marked(g, a, c, n) <= count_green_letter(g, a, c, n) + unmatched_in_answer(g, a, c, 5),
        is_upper(c) && unmatched_in_guess(g, a, c, n) <= unmatched_in_answer(g, a, c, 5)
            ==> count_marked(g, a, c, n) == count_green_letter(g, a, c, n) + unmatched_in_guess(g, a, c, n),
        is_upper(c) && unmatched_in_guess(g, a, c, n) > unmatched_in_answer(g, a, c, 5)
            ==> count_marked(g, a, c, n) == count_green_letter(g, a, c, n) + unmatched_in_answer(g, a, c, 5),
        !is_upper(c) ==> count_marked(g, a, c, n) == count_green_letter(g, a, c, n),
    decreases n,
{
    lemma_unmatched_answer_nonneg(g, a, c, 5);
    if n > 0 {
        lemma_marked_count(g, a, c, n - 1);
        lemma_unmatched_nonneg(g, a, c, n - 1);
    }
}

proof fn lemma_unmatched_nonneg(g: Seq<char>, a: Seq<char>, c: char, n: int)
    ensures
        unmatched_in_guess(g, a, c, n) >= 0,
    decreases n,
{
    if n > 0 {
        lemma_unmatched_nonneg(g, a, c, n - 1);
    }
}

proof fn lemma_unmatched_answer_nonneg(g: Seq<char>, a: Seq<char>, c: char, n: int)
    ensures
        unmatched_in_answer(g, a, c, n) >= 0,
    decreases n,
{
    if n > 0 {
        lemma_unmatched_answer_nonneg(g, a, c, n - 1);
    }
}

/// Law: the Wordle colouring marks (green or yellow) no more copies of a
/// letter in the guess than the answer holds.
pub proof fn lemma_marks_within_answer(g: Seq<char>, a: Seq<char>, c: char)
    ensures
        count_marked(g, a, c, 5) <= count_letter(a, c, 5),
{
    lemma_marked_count(g, a, c, 5);
    lemma_answer_letters_split(g, a, c, 5);
}

} // verus!
