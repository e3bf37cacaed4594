use vstd::prelude::*;
use crate::letters::is_upper;
use rand::SeedableRng;
use rand::seq::SliceRandom;

verus! {

// ---------------------------------------------------------------------
// Words
// ---------------------------------------------------------------------

/// The upper-case form of `s`, as `str::to_uppercase` gives it.
pub uninterp spec fn uppercase(s: Seq<char>) -> Seq<char>;

/// `str::to_uppercase`: the upper-case equivalent of the text, by the Unicode
/// rules of the standard library. The contract names the result and claims
/// nothing else about it.
#[verifier::external_body]
fn to_uppercase_chars(w: &Vec<char>) -> (r: Vec<char>)
    ensures
        r@ == uppercase(w@),
{
    let s: String = w.iter().collect();
    s.to_uppercase().chars().collect()
}

/// The words held by a list of character vectors.
pub open spec fn words_of(v: Seq<Vec<char>>) -> Seq<Seq<char>> {
    v.map_values(|w: Vec<char>| w@)
}

/// Every character is an upper-case ASCII letter.
pub open spec fn all_upper(w: Seq<char>) -> bool {
    forall|i: int| 0 <= i < w.len() ==> #[trigger] is_upper(w[i])
}

/// Strict lexicographic order on words, by code point (the order of
/// `String::cmp`).
pub open spec fn word_lt(a: Seq<char>, b: Seq<char>) -> bool
    decreases a.len(),
{
    if a.len() == 0 {
        b.len() > 0
    } else if b.len() == 0 {
        false
    } else if a[0] != b[0] {
        (a[0] as int) < (b[0] as int)
    } else {
        word_lt(a.drop_first(), b.drop_first())
    }
}

/// The first `k` characters of `a` and `b` agree.
pub open spec fn same_prefix(a: Seq<char>, b: Seq<char>, k: int) -> bool {
    forall|i: int| 0 <= i < k ==> #[trigger] a[i] == b[i]
}

/// `a` and `b` agree before position `k`, and at `k` either `a` has ended
/// while `b` goes on, or `a` has the character with the smaller code point.
pub open spec fn below_at(a: Seq<char>, b: Seq<char>, k: int) -> bool {
    &&& 0 <= k <= a.len()
    &&& k <= b.len()
    &&& same_prefix(a, b, k)
    &&& ((k == a.len() && k < b.len()) || (k < a.len() && k < b.len() && (a[k] as int) < (b[k] as int)))
}

/// Law: `a` comes before `b` exactly when, at the first position where they
/// differ, `a` has ended or has the smaller character: the order of
/// `String::cmp`, character by character.
pub proof fn lemma_word_lt_first_difference(a: Seq<char>, b: Seq<char>)
    ensures
        word_lt(a, b) <==> exists|k: int| #[trigger] below_at(a, b, k),
    decreases a.len(),
{
    if a.len() == 0 {
        if b.len() > 0 {
            assert(below_at(a, b, 0));
        }
    } else if b.len() == 0 {
        assert forall|k: int| !#[trigger] below_at(a, b, k) by {}
    } else if a[0] != b[0] {
        if (a[0] as int) < (b[0] as int) {
            assert(below_at(a, b, 0));
        }
        assert forall|k: int| #[trigger] below_at(a, b, k) implies k == 0 by {
            if k > 0 {
                assert(a[0] == b[0]);
            }
        }
    } else {
        let a1 = a.drop_first();
        let b1 = b.drop_first();
        lemma_word_lt_first_difference(a1, b1);
        if word_lt(a1, b1) {
            let k = choose|k: int| #[trigger] below_at(a1, b1, k);
            assert forall|i: int| 0 <= i < k + 1 implies #[trigger] a[i] == b[i] by {
                if i > 0 {
                    assert(a1[i - 1] == b1[i - 1]);
                }
            }
            assert(below_at(a, b, k + 1));
        }
        if exists|k: int| #[trigger] below_at(a, b, k) {
            let k = choose|k: int| #[trigger] below_at(a, b, k);
            assert(k > 0);
            assert forall|i: int| 0 <= i < k - 1 implies #[trigger] a1[i] == b1[i] by {
                assert(a[i + 1] == b[i + 1]);
            }
            assert(below_at(a1, b1, k - 1));
        }
    }
}

/// `a` is below `b` at their first difference.
pub open spec fn below_at_first_difference(a: Seq<char>, b: Seq<char>) -> bool {
    exists|k: int| #[trigger] below_at(a, b, k)
}

/// Each word is below every later word at their first difference.
pub open spec fn in_string_order(s: Seq<Seq<char>>) -> bool {
    forall|i: int, j: int| 0 <= i < j < s.len() ==> below_at_first_difference(#[trigger] s[i], #[trigger] s[j])
}

/// Every word is below every later word.
pub open spec fn strictly_sorted(s: Seq<Seq<char>>) -> bool {
    forall|i: int, j: int| 0 <= i < j < s.len() ==> word_lt(#[trigger] s[i], #[trigger] s[j])
}

/// `v` lists the words of `ws`, each once, in increasing order.
pub open spec fn sorted_listing(v: Seq<Seq<char>>, ws: Seq<Seq<char>>) -> bool {
    &&& strictly_sorted(v)
    &&& forall|x: Seq<char>| v.contains(x) <==> ws.contains(x)
}

pub proof fn lemma_word_lt_irreflexive(a: Seq<char>)
    ensures
        !word_lt(a, a),
    decreases a.len(),
{
    if a.len() > 0 {
        lemma_word_lt_irreflexive(a.drop_first());
    }
}

pub proof fn lemma_word_lt_transitive(a: Seq<char>, b: Seq<char>, c: Seq<char>)
    requires
        word_lt(a, b),
        word_lt(b, c),
    ensures
        word_lt(a, c),
    decreases a.len(),
{
    if a.len() > 0 && b.len() > 0 && c.len() > 0 {
        if a[0] == b[0] && b[0] == c[0] {
            lemma_word_lt_transitive(a.drop_first(), b.drop_first(), c.drop_first());
        }
    }
}

pub proof fn lemma_word_lt_total(a: Seq<char>, b: Seq<char>)
    requires
        a != b,
    ensures
        word_lt(a, b) || word_lt(b, a),
    decreases a.len(),
{
    if a.len() > 0 && b.len() > 0 {
        if a[0] == b[0] {
            if a.drop_first() == b.drop_first() {
                assert(a =~= seq![a[0]] + a.drop_first());
                assert(b =~= seq![b[0]] + b.drop_first());
            }
            lemma_word_lt_total(a.drop_first(), b.drop_first());
        }
    } else if a.len() == 0 && b.len() == 0 {
        assert(a =~= b);
    }
}

pub proof fn lemma_word_lt_asymmetric(a: Seq<char>, b: Seq<char>)
    requires
        word_lt(a, b),
    ensures
        !word_lt(b, a),
{
    if word_lt(b, a) {
        lemma_word_lt_transitive(a, b, a);
        lemma_word_lt_irreflexive(a);
    }
}

/// A copy of a word.
pub fn copy_word(w: &Vec<char>) -> (r: Vec<char>)
    ensures
        r@ == w@,
{
    let mut r: Vec<char> = Vec::new();
    for i in 0..w.len()
        invariant
            r@ == w@.take(i as int),
    {
        r.push(w[i]);
    }
    assert(r@ =~= w@);
    r
}

/// Whether two words are the same.
pub fn same_word(a: &Vec<char>, b: &Vec<char>) -> (r: bool)
    ensures
        r == (a@ == b@),
{
    if a.len() != b.len() {
        return false;
    }
    for i in 0..a.len()
        invariant
            a@.len() == b@.len(),
            a@.take(i as int) == b@.take(i as int),
    {
        if a[i] != b[i] {
            return false;
        }
        assert(a@.take(i + 1) =~= a@.take(i as int).push(a@[i as int]));
        assert(b@.take(i + 1) =~= b@.take(i as int).push(b@[i as int]));
    }
    assert(a@ =~= a@.take(a@.len() as int));
    assert(b@ =~= b@.take(b@.len() as int));
    true
}

/// Whether word `a` comes strictly before word `b`.
pub fn word_less(a: &Vec<char>, b: &Vec<char>) -> (r: bool)
    ensures
        r == word_lt(a@, b@),
        r == exists|k: int| #[trigger] below_at(a@, b@, k),
{
    proof {
        lemma_word_lt_first_difference(a@, b@);
    }
    let mut i: usize = 0;
    assert(a@.skip(0) =~= a@);
    assert(b@.skip(0) =~= b@);
    while i < a.len() && i < b.len() && a[i] == b[i]
        invariant
            i <= a@.len(),
            i <= b@.len(),
            word_lt(a@, b@) == word_lt(a@.skip(i as int), b@.skip(i as int)),
        decreases a@.len() - i,
    {
        assert(a@.skip(i + 1) =~= a@.skip(i as int).drop_first());
        assert(b@.skip(i + 1) =~= b@.skip(i as int).drop_first());
        i = i + 1;
    }
    if i == a.len() {
        i < b.len()
    } else if i == b.len() {
        false
    } else {
        a[i] < b[i]
    }
}

/// The uppercase form of a word typed or read from a file.
pub fn normalize_word(raw: &Vec<char>) -> (w: Vec<char>)
    ensures
        w@ == uppercase(raw@),
{
    to_uppercase_chars(raw)
}

/// Whether word `w` is in `list`.
pub fn contains_word(list: &Vec<Vec<char>>, w: &Vec<char>) -> (r: bool)
    ensures
        r == words_of(list@).contains(w@),
{
    for i in 0..list.len()
        invariant
            forall|j: int| 0 <= j < i ==> list@[j]@ != w@,
    {
        if same_word(&list[i], w) {
            assert(words_of(list@)[i as int] == w@);
            return true;
        }
    }
    proof {
        if words_of(list@).contains(w@) {
            let j = choose|j: int| 0 <= j < words_of(list@).len() && words_of(list@)[j] == w@;
            assert(list@[j]@ == w@);
        }
    }
    false
}

/// Whether every character of `w` is an upper-case ASCII letter.
pub fn is_all_upper(w: &Vec<char>) -> (r: bool)
    ensures
        r == all_upper(w@),
{
    for i in 0..w.len()
        invariant
            forall|j: int| 0 <= j < i ==> #[trigger] is_upper(w@[j]),
    {
        if !(w[i] >= 'A' && w[i] <= 'Z') {
            assert(!is_upper(w@[i as int]));
            return false;
        }
    }
    true
}

// ---------------------------------------------------------------------
// Sorting a word list
// ---------------------------------------------------------------------

/// Sorts `ws` into increasing order; `None` when a word occurs twice.
pub fn sort_words(ws: &Vec<Vec<char>>) -> (r: Option<Vec<Vec<char>>>)
    ensures
        match r {
            Some(v) => words_of(ws@).no_duplicates() && sorted_listing(words_of(v@), words_of(ws@)),
            None => !words_of(ws@).no_duplicates(),
        },
        // in the order of `String::cmp`: each word is below every later word
        // at their first difference
        r matches Some(v) ==> in_string_order(words_of(v@)),
{
    let ghost dv = words_of(ws@);
    let mut out: Vec<Vec<char>> = Vec::new();
    for k in 0..ws.len()
        invariant
            dv == words_of(ws@),
            strictly_sorted(words_of(out@)),
            forall|x: Seq<char>| words_of(out@).contains(x) <==> dv.take(k as int).contains(x),
            dv.take(k as int).no_duplicates(),
    {
        let w = copy_word(&ws[k]);
        let ghost odv = words_of(out@);
        assert(w@ == dv[k as int]);
        let mut p: usize = 0;
        while p < out.len() && word_less(&out[p], &w)
            invariant
                0 <= p <= out@.len(),
                odv == words_of(out@),
                forall|i: int| 0 <= i < p ==> word_lt(#[trigger] odv[i], w@),
            decreases out@.len() - p,
        {
            p = p + 1;
        }
        if p < out.len() && same_word(&out[p], &w) {
            proof {
                assert(odv[p as int] == w@);
                assert(odv.contains(w@));
                assert(dv.take(k as int).contains(w@));
                let j = choose|j: int| 0 <= j < k && dv.take(k as int)[j] == w@;
                assert(dv[j] == dv[k as int]);
            }
            return None;
        }
        proof {
            // `w` is not in `out`, and lies strictly between its neighbours.
            if p < out@.len() {
                lemma_word_lt_total(odv[p as int], w@);
                assert(word_lt(w@, odv[p as int]));
            }
            assert forall|j: int| p <= j < odv.len() implies word_lt(w@, #[trigger] odv[j]) by {
                if j > p {
                    lemma_word_lt_transitive(w@, odv[p as int], odv[j]);
                }
            }
            assert forall|j: int| 0 <= j < odv.len() implies #[trigger] odv[j] != w@ by {
                lemma_word_lt_irreflexive(w@);
            }
            assert(!odv.contains(w@));
        }
        out.insert(p, w);
        proof {
            let ndv = words_of(out@);
            assert(ndv =~= odv.insert(p as int, dv[k as int]));
            assert(dv.take(k + 1) =~= dv.take(k as int).push(dv[k as int]));
            assert forall|i: int, j: int| 0 <= i < j < ndv.len() implies word_lt(
                #[trigger] ndv[i],
                #[trigger] ndv[j],
            ) by {
                if i < p && j > p {
                    lemma_word_lt_transitive(odv[i], w@, odv[j - 1]);
                }
            }
            assert forall|x: Seq<char>| ndv.contains(x) <==> dv.take(k + 1).contains(x) by {
                if ndv.contains(x) {
                    let q = choose|q: int| 0 <= q < ndv.len() && ndv[q] == x;
                    if q == p {
                        assert(dv.take(k + 1)[k as int] == x);
                    } else {
                        if q < p {
                            assert(odv[q] == x);
                        } else {
                            assert(odv[q - 1] == x);
                        }
                        assert(odv.contains(x));
                        assert(dv.take(k as int).contains(x));
                        let j = choose|j: int| 0 <= j < k && dv.take(k as int)[j] == x;
                        assert(dv.take(k + 1)[j] == x);
                    }
                }
                if dv.take(k + 1).contains(x) {
                    if x != w@ {
                        assert(dv.take(k as int).contains(x));
                        assert(odv.contains(x));
                        let q = choose|q: int| 0 <= q < odv.len() && odv[q] == x;
                        if q < p {
                            assert(ndv[q] == x);
                        } else {
                            assert(ndv[q + 1] == x);
                        }
                    } else {
                        assert(ndv[p as int] == x);
                    }
                }
            }
        }
    }
    assert(dv.take(ws@.len() as int) =~= dv);
    proof {
        let ov = words_of(out@);
        assert forall|i: int, j: int| 0 <= i < j < ov.len() implies below_at_first_difference(
            #[trigger] ov[i],
            #[trigger] ov[j],
        ) by {
            assert(word_lt(ov[i], ov[j]));
            lemma_word_lt_first_difference(ov[i], ov[j]);
        }
        assert(in_string_order(ov));
    }
    Some(out)
}

// ---------------------------------------------------------------------
// The word lists
// ---------------------------------------------------------------------

/// Why a word list is refused.
#[derive(Clone, Copy, PartialEq, Eq, Structural, Debug)]
pub enum WordListError {
    /// A word of the answer file holds a character other than `A`-`Z`.
    InvalidCharacter,
    /// A word of the answer file is not five letters long.
    WrongLength,
    /// A word occurs twice in the list.
    Duplicate,
}

/// The words upper-cased.
pub open spec fn uppercased(raw: Seq<Seq<char>>) -> Seq<Seq<char>> {
    raw.map_values(|w: Seq<char>| uppercase(w))
}

/// Five upper-case letters.
pub open spec fn valid_answer(w: Seq<char>) -> bool {
    all_upper(w) && w.len() == 5
}

/// `k` is the first word of `ws` that is not a valid answer.
pub open spec fn first_bad(ws: Seq<Seq<char>>, k: int) -> bool {
    &&& 0 <= k < ws.len()
    &&& !valid_answer(ws[k])
    &&& forall|j: int| 0 <= j < k ==> valid_answer(#[trigger] ws[j])
}

/// How the upper-cased list of answers `ws` is refused, if it is: read from
/// a file, its first word that is not five upper-case letters is refused
/// for its characters, or else for its length; then a word that occurs
/// twice.
pub open spec fn answer_list_error(ws: Seq<Seq<char>>, from_file: bool) -> Option<WordListError> {
    if from_file && exists|k: int| first_bad(ws, k) {
        let k = choose|k: int| first_bad(ws, k);
        if !all_upper(ws[k]) {
            Some(WordListError::InvalidCharacter)
        } else {
            Some(WordListError::WrongLength)
        }
    } else if !ws.no_duplicates() {
        Some(WordListError::Duplicate)
    } else {
        None
    }
}

/// How the upper-cased list of acceptable words `ws` is refused, if it is:
/// read from a non-empty file while the last answer word is not five
/// characters long; then a word that occurs twice.
pub open spec fn acceptable_list_error(ws: Seq<Seq<char>>, from_file: bool, answers: Seq<Seq<char>>) -> Option<
    WordListError,
> {
    if from_file && ws.len() > 0 && answers.last().len() != 5 {
        Some(WordListError::WrongLength)
    } else if !ws.no_duplicates() {
        Some(WordListError::Duplicate)
    } else {
        None
    }
}

/// Every word upper-cased.
pub fn normalize_words(raw: &Vec<Vec<char>>) -> (ups: Vec<Vec<char>>)
    ensures
        words_of(ups@) == uppercased(words_of(raw@)),
{
    let mut ups: Vec<Vec<char>> = Vec::new();
    for k in 0..raw.len()
        invariant
            ups@.len() == k,
            forall|j: int| 0 <= j < k ==> #[trigger] ups@[j]@ == uppercase(raw@[j]@),
    {
        let w = normalize_word(&raw[k]);
        ups.push(w);
    }
    assert(words_of(ups@) =~= uppercased(words_of(raw@)));
    ups
}

/// Checks and sorts the upper-cased list of answers: read from a file,
/// each word must be five letters `A`-`Z`; no word may occur twice.
pub fn check_final_words(ups: &Vec<Vec<char>>, from_file: bool) -> (r: Result<Vec<Vec<char>>, WordListError>)
    ensures
        match r {
            Ok(v) => answer_list_error(words_of(ups@), from_file) is None && sorted_listing(
                words_of(v@),
                words_of(ups@),
            ),
            Err(e) => answer_list_error(words_of(ups@), from_file) == Some(e),
        },
        r matches Ok(v) ==> in_string_order(words_of(v@)),
{
    let ghost ws = words_of(ups@);
    if from_file {
        for k in 0..ups.len()
            invariant
                from_file,
                ws == words_of(ups@),
                forall|j: int| 0 <= j < k ==> valid_answer(#[trigger] ws[j]),
        {
            let upper = is_all_upper(&ups[k]);
            if !upper || ups[k].len() != 5 {
                proof {
                    assert(ws[k as int] == ups@[k as int]@);
                    assert(upper == all_upper(ws[k as int]));
                    assert(first_bad(ws, k as int));
                    let k2 = choose|k2: int| first_bad(ws, k2);
                    if k2 < k {
                        assert(valid_answer(ws[k2]));
                    } else if k2 > k {
                        assert(valid_answer(ws[k as int]));
                    }
                }
                if !upper {
                    return Err(WordListError::InvalidCharacter);
                } else {
                    return Err(WordListError::WrongLength);
                }
            }
        }
    }
    match sort_words(ups) {
        Some(v) => Ok(v),
        None => Err(WordListError::Duplicate),
    }
}

/// The list of answers: every line upper-cased; read from a file, each must
/// be five letters `A`-`Z`; no word may occur twice; sorted.
pub fn prepare_final_words(raw: &Vec<Vec<char>>, from_file: bool) -> (r: Result<Vec<Vec<char>>, WordListError>)
    ensures
        match r {
            Ok(v) => answer_list_error(uppercased(words_of(raw@)), from_file) is None && sorted_listing(
                words_of(v@),
                uppercased(words_of(raw@)),
            ),
            Err(e) => answer_list_error(uppercased(words_of(raw@)), from_file) == Some(e),
        },
        r matches Ok(v) ==> in_string_order(words_of(v@)),
{
    let ups = normalize_words(raw);
    check_final_words(&ups, from_file)
}

/// Checks and sorts the upper-cased list of acceptable guesses: read from
/// a non-empty file, the last answer word must be five characters long; no
/// word may occur twice.
pub fn check_acceptable_words(ups: &Vec<Vec<char>>, from_file: bool, answers: &Vec<Vec<char>>) -> (r: Result<
    Vec<Vec<char>>,
    WordListError,
>)
    requires
        from_file && ups@.len() > 0 ==> answers@.len() > 0,
    ensures
        match r {
            Ok(v) => acceptable_list_error(words_of(ups@), from_file, words_of(answers@)) is None
                && sorted_listing(words_of(v@), words_of(ups@)),
            Err(e) => acceptable_list_error(words_of(ups@), from_file, words_of(answers@)) == Some(e),
        },
        r matches Ok(v) ==> in_string_order(words_of(v@)),
{
    if from_file && ups.len() > 0 && answers[answers.len() - 1].len() != 5 {
        return Err(WordListError::WrongLength);
    }
    match sort_words(ups) {
        Some(v) => Ok(v),
        None => Err(WordListError::Duplicate),
    }
}

/// The list of acceptable guesses: every line upper-cased; read from a
/// file, the last answer word must be five characters long; no word may
/// occur twice; sorted.
pub fn prepare_acceptable_words(raw: &Vec<Vec<char>>, from_file: bool, answers: &Vec<Vec<char>>) -> (r: Result<
    Vec<Vec<char>>,
    WordListError,
>)
    requires
        from_file && raw@.len() > 0 ==> answers@.len() > 0,
    ensures
        match r {
            Ok(v) => acceptable_list_error(uppercased(words_of(raw@)), from_file, words_of(answers@))
                is None && sorted_listing(words_of(v@), uppercased(words_of(raw@))),
            Err(e) => acceptable_list_error(uppercased(words_of(raw@)), from_file, words_of(answers@))
                == Some(e),
        },
        r matches Ok(v) ==> in_string_order(words_of(v@)),
{
    let ups = normalize_words(raw);
    assert(words_of(ups@).len() == words_of(raw@).len());
    check_acceptable_words(&ups, from_file, answers)
}

/// Word `w` occurs in `list` at position `from` or later.
pub open spec fn occurs_from(list: Seq<Seq<char>>, w: Seq<char>, from: int) -> bool {
    exists|q: int| from <= q < list.len() && list[q] == w
}

/// For every `i`, answer `i` occurs among the acceptable words from
/// position `i` on.
pub open spec fn answers_acceptable(answers: Seq<Seq<char>>, acceptable: Seq<Seq<char>>) -> bool {
    forall|i: int| 0 <= i < answers.len() ==> #[trigger] occurs_from(acceptable, answers[i], i)
}

/// Checks, answer by answer, that answer `i` occurs among the acceptable
/// words from position `i` on.
pub fn check_final_in_acceptable(answers: &Vec<Vec<char>>, acceptable: &Vec<Vec<char>>) -> (ok: bool)
    ensures
        ok == answers_acceptable(words_of(answers@), words_of(acceptable@)),
{
    let ghost f = words_of(answers@);
    let ghost a = words_of(acceptable@);
    for i in 0..answers.len()
        invariant
            f == words_of(answers@),
            a == words_of(acceptable@),
            forall|j: int| 0 <= j < i ==> #[trigger] occurs_from(a, f[j], j),
    {
        let mut found = false;
        let mut q: usize = i;
        while q < acceptable.len() && !found
            invariant
                i <= q,
                a == words_of(acceptable@),
                f == words_of(answers@),
                i < f.len(),
                forall|j: int| 0 <= j < i ==> #[trigger] occurs_from(a, f[j], j),
                found ==> occurs_from(a, f[i as int], i as int),
                !found ==> forall|j: int| i <= j < q ==> #[trigger] a[j] != f[i as int],
            decreases a.len() - q + (if found { 0int } else { 1int }),
        {
            if same_word(&acceptable[q], &answers[i]) {
                assert(a[q as int] == f[i as int]);
                found = true;
            } else {
                q = q + 1;
            }
        }
        if !found {
            proof {
                if answers_acceptable(f, a) {
                    assert(occurs_from(a, f[i as int], i as int));
                }
            }
            return false;
        }
    }
    true
}

proof fn lemma_answer_position(f: Seq<Seq<char>>, a: Seq<Seq<char>>, i: int)
    requires
        strictly_sorted(f),
        strictly_sorted(a),
        0 <= i < f.len(),
        forall|k: int| 0 <= k < f.len() ==> a.contains(#[trigger] f[k]),
    ensures
        occurs_from(a, f[i], i),
    decreases i,
{
    assert(a.contains(f[i]));
    let j = choose|j: int| 0 <= j < a.len() && a[j] == f[i];
    if i > 0 {
        lemma_answer_position(f, a, i - 1);
        assert(occurs_from(a, f[i - 1], i - 1));
        let j0 = choose|j0: int| i - 1 <= j0 < a.len() && a[j0] == f[i - 1];
        assert(word_lt(f[i - 1], f[i]));
        if j <= j0 {
            if j == j0 {
                lemma_word_lt_irreflexive(f[i]);
            } else {
                assert(word_lt(a[j], a[j0]));
                lemma_word_lt_asymmetric(f[i - 1], f[i]);
            }
        }
        assert(i <= j);
    }
    assert(a[j] == f[i]);
}

/// Law: for sorted lists without repeats, the answer-by-answer check
/// holds exactly when every answer is an acceptable word.
pub proof fn lemma_check_is_inclusion(f: Seq<Seq<char>>, a: Seq<Seq<char>>)
    requires
        strictly_sorted(f),
        strictly_sorted(a),
    ensures
        answers_acceptable(f, a) <==> forall|k: int| 0 <= k < f.len() ==> a.contains(#[trigger] f[k]),
{
    if answers_acceptable(f, a) {
        assert forall|k: int| 0 <= k < f.len() implies a.contains(#[trigger] f[k]) by {
            assert(occurs_from(a, f[k], k));
            let j = choose|j: int| k <= j < a.len() && a[j] == f[k];
            assert(a[j] == f[k]);
        }
    }
    if forall|k: int| 0 <= k < f.len() ==> a.contains(#[trigger] f[k]) {
        assert forall|i: int| 0 <= i < f.len() implies #[trigger] occurs_from(a, f[i], i) by {
            lemma_answer_position(f, a, i);
        }
    }
}

// ---------------------------------------------------------------------
// The answers of the random mode
// ---------------------------------------------------------------------

/// The order into which `rand` shuffles `words` with a generator seeded by
/// `seed`.
pub uninterp spec fn shuffled(words: Seq<Seq<char>>, seed: u64) -> Seq<Seq<char>>;

/// `SliceRandom::shuffle` with `StdRng::seed_from_u64(seed)`: the words are
/// permuted in place by swaps only. The contract names the order that comes
/// out and states that it is a permutation; it claims nothing about which
/// permutation.
#[verifier::external_body]
fn shuffle_with_seed(words: &mut Vec<Vec<char>>, seed: u64)
    ensures
        words_of(final(words)@) == shuffled(words_of(old(words)@), seed),
        words_of(final(words)@).to_multiset() == words_of(old(words)@).to_multiset(),
{
    let mut rng = rand::rngs::StdRng::seed_from_u64(seed);
    words.shuffle(&mut rng);
}

/// Puts the answers into the order in which the random mode plays them,
/// one per day, from the seed.
pub fn shuffle_answers(words: &mut Vec<Vec<char>>, seed: u64)
    ensures
        words_of(final(words)@) == shuffled(words_of(old(words)@), seed),
        words_of(final(words)@).to_multiset() == words_of(old(words)@).to_multiset(),
        final(words)@.len() == old(words)@.len(),
{
    shuffle_with_seed(words, seed);
    proof {
        words_of(final(words)@).to_multiset_ensures();
        words_of(old(words)@).to_multiset_ensures();
    }
}

/// The answer of day `days` (counted from 1) in the shuffled list.
pub fn answer_of_day(shuffled_words: &Vec<Vec<char>>, days: u64) -> (w: Vec<char>)
    requires
        1 <= days <= shuffled_words@.len(),
    ensures
        w@ == shuffled_words@[days - 1]@,
{
    let n = shuffled_words.len();
    assert(days - 1 < n);
    let idx: usize = (days - 1) as usize;
    copy_word(&shuffled_words[idx])
}

} // verus!
