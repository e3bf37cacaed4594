use vstd::prelude::*;
use crate::words::{word_lt, copy_word, same_word, word_less, lemma_word_lt_transitive, lemma_word_lt_asymmetric, lemma_word_lt_total};

verus! {

/// How often a word was guessed.
pub struct Tcmdstate {
    pub num: i32,
    pub str: Vec<char>,
}

/// An entry as a word and its count.
pub open spec fn entry_view(t: Tcmdstate) -> (Seq<char>, int) {
    (t.str@, t.num as int)
}

/// The entries of a table as words and counts.
pub open spec fn table_view(v: Seq<Tcmdstate>) -> Seq<(Seq<char>, int)> {
    v.map_values(|t: Tcmdstate| entry_view(t))
}

/// Entry `e` is for word `w`.
pub open spec fn entry_for(e: (Seq<char>, int), w: Seq<char>) -> bool {
    e.0 == w
}

/// The first position at or after `from` whose entry is for `w`, or -1.
pub open spec fn find_entry(t: Seq<(Seq<char>, int)>, w: Seq<char>, from: int) -> int
    decreases t.len() - from,
{
    if from < 0 || from >= t.len() {
        -1
    } else if entry_for(t[from], w) {
        from
    } else {
        find_entry(t, w, from + 1)
    }
}

/// The table after one more guess of `w`: the first entry for `w` counts
/// one more, or a new entry with count 1 is added at the end.
pub open spec fn record_spec(t: Seq<(Seq<char>, int)>, w: Seq<char>) -> Seq<(Seq<char>, int)> {
    let i = find_entry(t, w, 0);
    if i >= 0 {
        t.update(i, (w, t[i].1 + 1))
    } else {
        t.push((w, 1))
    }
}

/// How often the table says `w` was guessed.
pub open spec fn count_in_table(t: Seq<(Seq<char>, int)>, w: Seq<char>) -> int {
    let i = find_entry(t, w, 0);
    if i >= 0 {
        t[i].1
    } else {
        0
    }
}

/// No word has two entries.
pub open spec fn keys_unique(t: Seq<(Seq<char>, int)>) -> bool {
    forall|i: int, j: int| 0 <= i < j < t.len() ==> !entry_for(#[trigger] t[i], (#[trigger] t[j]).0)
}

/// Every count fits below `i32::MAX`.
pub open spec fn counts_below_max(v: Seq<Tcmdstate>) -> bool {
    forall|i: int| 0 <= i < v.len() ==> (#[trigger] v[i]).num < i32::MAX
}

proof fn lemma_find_entry_is(t: Seq<(Seq<char>, int)>, w: Seq<char>, from: int, i: int)
    requires
        0 <= from <= i < t.len(),
        entry_for(t[i], w),
        forall|j: int| from <= j < i ==> !entry_for(#[trigger] t[j], w),
    ensures
        find_entry(t, w, from) == i,
    decreases i - from,
{
    if from < i {
        lemma_find_entry_is(t, w, from + 1, i);
    }
}

proof fn lemma_find_entry_none(t: Seq<(Seq<char>, int)>, w: Seq<char>, from: int)
    requires
        0 <= from <= t.len(),
        forall|j: int| from <= j < t.len() ==> !entry_for(#[trigger] t[j], w),
    ensures
        find_entry(t, w, from) == -1,
    decreases t.len() - from,
{
    if from < t.len() {
        lemma_find_entry_none(t, w, from + 1);
    }
}

pub proof fn lemma_find_entry_found(t: Seq<(Seq<char>, int)>, w: Seq<char>, from: int)
    requires
        0 <= from,
    ensures
        find_entry(t, w, from) == -1 || (from <= find_entry(t, w, from) < t.len() && entry_for(
            t[find_entry(t, w, from)],
            w,
        )),
        find_entry(t, w, from) == -1 ==> forall|j: int|
            from <= j < t.len() ==> !entry_for(#[trigger] t[j], w),
    decreases t.len() - from,
{
    if from < t.len() {
        lemma_find_entry_found(t, w, from + 1);
    }
}

/// Counts one more guess of `word`.
pub fn record_guess(table: &mut Vec<Tcmdstate>, word: &Vec<char>)
    requires
        counts_below_max(old(table)@),
    ensures
        table_view(final(table)@) == record_spec(table_view(old(table)@), word@),
{
    let ghost t0 = table_view(table@);
    let mut i: usize = 0;
    while i < table.len()
        invariant
            i <= table@.len(),
            table@ == old(table)@,
            t0 == table_view(table@),
            counts_below_max(table@),
            forall|j: int| 0 <= j < i ==> !entry_for(#[trigger] t0[j], word@),
        decreases table@.len() - i,
    {
        if same_word(&table[i].str, word) {
            proof {
                assert(entry_for(t0[i as int], word@));
                lemma_find_entry_is(t0, word@, 0, i as int);
                assert(table@[i as int].num < i32::MAX);
            }
            let n = table[i].num + 1;
            let s = copy_word(&table[i].str);
            table.set(i, Tcmdstate { num: n, str: s });
            assert(table_view(table@) =~= record_spec(t0, word@));
            return;
        }
        i = i + 1;
    }
    proof {
        lemma_find_entry_none(t0, word@, 0);
    }
    table.push(Tcmdstate { num: 1, str: copy_word(word) });
    assert(table_view(table@) =~= record_spec(t0, word@));
}

/// Law: recording a guess keeps one entry per word, counts that word once
/// more and leaves every other count as it was.
pub proof fn lemma_record_counts(t: Seq<(Seq<char>, int)>, w: Seq<char>)
    requires
        keys_unique(t),
    ensures
        keys_unique(record_spec(t, w)),
        forall|x: Seq<char>|
            #[trigger] count_in_table(record_spec(t, w), x) == count_in_table(t, x) + (if x == w {
                1int
            } else {
                0int
            }),
{
    lemma_find_entry_found(t, w, 0);
    let i = find_entry(t, w, 0);
    let r = record_spec(t, w);
    assert forall|a: int, b: int| 0 <= a < b < r.len() implies !entry_for(#[trigger] r[a], (#[trigger] r[b]).0) by {
        if i < 0 && b == t.len() {
            assert(!entry_for(t[a], w));
        } else {
            assert(!entry_for(t[a], t[b].0));
        }
    }
    assert forall|x: Seq<char>| #[trigger] count_in_table(r, x) == count_in_table(t, x) + (if x == w {
        1int
    } else {
        0int
    }) by {
        lemma_find_entry_found(t, x, 0);
        lemma_find_entry_found(r, x, 0);
        let k = find_entry(t, x, 0);
        let kr = find_entry(r, x, 0);
        if x == w {
            if i >= 0 {
                lemma_find_entry_is(r, x, 0, i);
            } else {
                assert forall|j: int| 0 <= j < t.len() implies !entry_for(#[trigger] r[j], x) by {
                    assert(!entry_for(t[j], x));
                }
                lemma_find_entry_is(r, x, 0, t.len() as int);
            }
        } else {
            if k >= 0 {
                assert forall|j: int| 0 <= j < k implies !entry_for(#[trigger] r[j], x) by {
                    assert(!entry_for(t[j], x));
                }
                lemma_find_entry_is(r, x, 0, k);
            } else {
                assert forall|j: int| 0 <= j < r.len() implies !entry_for(#[trigger] r[j], x) by {
                    if j < t.len() {
                        assert(!entry_for(t[j], x));
                    }
                }
                lemma_find_entry_none(r, x, 0);
            }
        }
    }
}

// ---------------------------------------------------------------------
// Ordering the table
// ---------------------------------------------------------------------

/// Entry `a` is listed before entry `b`: a higher count first, then the
/// word that comes first.
pub open spec fn ranks_before(a: (Seq<char>, int), b: (Seq<char>, int)) -> bool {
    a.1 > b.1 || (a.1 == b.1 && word_lt(a.0, b.0))
}

/// No entry ranks before an entry listed ahead of it.
pub open spec fn stats_sorted(t: Seq<(Seq<char>, int)>) -> bool {
    forall|i: int, j: int| 0 <= i < j < t.len() ==> !ranks_before(#[trigger] t[j], #[trigger] t[i])
}

proof fn lemma_ranks_before_transitive(a: (Seq<char>, int), b: (Seq<char>, int), c: (Seq<char>, int))
    requires
        ranks_before(a, b),
        ranks_before(b, c),
    ensures
        ranks_before(a, c),
{
    if a.1 == b.1 && b.1 == c.1 {
        lemma_word_lt_transitive(a.0, b.0, c.0);
    }
}

proof fn lemma_ranks_before_asymmetric(a: (Seq<char>, int), b: (Seq<char>, int))
    requires
        ranks_before(a, b),
    ensures
        !ranks_before(b, a),
{
    if a.1 == b.1 {
        lemma_word_lt_asymmetric(a.0, b.0);
    }
}

fn ranks_before_exec(a: &Tcmdstate, b: &Tcmdstate) -> (r: bool)
    ensures
        r == ranks_before(entry_view(*a), entry_view(*b)),
{
    a.num > b.num || (a.num == b.num && word_less(&a.str, &b.str))
}

fn copy_entry(e: &Tcmdstate) -> (r: Tcmdstate)
    ensures
        entry_view(r) == entry_view(*e),
{
    Tcmdstate { num: e.num, str: copy_word(&e.str) }
}

/// Orders the table most guessed first, words with the same count in
/// alphabetical order.
pub fn sort_stats(table: &mut Vec<Tcmdstate>)
    ensures
        stats_sorted(table_view(final(table)@)),
        table_view(final(table)@).to_multiset() == table_view(old(table)@).to_multiset(),
        keys_unique(table_view(old(table)@)) ==> keys_unique(table_view(final(table)@)),
        // with one entry per word, equal counts are in strictly increasing word order
        keys_unique(table_view(old(table)@)) ==> forall|i: int, j: int|
            0 <= i < j < final(table)@.len() && (#[trigger] final(table)@[i]).num == (
            #[trigger] final(table)@[j]).num ==> word_lt(final(table)@[i].str@, final(table)@[j].str@),
        // most guessed first; equal counts in alphabetical order
        forall|i: int, j: int|
            0 <= i < j < final(table)@.len() ==> (#[trigger] final(table)@[i]).num >= (
            #[trigger] final(table)@[j]).num && (final(table)@[i].num == final(table)@[j].num
                ==> !word_lt(final(table)@[j].str@, final(table)@[i].str@)),
{
    let ghost t0 = table_view(table@);
    let mut out: Vec<Tcmdstate> = Vec::new();
    assert(table_view(out@) =~= t0.take(0));
    for k in 0..table.len()
        invariant
            t0 == table_view(table@),
            stats_sorted(table_view(out@)),
            table_view(out@).to_multiset() == t0.take(k as int).to_multiset(),
    {
        let x = copy_entry(&table[k]);
        let ghost o = table_view(out@);
        let ghost xv = entry_view(x);
        assert(xv == t0[k as int]);
        let mut p: usize = 0;
        while p < out.len() && !ranks_before_exec(&x, &out[p])
            invariant
                p <= out@.len(),
                o == table_view(out@),
                xv == entry_view(x),
                forall|i: int| 0 <= i < p ==> !ranks_before(xv, #[trigger] o[i]),
            decreases out@.len() - p,
        {
            p = p + 1;
        }
        out.insert(p, x);
        proof {
            let n = table_view(out@);
            assert(n =~= o.insert(p as int, xv));
            assert forall|i: int, j: int| 0 <= i < j < n.len() implies !ranks_before(
                #[trigger] n[j],
                #[trigger] n[i],
            ) by {
                if i < p && j > p {
                    assert(!ranks_before(o[j - 1], o[i]));
                } else if i == p {
                    if ranks_before(o[j - 1], xv) {
                        if j - 1 == p {
                            lemma_ranks_before_asymmetric(xv, o[p as int]);
                        } else {
                            lemma_ranks_before_transitive(o[j - 1], xv, o[p as int]);
                        }
                    }
                }
            }
            broadcast use vstd::seq_lib::group_to_multiset_ensures;
            assert(t0.take(k + 1) =~= t0.take(k as int).push(xv));
        }
    }
    proof {
        assert(t0.take(table@.len() as int) =~= t0);
        lemma_sorted_means_order(table_view(out@));
        if keys_unique(t0) {
            lemma_permutation_keeps_keys_unique(t0, table_view(out@));
            let tv = table_view(out@);
            assert forall|i: int, j: int|
                0 <= i < j < out@.len() && (#[trigger] out@[i]).num == (#[trigger] out@[j]).num implies word_lt(
                out@[i].str@,
                out@[j].str@,
            ) by {
                assert(tv[i] == entry_view(out@[i]));
                assert(tv[j] == entry_view(out@[j]));
                assert(!entry_for(tv[i], tv[j].0));
                assert(!ranks_before(tv[j], tv[i]));
                lemma_word_lt_total(tv[i].0, tv[j].0);
            }
        }
        assert forall|i: int, j: int| 0 <= i < j < out@.len() implies (#[trigger] out@[i]).num >= (
        #[trigger] out@[j]).num && (out@[i].num == out@[j].num ==> !word_lt(out@[j].str@, out@[i].str@)) by {
            assert(table_view(out@)[i] == entry_view(out@[i]));
            assert(table_view(out@)[j] == entry_view(out@[j]));
        }
    }
    *table = out;
}

/// Law: reordering a table keeps one entry per word.
pub proof fn lemma_permutation_keeps_keys_unique(t: Seq<(Seq<char>, int)>, u: Seq<(Seq<char>, int)>)
    requires
        keys_unique(t),
        u.to_multiset() == t.to_multiset(),
    ensures
        keys_unique(u),
{
    broadcast use vstd::seq_lib::group_to_multiset_ensures;
    assert(t.no_duplicates()) by {
        assert forall|i: int, j: int| 0 <= i < t.len() && 0 <= j < t.len() && i != j implies t[i] != t[j] by {
            if i < j {
                assert(!entry_for(t[i], t[j].0));
            } else {
                assert(!entry_for(t[j], t[i].0));
            }
        }
    }
    t.lemma_multiset_has_no_duplicates();
    u.lemma_multiset_has_no_duplicates_conv();
    assert forall|i: int, j: int| 0 <= i < j < u.len() implies !entry_for(#[trigger] u[i], (#[trigger] u[j]).0) by {
        if entry_for(u[i], u[j].0) {
            assert(u.contains(u[i]));
            assert(u.contains(u[j]));
            assert(u.to_multiset().count(u[i]) > 0);
            assert(u.to_multiset().count(u[j]) > 0);
            assert(t.to_multiset().count(u[i]) > 0);
            assert(t.to_multiset().count(u[j]) > 0);
            assert(t.contains(u[i]));
            assert(t.contains(u[j]));
            let p = choose|p: int| 0 <= p < t.len() && t[p] == u[i];
            let q = choose|q: int| 0 <= q < t.len() && t[q] == u[j];
            assert(u[i] != u[j]);
            if p < q {
                assert(!entry_for(t[p], t[q].0));
            } else if q < p {
                assert(!entry_for(t[q], t[p].0));
            }
        }
    }
}

/// Law: a sorted table lists counts from the highest down, and entries of
/// equal count in alphabetical order.
pub proof fn lemma_sorted_means_order(t: Seq<(Seq<char>, int)>)
    requires
        stats_sorted(t),
    ensures
        forall|i: int, j: int|
            0 <= i < j < t.len() ==> (#[trigger] t[i]).1 >= (#[trigger] t[j]).1 && (t[i].1 == t[j].1
                ==> !word_lt(t[j].0, t[i].0)),
{
    assert forall|i: int, j: int| 0 <= i < j < t.len() implies (#[trigger] t[i]).1 >= (#[trigger] t[j]).1
        && (t[i].1 == t[j].1 ==> !word_lt(t[j].0, t[i].0)) by {
        assert(!ranks_before(t[j], t[i]));
    }
}

/// The entries shown in the statistics: the first five, or all when there
/// are fewer.
pub fn top_guesses(table: &Vec<Tcmdstate>) -> (top: Vec<Tcmdstate>)
    ensures
        table_view(top@) == table_view(table@).take(if table@.len() < 5 {
            table@.len() as int
        } else {
            5
        }),
{
    let n: usize = if table.len() < 5 {
        table.len()
    } else {
        5
    };
    let mut top: Vec<Tcmdstate> = Vec::new();
    for i in 0..n
        invariant
            n <= table@.len(),
            top@.len() == i,
            table_view(top@) == table_view(table@).take(i as int),
    {
        let ghost before = top@;
        let e = copy_entry(&table[i]);
        top.push(e);
        proof {
            assert forall|j: int| 0 <= j < i + 1 implies #[trigger] table_view(top@)[j] == table_view(
                table@,
            ).take(i + 1)[j] by {
                if j < i {
                    assert(top@[j] == before[j]);
                    assert(table_view(before)[j] == table_view(table@).take(i as int)[j]);
                }
            }
            assert(table_view(top@) =~= table_view(table@).take(i + 1));
        }
    }
    top
}

} // verus!
