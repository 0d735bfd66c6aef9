//! Word counting. Text is first cleaned — ASCII punctuation and quotes
//! become spaces, upper-case ASCII letters become lower case — and the
//! words of each chunk are then tallied into a table of distinct words with
//! their occurrence counts; tables from different chunks merge by adding
//! counts. Splitting the text and fanning the chunks out to a thread pool
//! happens in the binary; the cleaning, the tally and the merge are here.

use vstd::prelude::*;
use vstd::string::StrSliceExecFns;

verus! {

/// ASCII punctuation, the characters the cleaning turns into spaces.
pub open spec fn is_word_punct(c: char) -> bool {
    let u = c as u32;
    (0x21 <= u && u <= 0x2f) || (0x3a <= u && u <= 0x40) || (0x5b <= u && u <= 0x60) || (0x7b <= u
        && u <= 0x7e)
}

/// Upper-case ASCII folded to lower case; everything else unchanged.
pub open spec fn lowered(c: char) -> char {
    match c {
        'A' => 'a',
        'B' => 'b',
        'C' => 'c',
        'D' => 'd',
        'E' => 'e',
        'F' => 'f',
        'G' => 'g',
        'H' => 'h',
        'I' => 'i',
        'J' => 'j',
        'K' => 'k',
        'L' => 'l',
        'M' => 'm',
        'N' => 'n',
        'O' => 'o',
        'P' => 'p',
        'Q' => 'q',
        'R' => 'r',
        'S' => 's',
        'T' => 't',
        'U' => 'u',
        'V' => 'v',
        'W' => 'w',
        'X' => 'x',
        'Y' => 'y',
        'Z' => 'z',
        _ => c,
    }
}

/// What the cleaning does to one character.
pub open spec fn cleaned(c: char) -> char {
    if is_word_punct(c) {
        ' '
    } else {
        lowered(c)
    }
}

/// Clean one character: punctuation and quotes become a space, letters fold
/// to lower case.
pub fn clean_char(c: char) -> (r: char)
    ensures
        r == cleaned(c),
{
    let u = c as u32;
    if (0x21 <= u && u <= 0x2f) || (0x3a <= u && u <= 0x40) || (0x5b <= u && u <= 0x60) || (0x7b
        <= u && u <= 0x7e) {
        ' '
    } else {
        match c {
            'A' => 'a',
            'B' => 'b',
            'C' => 'c',
            'D' => 'd',
            'E' => 'e',
            'F' => 'f',
            'G' => 'g',
            'H' => 'h',
            'I' => 'i',
            'J' => 'j',
            'K' => 'k',
            'L' => 'l',
            'M' => 'm',
            'N' => 'n',
            'O' => 'o',
            'P' => 'p',
            'Q' => 'q',
            'R' => 'r',
            'S' => 's',
            'T' => 't',
            'U' => 'u',
            'V' => 'v',
            'W' => 'w',
            'X' => 'x',
            'Y' => 'y',
            'Z' => 'z',
            _ => c,
        }
    }
}

/// Relies on String::push: it appends exactly the one character.
#[verifier::external_body]
fn push_char(s: &mut String, c: char)
    ensures
        final(s)@ == old(s)@.push(c),
{
    s.push(c)
}

/// Clean a whole text, character by character, keeping its length.
pub fn limpar_pontuacao(texto: &str) -> (r: String)
    ensures
        r@ == texto@.map_values(|c: char| cleaned(c)),
        r@.len() == texto@.len(),
{
    let n = texto.unicode_len();
    let mut out = String::new();
    let mut i: usize = 0;
    proof {
        assert(out@ =~= texto@.take(0).map_values(|c: char| cleaned(c)));
    }
    while i < n
        invariant
            i <= n,
            n == texto@.len(),
            out@ == texto@.take(i as int).map_values(|c: char| cleaned(c)),
        decreases n - i,
    {
        let c = texto.get_char(i);
        let d = clean_char(c);
        push_char(&mut out, d);
        proof {
            assert(texto@.take(i + 1).map_values(|c: char| cleaned(c)) =~= texto@.take(
                i as int,
            ).map_values(|c: char| cleaned(c)).push(cleaned(texto@[i as int])));
        }
        i = i + 1;
    }
    proof {
        assert(texto@.take(n as int) =~= texto@);
    }
    out
}

/// How often the word `w` occurs in `words`.
pub open spec fn count_occ(words: Seq<Seq<char>>, w: Seq<char>) -> nat
    decreases words.len(),
{
    if words.len() == 0 {
        0
    } else {
        (if words.last() == w {
            1nat
        } else {
            0nat
        }) + count_occ(words.drop_last(), w)
    }
}

/// A word occurs at most once per slot.
pub proof fn lemma_count_occ_le(words: Seq<Seq<char>>, w: Seq<char>)
    ensures
        count_occ(words, w) <= words.len(),
    decreases words.len(),
{
    if words.len() > 0 {
        lemma_count_occ_le(words.drop_last(), w);
    }
}

/// The count a table gives to the word `w`: the sum of the counts of its
/// entries with that key.
pub open spec fn table_count(t: Seq<(String, usize)>, w: Seq<char>) -> nat
    decreases t.len(),
{
    if t.len() == 0 {
        0
    } else {
        (if t.last().0@ == w {
            t.last().1 as nat
        } else {
            0nat
        }) + table_count(t.drop_last(), w)
    }
}

/// Distinct keys, each with a positive count.
pub open spec fn table_wf(t: Seq<(String, usize)>) -> bool {
    &&& forall|i: int, j: int| 0 <= i < j < t.len() ==> (#[trigger] t[i]).0@ != (#[trigger] t[j]).0@
    &&& forall|i: int| 0 <= i < t.len() ==> (#[trigger] t[i]).1 > 0
}

/// The views of a sequence of owned words.
pub open spec fn word_views(ws: Seq<String>) -> Seq<Seq<char>> {
    ws.map_values(|s: String| s@)
}

/// A table maps a key it holds to its entry's count and anything else to
/// zero; used to step the tally and the merge.
proof fn lemma_table_push(t: Seq<(String, usize)>, e: (String, usize), w: Seq<char>)
    ensures
        table_count(t.push(e), w) == table_count(t, w) + (if e.0@ == w {
            e.1 as nat
        } else {
            0nat
        }),
{
    assert(t.push(e).drop_last() =~= t);
    assert(t.push(e).last() == e);
}

/// Updating one entry's count adds the difference to that key alone.
proof fn lemma_table_update(t: Seq<(String, usize)>, j: int, e: (String, usize), w: Seq<char>)
    requires
        0 <= j < t.len(),
        e.0@ == t[j].0@,
    ensures
        table_count(t.update(j, e), w) == table_count(t, w) + (if t[j].0@ == w {
            (e.1 - t[j].1) as int
        } else {
            0
        }),
    decreases t.len(),
{
    let t2 = t.update(j, e);
    if j == t.len() - 1 {
        assert(t2.drop_last() =~= t.drop_last());
        assert(t2.last() == e);
    } else {
        assert(t2.drop_last() =~= t.drop_last().update(j, e));
        assert(t2.last() == t.last());
        lemma_table_update(t.drop_last(), j, e, w);
    }
}

/// Tally the words of one chunk: the table gives every word of the chunk
/// its number of occurrences, and any other word zero.
pub fn contar_palavras(parte: &Vec<String>) -> (r: Vec<(String, usize)>)
    ensures
        table_wf(r@),
        forall|w: Seq<char>| #[trigger] table_count(r@, w) == count_occ(word_views(parte@), w),
{
    let mut counts: Vec<(String, usize)> = Vec::new();
    let mut i: usize = 0;
    while i < parte.len()
        invariant
            i <= parte@.len(),
            table_wf(counts@),
            forall|w: Seq<char>| #[trigger] table_count(counts@, w) == count_occ(
                word_views(parte@.take(i as int)),
                w,
            ),
        decreases parte@.len() - i,
    {
        let ghost prev = counts@;
        let word = &parte[i];
        let mut j: usize = 0;
        let mut found = false;
        while j < counts.len()
            invariant_except_break
                counts@ == prev,
                j <= counts@.len(),
                !found,
                forall|k: int| 0 <= k < j ==> (#[trigger] counts@[k]).0@ != word@,
            ensures
                counts@ == prev,
                found ==> j < counts@.len() && counts@[j as int].0@ == word@,
                !found ==> forall|k: int|
                    0 <= k < counts@.len() ==> (#[trigger] counts@[k]).0@ != word@,
            decreases counts@.len() - j,
        {
            if counts[j].0.eq(word) {
                found = true;
                break;
            }
            j = j + 1;
        }
        proof {
            lemma_count_occ_le(word_views(parte@.take(i as int)), word@);
            assert(table_count(counts@, word@) == count_occ(
                word_views(parte@.take(i as int)),
                word@,
            ));
        }
        if found {
            proof {
                lemma_table_entry_le(counts@, j as int);
            }
            let c = counts[j].1;
            let key = counts[j].0.clone();
            counts[j] = (key, c + 1);
        } else {
            counts.push((word.clone(), 1));
        }
        proof {
            let views = word_views(parte@.take(i + 1));
            assert(views.drop_last() =~= word_views(parte@.take(i as int)));
            assert(views.last() == word@);
            if found {
                assert forall|w: Seq<char>| #[trigger] table_count(counts@, w) == count_occ(
                    views,
                    w,
                ) by {
                    lemma_table_update(prev, j as int, counts@[j as int], w);
                }
            } else {
                assert forall|w: Seq<char>| #[trigger] table_count(counts@, w) == count_occ(
                    views,
                    w,
                ) by {
                    lemma_table_push(prev, counts@[counts@.len() - 1], w);
                }
            }
        }
        i = i + 1;
    }
    proof {
        assert(parte@.take(parte@.len() as int) =~= parte@);
    }
    counts
}

/// No single entry counts more than the whole table.
proof fn lemma_table_entry_le(t: Seq<(String, usize)>, j: int)
    requires
        0 <= j < t.len(),
    ensures
        t[j].1 as nat <= table_count(t, t[j].0@),
    decreases t.len(),
{
    if j == t.len() - 1 {
    } else {
        lemma_table_entry_le(t.drop_last(), j);
    }
}

/// Merge two tallies: every word's count is the sum of its counts in the
/// two, as when chunk tables are reduced into one.
pub fn merge_counts(mut acc: Vec<(String, usize)>, other: &Vec<(String, usize)>) -> (r: Vec<
    (String, usize),
>)
    requires
        table_wf(acc@),
        forall|w: Seq<char>| #[trigger] table_count(acc@, w) + table_count(other@, w)
            <= usize::MAX,
    ensures
        table_wf(r@),
        forall|w: Seq<char>| #[trigger] table_count(r@, w) == table_count(acc@, w) + table_count(
            other@,
            w,
        ),
{
    let ghost acc0 = acc@;
    let mut i: usize = 0;
    proof {
        assert(other@.take(0) =~= Seq::<(String, usize)>::empty());
    }
    while i < other.len()
        invariant
            i <= other@.len(),
            table_wf(acc@),
            forall|w: Seq<char>| #[trigger] table_count(acc@, w) == table_count(acc0, w)
                + table_count(other@.take(i as int), w),
            forall|w: Seq<char>| #[trigger] table_count(acc0, w) + table_count(other@, w)
                <= usize::MAX,
        decreases other@.len() - i,
    {
        let ghost prev = acc@;
        let entry_count = other[i].1;
        let word = &other[i].0;
        let mut j: usize = 0;
        let mut found = false;
        while j < acc.len()
            invariant_except_break
                acc@ == prev,
                j <= acc@.len(),
                !found,
                forall|k: int| 0 <= k < j ==> (#[trigger] acc@[k]).0@ != word@,
            ensures
                acc@ == prev,
                found ==> j < acc@.len() && acc@[j as int].0@ == word@,
                !found ==> forall|k: int|
                    0 <= k < acc@.len() ==> (#[trigger] acc@[k]).0@ != word@,
            decreases acc@.len() - j,
        {
            if acc[j].0.eq(word) {
                found = true;
                break;
            }
            j = j + 1;
        }
        proof {
            lemma_table_suffix_le(other@, i as int);
            assert(table_count(acc@, word@) == table_count(acc0, word@) + table_count(
                other@.take(i as int),
                word@,
            ));
        }
        if found {
            proof {
                lemma_table_entry_le(acc@, j as int);
            }
            let c = acc[j].1;
            let key = acc[j].0.clone();
            if entry_count > 0 {
                acc[j] = (key, c + entry_count);
            }
        } else {
            if entry_count > 0 {
                acc.push((word.clone(), entry_count));
            }
        }
        proof {
            let taken = other@.take(i + 1);
            assert(taken.drop_last() =~= other@.take(i as int));
            assert(taken.last() == other@[i as int]);
            if entry_count > 0 {
                if found {
                    assert forall|w: Seq<char>| #[trigger] table_count(acc@, w) == table_count(
                        acc0,
                        w,
                    ) + table_count(taken, w) by {
                        lemma_table_update(prev, j as int, acc@[j as int], w);
                    }
                } else {
                    assert forall|w: Seq<char>| #[trigger] table_count(acc@, w) == table_count(
                        acc0,
                        w,
                    ) + table_count(taken, w) by {
                        lemma_table_push(prev, acc@[acc@.len() - 1], w);
                    }
                }
            }
        }
        i = i + 1;
    }
    proof {
        assert(other@.take(other@.len() as int) =~= other@);
    }
    acc
}

/// What one entry counts is at most what the whole table counts for its key
/// over any prefix extended by it.
proof fn lemma_table_suffix_le(t: Seq<(String, usize)>, i: int)
    requires
        0 <= i < t.len(),
    ensures
        table_count(t.take(i), t[i].0@) + t[i].1 <= table_count(t, t[i].0@),
    decreases t.len(),
{
    if i == t.len() - 1 {
        assert(t.take(i) =~= t.drop_last());
    } else {
        assert(t.drop_last().take(i) =~= t.take(i));
        assert(t.drop_last()[i] == t[i]);
        lemma_table_suffix_le(t.drop_last(), i);
    }
}

} // verus!
