//! Questions about a whole word list in smooshed Morse code: which words share
//! a code, which codes are shared by the most words, which code has the longest
//! run of dashes, and which codes of a given length no word has.

use vstd::prelude::*;
use vstd::hash_map::StringHashMap;
use crate::necklace::{lemma_power_monotone, power};
use crate::morse::{
    all_coded, bits_code, dash_run, dot_dash_sequence, dots_and_dashes, longest_dash_run, smooshed,
    smorse, strings_view, CodeSet, MorseTable,
};

verus! {

broadcast use vstd::std_specs::hash::group_hash_axioms;

/// The words of `words`, in order, whose code is `code`.
pub open spec fn words_with_code(
    morse: Map<char, Seq<char>>,
    words: Seq<Seq<char>>,
    code: Seq<char>,
) -> Seq<Seq<char>>
    decreases words.len(),
{
    if words.len() == 0 {
        Seq::empty()
    } else {
        let prev = words_with_code(morse, words.drop_last(), code);
        if smooshed(morse, words.last()) == code {
            prev.push(words.last())
        } else {
            prev
        }
    }
}

/// Groups the words by their code: one group per code that some word has, the
/// codes all different, each group holding, in order, exactly the words with
/// that code.
pub fn group_by_code(words: &Vec<String>, morse: &MorseTable) -> (groups: Vec<(String, Vec<String>)>)
    requires
        forall|w: int| 0 <= w < words.len() ==> all_coded(morse@, #[trigger] words@[w]@),
    ensures
        forall|g: int, h: int| 0 <= g < h < groups.len() ==> #[trigger] groups@[g].0@ != #[trigger] groups@[h].0@,
        forall|g: int|
            0 <= g < groups.len() ==> #[trigger] strings_view(groups@[g].1@) == words_with_code(
                morse@,
                strings_view(words@),
                groups@[g].0@,
            ) && groups@[g].1.len() > 0,
        forall|w: int|
            0 <= w < words.len() ==> exists|g: int|
                0 <= g < groups.len() && #[trigger] groups@[g].0@ == smooshed(morse@, #[trigger] words@[w]@),
{
    let mut groups: Vec<(String, Vec<String>)> = Vec::new();
    let mut index: StringHashMap<usize> = StringHashMap::new();
    let ghost wv = strings_view(words@);
    let mut i: usize = 0;
    while i < words.len()
        invariant
            i <= words.len(),
            wv == strings_view(words@),
            forall|w: int| 0 <= w < words.len() ==> all_coded(morse@, #[trigger] words@[w]@),
            forall|g: int, h: int| 0 <= g < h < groups.len() ==> #[trigger] groups@[g].0@ != #[trigger] groups@[h].0@,
            forall|g: int|
                0 <= g < groups.len() ==> #[trigger] strings_view(groups@[g].1@) == words_with_code(
                    morse@,
                    wv.take(i as int),
                    groups@[g].0@,
                ) && groups@[g].1.len() > 0,
            forall|w: int|
                0 <= w < i ==> exists|g: int|
                    0 <= g < groups.len() && #[trigger] groups@[g].0@ == smooshed(morse@, #[trigger] words@[w]@),
            forall|c: Seq<char>|
                #[trigger] index@.contains_key(c) ==> index@[c] < groups.len() && groups@[index@[c] as int].0@
                    == c,
            forall|g: int| 0 <= g < groups.len() ==> #[trigger] index@.contains_key(groups@[g].0@),
        decreases words.len() - i,
    {
        let word = &words[i];
        let code = smorse(morse, word.as_str());
        let ghost before = groups@;
        proof {
            assert(wv.take(i + 1).drop_last() =~= wv.take(i as int));
            assert(wv.take(i + 1).last() == word@);
            assert forall|c: Seq<char>|
                #[trigger] words_with_code(morse@, wv.take(i + 1), c) == if c == code@ {
                    words_with_code(morse@, wv.take(i as int), c).push(word@)
                } else {
                    words_with_code(morse@, wv.take(i as int), c)
                } by {}
        }
        match index.get(code.as_str()) {
            Some(gi) => {
                let g = *gi;
                let mut entry: (String, Vec<String>) = (String::new(), Vec::new());
                std::mem::swap(&mut entry, &mut groups[g]);
                entry.1.push(word.clone());
                groups.set(g, entry);
                proof {
                    assert(strings_view(groups@[g as int].1@) =~= strings_view(before[g as int].1@).push(word@));
                    assert forall|h: int| 0 <= h < groups.len() && h != g implies #[trigger] groups@[h] == before[h] by {}
                    assert forall|h: int| 0 <= h < groups.len() implies #[trigger] strings_view(groups@[h].1@)
                        == words_with_code(morse@, wv.take(i + 1), groups@[h].0@) && groups@[h].1.len() > 0 by {
                        assert(words_with_code(morse@, wv.take(i + 1), groups@[h].0@) == if groups@[h].0@ == code@ {
                            words_with_code(morse@, wv.take(i as int), groups@[h].0@).push(word@)
                        } else {
                            words_with_code(morse@, wv.take(i as int), groups@[h].0@)
                        });
                        if h != g {
                            assert(groups@[h] == before[h]);
                            assert(before[h].0@ != before[g as int].0@);
                        }
                    }
                    assert forall|w: int| 0 <= w < i + 1 implies exists|h: int|
                        0 <= h < groups.len() && #[trigger] groups@[h].0@ == smooshed(morse@, #[trigger] words@[w]@) by {
                        if w < i {
                            let h = choose|h: int|
                                0 <= h < before.len() && #[trigger] before[h].0@ == smooshed(morse@, words@[w]@);
                            assert(groups@[h].0@ == before[h].0@);
                        } else {
                            assert(groups@[g as int].0@ == smooshed(morse@, words@[w]@));
                        }
                    }
                }
            },
            None => {
                let mut list: Vec<String> = Vec::new();
                list.push(word.clone());
                let k = groups.len();
                groups.push((code.clone(), list));
                index.insert(code, k);
                proof {
                    assert(strings_view(groups@[k as int].1@) =~= seq![word@]);
                    assert(words_with_code(morse@, wv.take(i as int), code@) =~= Seq::<Seq<char>>::empty()) by {
                        lemma_no_words_with_code(morse@, wv.take(i as int), code@);
                        assert forall|w: int| 0 <= w < i implies smooshed(morse@, #[trigger] wv.take(i as int)[w]) != code@ by {
                            assert(wv.take(i as int)[w] == words@[w]@);
                            let h = choose|h: int|
                                0 <= h < before.len() && #[trigger] before[h].0@ == smooshed(morse@, words@[w]@);
                            assert(index@.contains_key(before[h].0@));
                        }
                    }
                    assert forall|h: int| 0 <= h < k implies #[trigger] groups@[h] == before[h] by {}
                    assert forall|h: int| 0 <= h < groups.len() implies #[trigger] strings_view(groups@[h].1@)
                        == words_with_code(morse@, wv.take(i + 1), groups@[h].0@) && groups@[h].1.len() > 0 by {
                        assert(words_with_code(morse@, wv.take(i + 1), groups@[h].0@) == if groups@[h].0@ == code@ {
                            words_with_code(morse@, wv.take(i as int), groups@[h].0@).push(word@)
                        } else {
                            words_with_code(morse@, wv.take(i as int), groups@[h].0@)
                        });
                        if h < k {
                            assert(groups@[h] == before[h]);
                            assert(index@.contains_key(before[h].0@));
                            assert(before[h].0@ != code@);
                        }
                    }
                    assert forall|w: int| 0 <= w < i + 1 implies exists|h: int|
                        0 <= h < groups.len() && #[trigger] groups@[h].0@ == smooshed(morse@, #[trigger] words@[w]@) by {
                        if w < i {
                            let h = choose|h: int|
                                0 <= h < before.len() && #[trigger] before[h].0@ == smooshed(morse@, words@[w]@);
                            assert(groups@[h].0@ == before[h].0@);
                        } else {
                            assert(groups@[k as int].0@ == smooshed(morse@, words@[w]@));
                        }
                    }
                    assert forall|g: int, h: int| 0 <= g < h < groups.len() implies #[trigger] groups@[g].0@
                        != #[trigger] groups@[h].0@ by {
                        if h == k {
                            assert(index@.contains_key(before[g].0@));
                        }
                    }
                }
            },
        }
        i = i + 1;
    }
    assert(wv.take(words.len() as int) =~= wv);
    groups
}

/// The codes, in group order, of the groups that hold exactly `n` words.
pub open spec fn codes_with_count(groups: Seq<(String, Vec<String>)>, n: int) -> Seq<Seq<char>>
    decreases groups.len(),
{
    if groups.len() == 0 {
        Seq::empty()
    } else {
        let prev = codes_with_count(groups.drop_last(), n);
        if groups.last().1.len() == n {
            prev.push(groups.last().0@)
        } else {
            prev
        }
    }
}

/// `x` lies below `bound`, where no bound lets everything through.
pub open spec fn below(x: int, bound: Option<usize>) -> bool {
    match bound {
        Some(b) => x < b,
        None => true,
    }
}

/// Some entry of `r` is for the size `n`.
pub open spec fn size_listed(r: Seq<(usize, Vec<String>)>, n: int) -> bool {
    exists|i: int| 0 <= i < r.len() && r[i].0 == n
}

/// The codes of the groups that hold exactly `n` words, in group order.
fn codes_of_count(groups: &Vec<(String, Vec<String>)>, n: usize) -> (codes: Vec<String>)
    ensures
        strings_view(codes@) == codes_with_count(groups@, n as int),
{
    let mut codes: Vec<String> = Vec::new();
    let mut i: usize = 0;
    while i < groups.len()
        invariant
            i <= groups.len(),
            strings_view(codes@) == codes_with_count(groups@.take(i as int), n as int),
        decreases groups.len() - i,
    {
        assert(groups@.take(i + 1).drop_last() =~= groups@.take(i as int));
        assert(groups@.take(i + 1).last() == groups@[i as int]);
        if groups[i].1.len() == n {
            codes.push(groups[i].0.clone());
            assert(strings_view(codes@) =~= codes_with_count(groups@.take(i + 1), n as int));
        }
        i = i + 1;
    }
    assert(groups@.take(groups.len() as int) =~= groups@);
    codes
}

/// The largest group size below `bound`, if any group's size is below it.
fn next_count(groups: &Vec<(String, Vec<String>)>, bound: Option<usize>) -> (r: Option<usize>)
    ensures
        r is None ==> forall|g: int| 0 <= g < groups.len() ==> !below(#[trigger] groups@[g].1.len() as int, bound),
        r matches Some(c) ==> {
            &&& below(c as int, bound)
            &&& exists|g: int| 0 <= g < groups.len() && #[trigger] groups@[g].1.len() == c
            &&& forall|g: int|
                0 <= g < groups.len() && below(#[trigger] groups@[g].1.len() as int, bound) ==> groups@[g].1.len() <= c
        },
{
    let mut best: Option<usize> = None;
    let mut i: usize = 0;
    while i < groups.len()
        invariant
            i <= groups.len(),
            best is None ==> forall|g: int| 0 <= g < i ==> !below(#[trigger] groups@[g].1.len() as int, bound),
            best matches Some(c) ==> {
                &&& below(c as int, bound)
                &&& exists|g: int| 0 <= g < i && #[trigger] groups@[g].1.len() == c
                &&& forall|g: int|
                    0 <= g < i && below(#[trigger] groups@[g].1.len() as int, bound) ==> groups@[g].1.len() <= c
            },
        decreases groups.len() - i,
    {
        let size = groups[i].1.len();
        let fits = match bound {
            Some(b) => size < b,
            None => true,
        };
        if fits {
            match best {
                Some(c) => {
                    if size > c {
                        best = Some(size);
                    }
                },
                None => {
                    best = Some(size);
                },
            }
        }
        i = i + 1;
    }
    best
}

/// The group sizes from largest to smallest, each with the codes, in group
/// order, of the groups of that size.
pub fn codes_by_count(groups: &Vec<(String, Vec<String>)>) -> (r: Vec<(usize, Vec<String>)>)
    ensures
        forall|i: int, j: int| 0 <= i < j < r.len() ==> #[trigger] r@[i].0 > #[trigger] r@[j].0,
        forall|i: int|
            0 <= i < r.len() ==> #[trigger] strings_view(r@[i].1@) == codes_with_count(groups@, r@[i].0 as int)
                && exists|g: int| 0 <= g < groups.len() && #[trigger] groups@[g].1.len() == r@[i].0,
        forall|g: int| 0 <= g < groups.len() ==> size_listed(r@, #[trigger] groups@[g].1.len() as int),
{
    let mut r: Vec<(usize, Vec<String>)> = Vec::new();
    let mut bound: Option<usize> = None;
    let mut done = false;
    while !done
        invariant
            forall|i: int, j: int| 0 <= i < j < r.len() ==> #[trigger] r@[i].0 > #[trigger] r@[j].0,
            forall|i: int|
                0 <= i < r.len() ==> #[trigger] strings_view(r@[i].1@) == codes_with_count(groups@, r@[i].0 as int)
                    && exists|g: int| 0 <= g < groups.len() && #[trigger] groups@[g].1.len() == r@[i].0,
            (r.len() == 0) == (bound is None),
            bound matches Some(b) ==> r.len() > 0 && r@[r.len() - 1].0 == b,
            forall|g: int|
                0 <= g < groups.len() && !below(#[trigger] groups@[g].1.len() as int, bound)
                    ==> size_listed(r@, groups@[g].1.len() as int),
            done ==> forall|g: int| 0 <= g < groups.len() ==> !below(#[trigger] groups@[g].1.len() as int, bound),
        decreases (if done {
            0int
        } else {
            match bound {
                Some(b) => b + 1,
                None => usize::MAX + 2,
            }
        }),
    {
        match next_count(groups, bound) {
            None => {
                done = true;
            },
            Some(c) => {
                let codes = codes_of_count(groups, c);
                let ghost before = r@;
                r.push((c, codes));
                proof {
                    assert forall|i: int| 0 <= i < before.len() implies #[trigger] r@[i] == before[i] by {}
                    assert forall|g: int|
                        0 <= g < groups.len() && !below(#[trigger] groups@[g].1.len() as int, Some(c))
                            implies size_listed(r@, groups@[g].1.len() as int) by {
                        if below(groups@[g].1.len() as int, bound) {
                            assert(r@[before.len() as int].0 == groups@[g].1.len());
                        } else {
                            let i = choose|i: int| 0 <= i < before.len() && before[i].0 == groups@[g].1.len();
                            assert(r@[i].0 == groups@[g].1.len());
                        }
                    }
                }
                bound = Some(c);
            },
        }
    }
    assert forall|g: int| 0 <= g < groups.len() implies size_listed(r@, #[trigger] groups@[g].1.len() as int) by {
        assert(!below(groups@[g].1.len() as int, bound));
    }
    r
}

/// The length of the longest run of dashes in `code`.
pub open spec fn dash_run_of(code: Seq<char>) -> nat {
    longest_dash_run(code, code.len() as int)
}

/// Code `a` comes before code `b` when longer codes are taken first and codes
/// of one length in list order.
pub open spec fn scans_before(codes: Seq<String>, a: int, b: int) -> bool {
    codes[a]@.len() > codes[b]@.len() || (codes[a]@.len() == codes[b]@.len() && a < b)
}

/// Among the codes of at least `min_len` characters, the one with the longest
/// run of dashes, with that run: the first such code when longer codes are
/// taken first and codes of one length in list order. `None` when no such code
/// has a dash.
pub fn longest_dash_code(codes: &Vec<String>, min_len: usize) -> (r: Option<(usize, String)>)
    requires
        forall|v: int| 0 <= v < codes.len() && (#[trigger] codes@[v])@.len() >= min_len ==> dots_and_dashes(codes@[v]@),
    ensures
        r is None <==> forall|v: int|
            0 <= v < codes.len() && (#[trigger] codes@[v])@.len() >= min_len ==> dash_run_of(codes@[v]@) == 0,
        r matches Some(found) ==> exists|w: int|
            {
                &&& 0 <= w < codes.len()
                &&& (#[trigger] codes@[w])@.len() >= min_len
                &&& found.1@ == codes@[w]@
                &&& found.0 == dash_run_of(codes@[w]@)
                &&& found.0 > 0
                &&& forall|v: int|
                    0 <= v < codes.len() && (#[trigger] codes@[v])@.len() >= min_len ==> dash_run_of(codes@[v]@)
                        <= found.0 && (dash_run_of(codes@[v]@) == found.0 && v != w ==> scans_before(
                        codes@,
                        w,
                        v,
                    ))
            },
{
    let mut best: Option<(usize, usize, usize)> = None;
    let mut i: usize = 0;
    while i < codes.len()
        invariant
            i <= codes.len(),
            forall|v: int| 0 <= v < codes.len() && (#[trigger] codes@[v])@.len() >= min_len ==> dots_and_dashes(codes@[v]@),
            best is None ==> forall|v: int|
                0 <= v < i && (#[trigger] codes@[v])@.len() >= min_len ==> dash_run_of(codes@[v]@) == 0,
            best matches Some(b) ==> {
                &&& 0 <= b.1 < i
                &&& codes@[b.1 as int]@.len() >= min_len
                &&& b.0 == dash_run_of(codes@[b.1 as int]@)
                &&& b.2 == codes@[b.1 as int]@.len()
                &&& b.0 > 0
                &&& forall|v: int|
                    0 <= v < i && (#[trigger] codes@[v])@.len() >= min_len ==> dash_run_of(codes@[v]@) <= b.0 && (
                    dash_run_of(codes@[v]@) == b.0 && v != b.1 ==> scans_before(codes@, b.1 as int, v))
            },
        decreases codes.len() - i,
    {
        let len = codes[i].as_str().unicode_len();
        if len >= min_len {
            let run = dash_run(codes[i].as_str());
            let better = match best {
                None => run > 0,
                Some(b) => run > b.0 || (run == b.0 && len > b.2),
            };
            if better {
                best = Some((run, i, len));
            }
        }
        i = i + 1;
    }
    match best {
        None => None,
        Some(b) => {
            let code = codes[b.1].clone();
            Some((b.0, code))
        },
    }
}

/// The codes of `len` dots and dashes spelled by the numbers below `m`, in
/// order, that are not in `used`.
pub open spec fn unused_below(len: int, used: Set<Seq<char>>, m: nat) -> Seq<Seq<char>>
    decreases m,
{
    if m == 0 {
        Seq::empty()
    } else {
        let prev = unused_below(len, used, (m - 1) as nat);
        let code = bits_code((m - 1) as usize, len);
        if used.contains(code) {
            prev
        } else {
            prev.push(code)
        }
    }
}

/// Every code of `len` dots and dashes that is not in `used`, spelled by the
/// numbers below two to the `len`, in order.
pub fn unused_sequences(len: usize, used: &CodeSet) -> (r: Vec<String>)
    requires
        len <= 32,
        power(2, len as nat) <= usize::MAX,
    ensures
        strings_view(r@) == unused_below(len as int, used@, power(2, len as nat) as nat),
{
    let mut count: usize = 1;
    let mut j: usize = 0;
    while j < len
        invariant
            j <= len,
            power(2, len as nat) <= usize::MAX,
            count == power(2, j as nat),
        decreases len - j,
    {
        proof {
            lemma_power_monotone(2, (j + 1) as nat, len as nat);
        }
        count = count * 2;
        j = j + 1;
    }
    let mut r: Vec<String> = Vec::new();
    let mut num: usize = 0;
    while num < count
        invariant
            len <= 32,
            num <= count,
            count == power(2, len as nat),
            strings_view(r@) == unused_below(len as int, used@, num as nat),
        decreases count - num,
    {
        let code = dot_dash_sequence(num, len);
        if !used.contains(code.as_str()) {
            r.push(code);
            assert(strings_view(r@) =~= unused_below(len as int, used@, (num + 1) as nat));
        }
        num = num + 1;
    }
    r
}

/// No word has code `code` when none of the words' codes is `code`.
proof fn lemma_no_words_with_code(morse: Map<char, Seq<char>>, words: Seq<Seq<char>>, code: Seq<char>)
    requires
        forall|w: int| 0 <= w < words.len() ==> smooshed(morse, #[trigger] words[w]) != code,
    ensures
        words_with_code(morse, words, code) == Seq::<Seq<char>>::empty(),
    decreases words.len(),
{
    if words.len() > 0 {
        let prefix = words.drop_last();
        assert forall|w: int| 0 <= w < prefix.len() implies smooshed(morse, #[trigger] prefix[w]) != code by {
            assert(prefix[w] == words[w]);
        }
        lemma_no_words_with_code(morse, prefix, code);
    }
}

} // verus!
