//! Smooshed Morse code: words written as the Morse codes of their letters
//! with no separators between them.

use vstd::prelude::*;
use std::collections::HashMap;
use std::collections::VecDeque;
use vstd::hash_map::StringHashMap;
use vstd::hash_set::StringHashSet;

verus! {

broadcast use vstd::std_specs::hash::group_hash_axioms;

/// Different letters have different code points.
proof fn lemma_char_code_injective(c: char, d: char)
    ensures
        (c as u32) == (d as u32) ==> c == d,
{
    if (c as u32) == (d as u32) {
        vstd::utf8::char_u32_cast(d, c as u32);
        vstd::utf8::char_u32_cast(c, c as u32);
    }
}

/// A code for each letter.
pub struct MorseTable {
    codes: HashMap<u32, String>,
}

impl View for MorseTable {
    type V = Map<char, Seq<char>>;

    closed spec fn view(&self) -> Map<char, Seq<char>> {
        Map::new(
            |c: char| self.codes@.contains_key(c as u32),
            |c: char| self.codes@[c as u32]@,
        )
    }
}

impl MorseTable {
    /// A table without letters.
    pub fn new() -> (t: MorseTable)
        ensures
            t@ == Map::<char, Seq<char>>::empty(),
    {
        let t = MorseTable { codes: HashMap::new() };
        assert(t@ =~= Map::<char, Seq<char>>::empty());
        t
    }

    /// Gives letter `c` the code `code`, replacing any code it had.
    pub fn insert(&mut self, c: char, code: String)
        ensures
            final(self)@ == old(self)@.insert(c, code@),
    {
        self.codes.insert(c as u32, code);
        assert forall|d: char| #[trigger] self@.contains_key(d) == old(self)@.insert(c, code@).contains_key(d) by {
            lemma_char_code_injective(c, d);
        }
        assert forall|d: char| self@.contains_key(d) implies #[trigger] self@[d] == old(self)@.insert(c, code@)[d] by {
            lemma_char_code_injective(c, d);
        }
        assert(self@ =~= old(self)@.insert(c, code@));
    }

    /// The code of letter `c`, if it has one.
    pub fn get(&self, c: char) -> (r: Option<&String>)
        ensures
            match r {
                Some(code) => self@.contains_key(c) && self@[c] == code@,
                None => !self@.contains_key(c),
            },
    {
        self.codes.get(&(c as u32))
    }
}

/// The smooshed code of `text`: the codes of its letters one after another.
pub open spec fn smooshed(morse: Map<char, Seq<char>>, text: Seq<char>) -> Seq<char>
    decreases text.len(),
{
    if text.len() == 0 {
        Seq::empty()
    } else {
        smooshed(morse, text.drop_last()) + morse[text.last()]
    }
}

/// Every letter of `text` has a code.
pub open spec fn all_coded(morse: Map<char, Seq<char>>, text: Seq<char>) -> bool {
    forall|i: int| 0 <= i < text.len() ==> morse.contains_key(#[trigger] text[i])
}

/// The smooshed Morse code of `text`.
pub fn smorse(morse: &MorseTable, text: &str) -> (rv: String)
    requires
        all_coded(morse@, text@),
    ensures
        rv@ == smooshed(morse@, text@),
{
    let mut rv = String::new();
    let n = text.unicode_len();
    let mut i: usize = 0;
    while i < n
        invariant
            n == text@.len(),
            i <= n,
            all_coded(morse@, text@),
            rv@ == smooshed(morse@, text@.take(i as int)),
        decreases n - i,
    {
        let c = text.get_char(i);
        let code = morse.get(c).unwrap();
        rv.append(code.as_str());
        assert(text@.take(i + 1).drop_last() =~= text@.take(i as int));
        i = i + 1;
    }
    assert(text@.take(n as int) =~= text@);
    rv
}


/// The smooshed code of each word.
pub struct WordCodes {
    map: StringHashMap<String>,
}

impl View for WordCodes {
    type V = Map<Seq<char>, Seq<char>>;

    closed spec fn view(&self) -> Map<Seq<char>, Seq<char>> {
        Map::new(|w: Seq<char>| self.map@.contains_key(w), |w: Seq<char>| self.map@[w]@)
    }
}

impl WordCodes {
    /// No words.
    pub fn new() -> (t: WordCodes)
        ensures
            t@ == Map::<Seq<char>, Seq<char>>::empty(),
    {
        let t = WordCodes { map: StringHashMap::new() };
        assert(t@ =~= Map::<Seq<char>, Seq<char>>::empty());
        t
    }

    /// Records `code` as the code of `word`, replacing any code it had.
    pub fn insert(&mut self, word: String, code: String)
        ensures
            final(self)@ == old(self)@.insert(word@, code@),
    {
        self.map.insert(word, code);
        assert(self@ =~= old(self)@.insert(word@, code@));
    }

    /// The code of `word`, if it has one.
    pub fn get(&self, word: &str) -> (r: Option<&String>)
        ensures
            match r {
                Some(code) => self@.contains_key(word@) && self@[word@] == code@,
                None => !self@.contains_key(word@),
            },
    {
        self.map.get(word)
    }
}

/// The number of times `c` occurs in `s`.
pub open spec fn occurrences(s: Seq<char>, c: char) -> nat
    decreases s.len(),
{
    if s.len() == 0 {
        0
    } else {
        occurrences(s.drop_last(), c) + if s.last() == c {
            1nat
        } else {
            0nat
        }
    }
}

/// The code holds nothing but dots and dashes.
pub open spec fn dots_and_dashes(code: Seq<char>) -> bool {
    forall|i: int| 0 <= i < code.len() ==> #[trigger] code[i] == '.' || code[i] == '-'
}

/// The code has as many dots as dashes.
pub open spec fn balanced(code: Seq<char>) -> bool {
    occurrences(code, '-') == occurrences(code, '.')
}

/// The code reads the same backwards.
pub open spec fn palindrome(code: Seq<char>) -> bool {
    code == code.reverse()
}

/// The words of `words`, in order, whose codes satisfy `keep`.
pub open spec fn kept(
    words: Seq<Seq<char>>,
    codes: Map<Seq<char>, Seq<char>>,
    keep: spec_fn(Seq<char>) -> bool,
) -> Seq<Seq<char>>
    decreases words.len(),
{
    if words.len() == 0 {
        Seq::empty()
    } else {
        let prev = kept(words.drop_last(), codes, keep);
        if keep(codes[words.last()]) {
            prev.push(words.last())
        } else {
            prev
        }
    }
}

/// What `kept` keeps: words of `words` whose codes satisfy `keep`, and every
/// such word.
proof fn lemma_kept_members(
    words: Seq<Seq<char>>,
    codes: Map<Seq<char>, Seq<char>>,
    keep: spec_fn(Seq<char>) -> bool,
)
    ensures
        forall|j: int|
            0 <= j < kept(words, codes, keep).len() ==> keep(codes[#[trigger] kept(words, codes, keep)[j]])
                && words.contains(kept(words, codes, keep)[j]),
        forall|i: int| 0 <= i < words.len() && keep(codes[#[trigger] words[i]]) ==> kept(words, codes, keep).contains(words[i]),
    decreases words.len(),
{
    if words.len() > 0 {
        let prefix = words.drop_last();
        lemma_kept_members(prefix, codes, keep);
        let prev = kept(prefix, codes, keep);
        let k = kept(words, codes, keep);
        assert forall|j: int| 0 <= j < k.len() implies keep(codes[#[trigger] k[j]]) && words.contains(k[j]) by {
            if j < prev.len() {
                assert(k[j] == prev[j]);
                let m = choose|m: int| 0 <= m < prefix.len() && prefix[m] == prev[j];
                assert(words[m] == prefix[m]);
            } else {
                assert(k[j] == words.last());
                assert(words[words.len() - 1] == words.last());
            }
        }
        assert forall|i: int| 0 <= i < words.len() && keep(codes[#[trigger] words[i]]) implies k.contains(words[i]) by {
            if i < prefix.len() {
                assert(prefix[i] == words[i]);
                let m = choose|m: int| 0 <= m < prev.len() && prev[m] == words[i];
                assert(k[m] == prev[m]);
            } else {
                assert(k[k.len() - 1] == words[i]);
            }
        }
    }
}

/// The words of `words`, in order, whose codes are balanced.
pub open spec fn balanced_words(words: Seq<Seq<char>>, codes: Map<Seq<char>, Seq<char>>) -> Seq<Seq<char>> {
    kept(words, codes, |code: Seq<char>| balanced(code))
}

/// The words of `words`, in order, whose codes are palindromes.
pub open spec fn palindrome_words(words: Seq<Seq<char>>, codes: Map<Seq<char>, Seq<char>>) -> Seq<Seq<char>> {
    kept(words, codes, |code: Seq<char>| palindrome(code))
}

/// Letter `m` of `code` equals letter `len - 1 - m`, for every `m`.
pub open spec fn mirrored(code: Seq<char>) -> bool {
    forall|m: int| 0 <= m < code.len() ==> #[trigger] code[m] == code[code.len() - 1 - m]
}

/// The balanced words kept from a list are exactly those of its words whose
/// codes have as many dashes as dots: each one kept has equal counts, and each
/// word with equal counts is kept.
pub proof fn law_balanced_counts(words: Seq<Seq<char>>, codes: Map<Seq<char>, Seq<char>>)
    ensures
        forall|j: int|
            0 <= j < balanced_words(words, codes).len() ==> occurrences(
                codes[#[trigger] balanced_words(words, codes)[j]],
                '-',
            ) == occurrences(codes[balanced_words(words, codes)[j]], '.'),
        forall|i: int|
            0 <= i < words.len() && occurrences(codes[#[trigger] words[i]], '-') == occurrences(
                codes[words[i]],
                '.',
            ) ==> balanced_words(words, codes).contains(words[i]),
{
    let keep = |code: Seq<char>| balanced(code);
    lemma_kept_members(words, codes, keep);
    let k = balanced_words(words, codes);
    assert forall|j: int| 0 <= j < k.len() implies occurrences(codes[#[trigger] k[j]], '-') == occurrences(
        codes[k[j]],
        '.',
    ) by {
        assert(keep(codes[k[j]]));
    }
    assert forall|i: int|
        0 <= i < words.len() && occurrences(codes[#[trigger] words[i]], '-') == occurrences(codes[words[i]], '.')
            implies k.contains(words[i]) by {
        assert(keep(codes[words[i]]));
    }
}

/// The palindromic words kept from a list are exactly those of its words whose
/// codes read the same letter by letter from either end.
pub proof fn law_palindrome_letters(words: Seq<Seq<char>>, codes: Map<Seq<char>, Seq<char>>)
    ensures
        forall|j: int|
            0 <= j < palindrome_words(words, codes).len() ==> mirrored(codes[#[trigger] palindrome_words(words, codes)[j]]),
        forall|i: int|
            0 <= i < words.len() && mirrored(codes[#[trigger] words[i]]) ==> palindrome_words(words, codes).contains(words[i]),
{
    let keep = |code: Seq<char>| palindrome(code);
    lemma_kept_members(words, codes, keep);
    let k = palindrome_words(words, codes);
    assert forall|j: int| 0 <= j < k.len() implies mirrored(codes[#[trigger] k[j]]) by {
        assert(keep(codes[k[j]]));
        let c = codes[k[j]];
        assert forall|m: int| 0 <= m < c.len() implies #[trigger] c[m] == c[c.len() - 1 - m] by {
            assert(c.reverse()[m] == c[c.len() - 1 - m]);
        }
    }
    assert forall|i: int| 0 <= i < words.len() && mirrored(codes[#[trigger] words[i]]) implies k.contains(words[i]) by {
        let c = codes[words[i]];
        assert forall|m: int| 0 <= m < c.len() implies #[trigger] c.reverse()[m] == c[m] by {
            assert(c[c.len() - 1 - m] == c[c.len() - 1 - (c.len() - 1 - m)]);
        }
        assert(c =~= c.reverse());
        assert(keep(c));
    }
}

/// The words listed under `len`, as character sequences.
pub open spec fn listed(word_lengths: Map<usize, Vec<String>>, len: usize) -> Seq<Seq<char>> {
    word_lengths[len]@.map_values(|w: String| w@)
}

/// Every word listed under `len` has a code in `codes` that satisfies `ok`.
pub open spec fn listed_codes_ok(
    word_lengths: Map<usize, Vec<String>>,
    len: usize,
    codes: Map<Seq<char>, Seq<char>>,
    ok: spec_fn(Seq<char>) -> bool,
) -> bool {
    &&& word_lengths.contains_key(len)
    &&& forall|i: int|
        0 <= i < listed(word_lengths, len).len() ==> codes.contains_key(
            #[trigger] listed(word_lengths, len)[i],
        ) && ok(codes[listed(word_lengths, len)[i]])
}

/// The strings' contents, in order.
pub open spec fn strings_view(v: Seq<String>) -> Seq<Seq<char>> {
    v.map_values(|w: String| w@)
}

/// Counts the dashes and the dots of a code of dots and dashes.
fn count_dots_dashes(code: &str) -> (r: (usize, usize))
    requires
        dots_and_dashes(code@),
    ensures
        r.0 == occurrences(code@, '-'),
        r.1 == occurrences(code@, '.'),
{
    let n = code.unicode_len();
    let mut dash_count: usize = 0;
    let mut dot_count: usize = 0;
    let mut i: usize = 0;
    while i < n
        invariant
            n == code@.len(),
            i <= n,
            dots_and_dashes(code@),
            dash_count == occurrences(code@.take(i as int), '-'),
            dot_count == occurrences(code@.take(i as int), '.'),
            dash_count + dot_count == i,
        decreases n - i,
    {
        let c = code.get_char(i);
        assert(code@.take(i + 1).drop_last() =~= code@.take(i as int));
        assert(c == '.' || c == '-');
        if c == '-' {
            dash_count = dash_count + 1;
        } else {
            dot_count = dot_count + 1;
        }
        i = i + 1;
    }
    assert(code@.take(n as int) =~= code@);
    (dash_count, dot_count)
}

/// The words of length `target_len` whose codes have as many dots as dashes,
/// in the order in which `word_lengths` lists them.
pub fn find_balanced(
    target_len: &usize,
    word_lengths: &HashMap<usize, Vec<String>>,
    word_to_smorse: &WordCodes,
) -> (target_words: Vec<String>)
    requires
        listed_codes_ok(
            word_lengths@,
            *target_len,
            word_to_smorse@,
            |code: Seq<char>| dots_and_dashes(code),
        ),
    ensures
        strings_view(target_words@) == kept(
            listed(word_lengths@, *target_len),
            word_to_smorse@,
            |code: Seq<char>| balanced(code),
        ),
{
    let mut target_words: Vec<String> = Vec::new();
    let words = word_lengths.get(target_len).unwrap();
    let ghost all = listed(word_lengths@, *target_len);
    assert(strings_view(words@) == all);
    let mut i: usize = 0;
    while i < words.len()
        invariant
            i <= words.len(),
            all == strings_view(words@),
            forall|j: int|
                0 <= j < all.len() ==> word_to_smorse@.contains_key(#[trigger] all[j])
                    && dots_and_dashes(word_to_smorse@[all[j]]),
            strings_view(target_words@) == kept(
                all.take(i as int),
                word_to_smorse@,
                |code: Seq<char>| balanced(code),
            ),
        decreases words.len() - i,
    {
        let word = &words[i];
        assert(all[i as int] == word@);
        let smorse_word = word_to_smorse.get(word.as_str()).unwrap();
        let (dash_count, dot_count) = count_dots_dashes(smorse_word.as_str());
        assert(all.take(i + 1).drop_last() =~= all.take(i as int));
        if dash_count == dot_count {
            target_words.push(word.clone());
            assert(strings_view(target_words@) =~= strings_view(target_words@).drop_last().push(word@));
        }
        assert(strings_view(target_words@) =~= kept(
            all.take(i + 1),
            word_to_smorse@,
            |code: Seq<char>| balanced(code),
        ));
        i = i + 1;
    }
    assert(all.take(words.len() as int) =~= all);
    target_words
}

/// Whether `code`, which has at least two letters, reads the same backwards,
/// compared from both ends inwards.
fn code_is_palindrome(code: &str) -> (r: bool)
    requires
        code@.len() >= 2,
    ensures
        r == palindrome(code@),
{
    let n = code.unicode_len();
    let mut word_chars: VecDeque<char> = VecDeque::new();
    let mut i: usize = 0;
    while i < n
        invariant
            n == code@.len(),
            i <= n,
            word_chars@ == code@.take(i as int),
        decreases n - i,
    {
        word_chars.push_back(code.get_char(i));
        i = i + 1;
    }
    assert(code@.take(n as int) =~= code@);
    let ghost s = code@;
    let mut lo: usize = 0;
    let mut result = false;
    loop
        invariant_except_break
            n == s.len(),
            n >= 2,
            2 * lo + 2 <= n,
            word_chars@ == s.subrange(lo as int, n - lo),
            forall|j: int| 0 <= j < lo ==> #[trigger] s[j] == s[n - 1 - j],
        ensures
            result == palindrome(s),
        decreases n - 2 * lo,
    {
        let a = word_chars.pop_front().unwrap();
        let b = word_chars.pop_back().unwrap();
        assert(a == s[lo as int]);
        assert(b == s[n - 1 - lo]);
        if a != b {
            assert(s.reverse()[lo as int] == s[n - 1 - lo]);
            assert(s != s.reverse());
            result = false;
            break;
        }
        lo = lo + 1;
        if word_chars.len() <= 1 {
            assert forall|j: int| 0 <= j < n implies s[j] == s.reverse()[j] by {
                if j < lo {
                } else if j >= n - lo {
                    assert(s[n - 1 - j] == s[n - 1 - (n - 1 - j)]);
                } else {
                    assert(j == n - 1 - j);
                }
            }
            assert(s =~= s.reverse());
            result = true;
            break;
        }
    }
    result
}

/// The words of length `target_len` whose codes read the same backwards, in the
/// order in which `word_lengths` lists them; nothing for lengths below two.
pub fn find_palindromes(
    target_len: &usize,
    word_lengths: &HashMap<usize, Vec<String>>,
    word_to_smorse: &WordCodes,
) -> (target_words: Vec<String>)
    requires
        *target_len >= 2 ==> listed_codes_ok(
            word_lengths@,
            *target_len,
            word_to_smorse@,
            |code: Seq<char>| code.len() >= 2,
        ),
    ensures
        *target_len < 2 ==> target_words@.len() == 0,
        *target_len >= 2 ==> strings_view(target_words@) == kept(
            listed(word_lengths@, *target_len),
            word_to_smorse@,
            |code: Seq<char>| palindrome(code),
        ),
{
    let mut target_words: Vec<String> = Vec::new();
    if *target_len >= 2 {
        let words = word_lengths.get(target_len).unwrap();
        let ghost all = listed(word_lengths@, *target_len);
        assert(strings_view(words@) == all);
        let mut i: usize = 0;
        while i < words.len()
            invariant
                i <= words.len(),
                all == strings_view(words@),
                forall|j: int|
                    0 <= j < all.len() ==> word_to_smorse@.contains_key(#[trigger] all[j])
                        && word_to_smorse@[all[j]].len() >= 2,
                strings_view(target_words@) == kept(
                    all.take(i as int),
                    word_to_smorse@,
                    |code: Seq<char>| palindrome(code),
                ),
            decreases words.len() - i,
        {
            let word = &words[i];
            assert(all[i as int] == word@);
            let smorse_word = word_to_smorse.get(word.as_str()).unwrap();
            let is_palindrome = code_is_palindrome(smorse_word.as_str());
            assert(all.take(i + 1).drop_last() =~= all.take(i as int));
            if is_palindrome {
                target_words.push(word.clone());
                assert(strings_view(target_words@) =~= strings_view(target_words@).drop_last().push(
                    word@,
                ));
            }
            assert(strings_view(target_words@) =~= kept(
                all.take(i + 1),
                word_to_smorse@,
                |code: Seq<char>| palindrome(code),
            ));
            i = i + 1;
        }
        assert(all.take(words.len() as int) =~= all);
    }
    target_words
}


/// A set of codes.
pub struct CodeSet {
    set: StringHashSet,
}

impl View for CodeSet {
    type V = Set<Seq<char>>;

    closed spec fn view(&self) -> Set<Seq<char>> {
        self.set@
    }
}

impl CodeSet {
    /// The empty set.
    pub fn new() -> (s: CodeSet)
        ensures
            s@ == Set::<Seq<char>>::empty(),
    {
        CodeSet { set: StringHashSet::new() }
    }

    /// Adds `code`.
    pub fn insert(&mut self, code: String)
        ensures
            final(self)@ == old(self)@.insert(code@),
    {
        self.set.insert(code);
    }

    /// Whether `code` is in the set.
    pub fn contains(&self, code: &str) -> (r: bool)
        ensures
            r == self@.contains(code@),
    {
        self.set.contains(code)
    }

    /// The number of codes in the set.
    pub fn len(&self) -> (n: usize)
        ensures
            n == self@.len(),
    {
        self.set.len()
    }
}

/// How many more characters `s` may take before it reaches `len`.
pub open spec fn gap(len: int, s: Seq<char>) -> nat {
    if s.len() < len {
        (len - s.len()) as nat
    } else {
        0
    }
}

/// `t` has `len` characters and is `s` followed by codes of `codes`, each used
/// any number of times.
pub open spec fn completes(codes: Seq<Seq<char>>, len: int, s: Seq<char>, t: Seq<char>) -> bool
    decreases gap(len, s), codes.len() + 1,
{
    if s.len() > len {
        false
    } else if s.len() == len {
        t == s
    } else {
        completes_from(codes, len, s, t, 0)
    }
}

/// `t` completes `s` with a first code taken from `codes[i..]`.
pub open spec fn completes_from(
    codes: Seq<Seq<char>>,
    len: int,
    s: Seq<char>,
    t: Seq<char>,
    i: int,
) -> bool
    decreases gap(len, s), codes.len() - i,
{
    if i < 0 || i >= codes.len() || s.len() >= len {
        false
    } else {
        (codes[i].len() > 0 && completes(codes, len, s + codes[i], t)) || completes_from(
            codes,
            len,
            s,
            t,
            i + 1,
        )
    }
}

/// The sequences of exactly `len` characters that `s` followed by codes makes.
pub open spec fn completions(codes: Seq<Seq<char>>, len: int, s: Seq<char>) -> Set<Seq<char>> {
    Set::new(|t: Seq<char>| completes(codes, len, s, t))
}

/// Every searched prefix has all its completions in `possible`.
pub open spec fn searched_closed(
    codes: Seq<Seq<char>>,
    len: int,
    searched: Set<Seq<char>>,
    possible: Set<Seq<char>>,
) -> bool {
    forall|s: Seq<char>| #[trigger] searched.contains(s) ==> completions(codes, len, s).subset_of(possible)
}

/// `s` followed, in turn, by the codes that the indices `ks` pick.
pub open spec fn extended(codes: Seq<Seq<char>>, s: Seq<char>, ks: Seq<int>) -> Seq<char>
    decreases ks.len(),
{
    if ks.len() == 0 {
        s
    } else {
        extended(codes, s + codes[ks[0]], ks.drop_first())
    }
}

/// The search can step from `s` through the codes that `ks` picks: every
/// prefix it extends on the way is shorter than `len` and not in `avoid`.
pub open spec fn walk(
    codes: Seq<Seq<char>>,
    len: int,
    avoid: Set<Seq<char>>,
    s: Seq<char>,
    ks: Seq<int>,
) -> bool {
    &&& forall|m: int| 0 <= m < ks.len() ==> 0 <= #[trigger] ks[m] < codes.len()
    &&& forall|m: int|
        0 <= m < ks.len() ==> #[trigger] extended(codes, s, ks.take(m)).len() < len && !avoid.contains(
            extended(codes, s, ks.take(m)),
        )
}

/// The search can step from `s` through the codes that `ks` picks, and where
/// it ends is shorter than `len`.
pub open spec fn search_path(
    codes: Seq<Seq<char>>,
    len: int,
    avoid: Set<Seq<char>>,
    s: Seq<char>,
    ks: Seq<int>,
) -> bool {
    &&& walk(codes, len, avoid, s, ks)
    &&& extended(codes, s, ks).len() < len
}

/// The sequences of exactly `len` characters that a search from `s` reaches
/// when the prefixes in `avoid` have been explored before.
pub open spec fn arrivals(
    codes: Seq<Seq<char>>,
    len: int,
    avoid: Set<Seq<char>>,
    s: Seq<char>,
) -> Set<Seq<char>> {
    Set::new(
        |t: Seq<char>|
            t.len() == len && exists|ks: Seq<int>| #[trigger] walk(codes, len, avoid, s, ks) && extended(codes, s, ks) == t,
    )
}

/// What the searches from `s` followed by each of the first `n` codes reach.
pub open spec fn arrivals_by_first(
    codes: Seq<Seq<char>>,
    len: int,
    avoid: Set<Seq<char>>,
    s: Seq<char>,
    n: int,
) -> Set<Seq<char>> {
    Set::new(
        |t: Seq<char>|
            exists|j: int| 0 <= j < n && #[trigger] arrivals(codes, len, avoid, s + codes[j]).contains(t),
    )
}

/// The prefixes shorter than `len` that a search from `s` explores when the
/// prefixes in `avoid` have been explored before.
pub open spec fn explored(
    codes: Seq<Seq<char>>,
    len: int,
    avoid: Set<Seq<char>>,
    s: Seq<char>,
) -> Set<Seq<char>> {
    Set::new(
        |t: Seq<char>|
            exists|ks: Seq<int>| #[trigger] search_path(codes, len, avoid, s, ks) && extended(codes, s, ks) == t,
    )
}

/// What the searches from `s` followed by each of the first `n` codes explore.
pub open spec fn explored_by_first(
    codes: Seq<Seq<char>>,
    len: int,
    avoid: Set<Seq<char>>,
    s: Seq<char>,
    n: int,
) -> Set<Seq<char>> {
    Set::new(
        |t: Seq<char>|
            exists|j: int| 0 <= j < n && #[trigger] explored(codes, len, avoid, s + codes[j]).contains(t),
    )
}

proof fn lemma_extended_append(codes: Seq<Seq<char>>, s: Seq<char>, ks1: Seq<int>, ks2: Seq<int>)
    ensures
        extended(codes, s, ks1 + ks2) == extended(codes, extended(codes, s, ks1), ks2),
    decreases ks1.len(),
{
    if ks1.len() == 0 {
        assert(ks1 + ks2 =~= ks2);
    } else {
        assert((ks1 + ks2)[0] == ks1[0]);
        assert((ks1 + ks2).drop_first() =~= ks1.drop_first() + ks2);
        lemma_extended_append(codes, s + codes[ks1[0]], ks1.drop_first(), ks2);
    }
}

/// A search path to `y` followed by a search path from `y` is a search path.
proof fn lemma_path_concat(
    codes: Seq<Seq<char>>,
    len: int,
    avoid: Set<Seq<char>>,
    x: Seq<char>,
    ks1: Seq<int>,
    ks2: Seq<int>,
)
    requires
        search_path(codes, len, avoid, x, ks1),
        walk(codes, len, avoid, extended(codes, x, ks1), ks2),
        !avoid.contains(extended(codes, x, ks1)),
    ensures
        walk(codes, len, avoid, x, ks1 + ks2),
        search_path(codes, len, avoid, extended(codes, x, ks1), ks2) ==> search_path(codes, len, avoid, x, ks1 + ks2),
        extended(codes, x, ks1 + ks2) == extended(codes, extended(codes, x, ks1), ks2),
{
    let y = extended(codes, x, ks1);
    let ks = ks1 + ks2;
    lemma_extended_append(codes, x, ks1, ks2);
    assert forall|m: int| 0 <= m < ks.len() implies 0 <= #[trigger] ks[m] < codes.len() by {
        if m < ks1.len() {
            assert(ks[m] == ks1[m]);
        } else {
            assert(ks[m] == ks2[m - ks1.len()]);
        }
    }
    assert forall|m: int| 0 <= m < ks.len() implies #[trigger] extended(codes, x, ks.take(m)).len() < len
        && !avoid.contains(extended(codes, x, ks.take(m))) by {
        if m < ks1.len() {
            assert(ks.take(m) =~= ks1.take(m));
        } else {
            let r = m - ks1.len();
            assert(ks.take(m) =~= ks1 + ks2.take(r));
            lemma_extended_append(codes, x, ks1, ks2.take(r));
            if r == 0 {
                assert(ks2.take(0) =~= Seq::<int>::empty());
            }
        }
    }
}

/// A search path splits at any step into a path to that step's prefix and a
/// path on from it.
proof fn lemma_path_split(
    codes: Seq<Seq<char>>,
    len: int,
    avoid: Set<Seq<char>>,
    x: Seq<char>,
    ks: Seq<int>,
    m: int,
)
    requires
        walk(codes, len, avoid, x, ks),
        0 <= m < ks.len(),
    ensures
        search_path(codes, len, avoid, x, ks.take(m)),
        walk(codes, len, avoid, extended(codes, x, ks.take(m)), ks.skip(m)),
        search_path(codes, len, avoid, x, ks) ==> search_path(codes, len, avoid, extended(codes, x, ks.take(m)), ks.skip(m)),
        extended(codes, extended(codes, x, ks.take(m)), ks.skip(m)) == extended(codes, x, ks),
{
    let y = extended(codes, x, ks.take(m));
    assert(ks =~= ks.take(m) + ks.skip(m));
    lemma_extended_append(codes, x, ks.take(m), ks.skip(m));
    assert(extended(codes, x, ks.take(m)).len() < len);
    assert forall|a: int| 0 <= a < ks.take(m).len() implies 0 <= #[trigger] ks.take(m)[a] < codes.len() by {
        assert(ks.take(m)[a] == ks[a]);
    }
    assert forall|a: int| 0 <= a < ks.take(m).len() implies #[trigger] extended(codes, x, ks.take(m).take(a)).len()
        < len && !avoid.contains(extended(codes, x, ks.take(m).take(a))) by {
        assert(ks.take(m).take(a) =~= ks.take(a));
    }
    let rest = ks.skip(m);
    assert forall|r: int| 0 <= r < rest.len() implies 0 <= #[trigger] rest[r] < codes.len() by {
        assert(rest[r] == ks[m + r]);
    }
    assert forall|r: int| 0 <= r < rest.len() implies #[trigger] extended(codes, y, rest.take(r)).len() < len
        && !avoid.contains(extended(codes, y, rest.take(r))) by {
        assert(ks.take(m + r) =~= ks.take(m) + rest.take(r));
        lemma_extended_append(codes, x, ks.take(m), rest.take(r));
        assert(extended(codes, x, ks.take(m + r)).len() < len);
    }
}

/// Searching more before explores no more.
proof fn lemma_explored_shrinks(
    codes: Seq<Seq<char>>,
    len: int,
    small: Set<Seq<char>>,
    big: Set<Seq<char>>,
    s: Seq<char>,
)
    requires
        small.subset_of(big),
    ensures
        explored(codes, len, big, s).subset_of(explored(codes, len, small, s)),
{
    assert forall|t: Seq<char>| explored(codes, len, big, s).contains(t) implies explored(
        codes,
        len,
        small,
        s,
    ).contains(t) by {
        let ks = choose|ks: Seq<int>| #[trigger] search_path(codes, len, big, s, ks) && extended(codes, s, ks) == t;
        assert(search_path(codes, len, small, s, ks));
    }
}

/// A prefix too long to extend explores nothing.
proof fn lemma_explored_too_long(codes: Seq<Seq<char>>, len: int, avoid: Set<Seq<char>>, s: Seq<char>)
    requires
        s.len() >= len,
    ensures
        explored(codes, len, avoid, s) =~= Set::<Seq<char>>::empty(),
{
    assert forall|t: Seq<char>| !explored(codes, len, avoid, s).contains(t) by {
        if explored(codes, len, avoid, s).contains(t) {
            let ks = choose|ks: Seq<int>| #[trigger] search_path(codes, len, avoid, s, ks) && extended(codes, s, ks) == t;
            if ks.len() > 0 {
                assert(ks.take(0) =~= Seq::<int>::empty());
                assert(extended(codes, s, ks.take(0)).len() < len);
            }
        }
    }
}

/// A search from a prefix already searched explores only that prefix.
proof fn lemma_explored_avoided(codes: Seq<Seq<char>>, len: int, avoid: Set<Seq<char>>, s: Seq<char>)
    requires
        s.len() < len,
        avoid.contains(s),
    ensures
        explored(codes, len, avoid, s) =~= set![s],
{
    assert(search_path(codes, len, avoid, s, Seq::<int>::empty()));
    assert(extended(codes, s, Seq::<int>::empty()) == s);
    assert forall|t: Seq<char>| explored(codes, len, avoid, s).contains(t) implies t == s by {
        let ks = choose|ks: Seq<int>| #[trigger] search_path(codes, len, avoid, s, ks) && extended(codes, s, ks) == t;
        if ks.len() > 0 {
            assert(ks.take(0) =~= Seq::<int>::empty());
            assert(!avoid.contains(extended(codes, s, ks.take(0))));
        }
    }
}

/// A search from an unsearched prefix short enough explores that prefix and what
/// the searches from each of its one-code extensions explore.
proof fn lemma_explored_step(codes: Seq<Seq<char>>, len: int, avoid: Set<Seq<char>>, s: Seq<char>)
    requires
        s.len() < len,
        !avoid.contains(s),
    ensures
        explored(codes, len, avoid, s) =~= set![s].union(
            explored_by_first(codes, len, avoid, s, codes.len() as int),
        ),
{
    let rhs = set![s].union(explored_by_first(codes, len, avoid, s, codes.len() as int));
    assert(search_path(codes, len, avoid, s, Seq::<int>::empty()));
    assert(extended(codes, s, Seq::<int>::empty()) == s);
    assert forall|t: Seq<char>| explored(codes, len, avoid, s).contains(t) implies rhs.contains(t) by {
        let ks = choose|ks: Seq<int>| #[trigger] search_path(codes, len, avoid, s, ks) && extended(codes, s, ks) == t;
        if ks.len() > 0 {
            let j = ks[0];
            let one = seq![j];
            assert(one[0] == j);
            assert(one.drop_first() =~= Seq::<int>::empty());
            assert(extended(codes, s + codes[j], Seq::<int>::empty()) == s + codes[j]);
            assert(extended(codes, s, one) == s + codes[j]);
            if ks.len() == 1 {
                assert(ks =~= one);
                assert(search_path(codes, len, avoid, s + codes[j], Seq::<int>::empty()));
                assert(explored(codes, len, avoid, s + codes[j]).contains(t));
            } else {
                lemma_path_split(codes, len, avoid, s, ks, 1);
                assert(ks.take(1) =~= one);
                assert(search_path(codes, len, avoid, s + codes[j], ks.skip(1)));
                assert(explored(codes, len, avoid, s + codes[j]).contains(t));
            }
        }
    }
    assert forall|t: Seq<char>| rhs.contains(t) implies explored(codes, len, avoid, s).contains(t) by {
        if t != s {
            let j = choose|j: int| 0 <= j < codes.len() && #[trigger] explored(codes, len, avoid, s + codes[j]).contains(t);
            let y = s + codes[j];
            let rest = choose|ks: Seq<int>| #[trigger] search_path(codes, len, avoid, y, ks) && extended(codes, y, ks) == t;
            let one = seq![j];
            assert(one[0] == j);
            assert(one.drop_first() =~= Seq::<int>::empty());
            assert(extended(codes, y, Seq::<int>::empty()) == y);
            assert(extended(codes, s, one) == y);
            assert(one.take(0) =~= Seq::<int>::empty());
            if rest.len() > 0 {
                assert(rest.take(0) =~= Seq::<int>::empty());
                assert(extended(codes, y, rest.take(0)).len() < len);
            }
            assert(y.len() < len);
            assert(search_path(codes, len, avoid, s, one));
            if avoid.contains(y) {
                assert(rest.len() > 0 ==> !avoid.contains(extended(codes, y, rest.take(0))));
                assert(rest.len() == 0);
                assert(t == y);
                assert(search_path(codes, len, avoid, s, one) && extended(codes, s, one) == t);
            } else {
                lemma_path_concat(codes, len, avoid, s, one, rest);
                assert(search_path(codes, len, avoid, s, one + rest) && extended(codes, s, one + rest) == t);
            }
        }
    }
}

/// After the searches from the first `i` extensions, with `earlier` searched
/// before them, the search from extension `i` adds exactly what it explores
/// when only `earlier` counts as searched.
proof fn lemma_search_next(
    codes: Seq<Seq<char>>,
    len: int,
    earlier: Set<Seq<char>>,
    s: Seq<char>,
    i: int,
)
    requires
        0 <= i < codes.len(),
    ensures
        ({
            let now = earlier.union(explored_by_first(codes, len, earlier, s, i));
            now.union(explored(codes, len, now, s + codes[i])) =~= earlier.union(
                explored_by_first(codes, len, earlier, s, i + 1),
            )
        }),
{
    let now = earlier.union(explored_by_first(codes, len, earlier, s, i));
    let child = s + codes[i];
    let goal = earlier.union(explored_by_first(codes, len, earlier, s, i + 1));
    lemma_explored_shrinks(codes, len, earlier, now, child);
    assert forall|t: Seq<char>| now.union(explored(codes, len, now, child)).contains(t) implies goal.contains(t) by {
        if now.contains(t) {
            if !earlier.contains(t) {
                let j = choose|j: int| 0 <= j < i && #[trigger] explored(codes, len, earlier, s + codes[j]).contains(t);
                assert(0 <= j < i + 1 && explored(codes, len, earlier, s + codes[j]).contains(t));
            }
        } else {
            assert(explored(codes, len, earlier, child).contains(t));
            assert(0 <= i < i + 1 && explored(codes, len, earlier, s + codes[i]).contains(t));
        }
    }
    assert forall|t: Seq<char>| goal.contains(t) implies now.union(explored(codes, len, now, child)).contains(t) by {
        if !earlier.contains(t) {
            let j = choose|j: int| 0 <= j < i + 1 && #[trigger] explored(codes, len, earlier, s + codes[j]).contains(t);
            if j < i {
                assert(explored_by_first(codes, len, earlier, s, i).contains(t));
            } else {
                let ks = choose|ks: Seq<int>| #[trigger] search_path(codes, len, earlier, child, ks) && extended(codes, child, ks) == t;
                if exists|m: int| 0 <= m < ks.len() && now.contains(#[trigger] extended(codes, child, ks.take(m))) {
                    let m = choose|m: int| 0 <= m < ks.len() && now.contains(#[trigger] extended(codes, child, ks.take(m)));
                    let y = extended(codes, child, ks.take(m));
                    lemma_path_split(codes, len, earlier, child, ks, m);
                    assert(!earlier.contains(y));
                    let j2 = choose|j2: int| 0 <= j2 < i && #[trigger] explored(codes, len, earlier, s + codes[j2]).contains(y);
                    let from = s + codes[j2];
                    let ks1 = choose|ks1: Seq<int>| #[trigger] search_path(codes, len, earlier, from, ks1) && extended(codes, from, ks1) == y;
                    lemma_path_concat(codes, len, earlier, from, ks1, ks.skip(m));
                    assert(search_path(codes, len, earlier, from, ks1 + ks.skip(m)) && extended(codes, from, ks1 + ks.skip(m)) == t);
                    assert(explored(codes, len, earlier, from).contains(t));
                    assert(explored_by_first(codes, len, earlier, s, i).contains(t));
                } else {
                    assert forall|m: int| 0 <= m < ks.len() implies #[trigger] extended(codes, child, ks.take(m)).len() < len
                        && !now.contains(extended(codes, child, ks.take(m))) by {
                    }
                    assert(search_path(codes, len, now, child, ks));
                    assert(explored(codes, len, now, child).contains(t));
                }
            }
        }
    }
}

/// Searching more before reaches no more.
proof fn lemma_arrivals_shrinks(
    codes: Seq<Seq<char>>,
    len: int,
    small: Set<Seq<char>>,
    big: Set<Seq<char>>,
    s: Seq<char>,
)
    requires
        small.subset_of(big),
    ensures
        arrivals(codes, len, big, s).subset_of(arrivals(codes, len, small, s)),
{
    assert forall|t: Seq<char>| arrivals(codes, len, big, s).contains(t) implies arrivals(codes, len, small, s).contains(t) by {
        let ks = choose|ks: Seq<int>| #[trigger] walk(codes, len, big, s, ks) && extended(codes, s, ks) == t;
        assert(walk(codes, len, small, s, ks));
    }
}

/// What a search from `s` reaches when `s` cannot be extended: `s` itself when
/// it has `len` characters, else nothing.
proof fn lemma_arrivals_stop(codes: Seq<Seq<char>>, len: int, avoid: Set<Seq<char>>, s: Seq<char>)
    requires
        s.len() >= len || avoid.contains(s),
    ensures
        arrivals(codes, len, avoid, s) =~= (if s.len() == len { set![s] } else { Set::<Seq<char>>::empty() }),
{
    assert(extended(codes, s, Seq::<int>::empty()) == s);
    if s.len() == len {
        assert(walk(codes, len, avoid, s, Seq::<int>::empty()));
    }
    assert forall|t: Seq<char>| arrivals(codes, len, avoid, s).contains(t) implies t == s by {
        let ks = choose|ks: Seq<int>| #[trigger] walk(codes, len, avoid, s, ks) && extended(codes, s, ks) == t;
        if ks.len() > 0 {
            assert(ks.take(0) =~= Seq::<int>::empty());
            assert(extended(codes, s, ks.take(0)) == s);
        }
    }
}

/// A search from an unsearched prefix short enough reaches what the searches
/// from each of its one-code extensions reach.
proof fn lemma_arrivals_step(codes: Seq<Seq<char>>, len: int, avoid: Set<Seq<char>>, s: Seq<char>)
    requires
        s.len() < len,
        !avoid.contains(s),
    ensures
        arrivals(codes, len, avoid, s) =~= arrivals_by_first(codes, len, avoid, s, codes.len() as int),
{
    assert forall|t: Seq<char>| arrivals(codes, len, avoid, s).contains(t) implies arrivals_by_first(
        codes,
        len,
        avoid,
        s,
        codes.len() as int,
    ).contains(t) by {
        let ks = choose|ks: Seq<int>| #[trigger] walk(codes, len, avoid, s, ks) && extended(codes, s, ks) == t;
        assert(ks.len() > 0) by {
            if ks.len() == 0 {
                assert(extended(codes, s, ks) == s);
            }
        }
        let j = ks[0];
        let one = seq![j];
        assert(one[0] == j);
        assert(one.drop_first() =~= Seq::<int>::empty());
        assert(extended(codes, s + codes[j], Seq::<int>::empty()) == s + codes[j]);
        assert(extended(codes, s, one) == s + codes[j]);
        if ks.len() == 1 {
            assert(ks =~= one);
            assert(walk(codes, len, avoid, s + codes[j], Seq::<int>::empty()));
        } else {
            lemma_path_split(codes, len, avoid, s, ks, 1);
            assert(ks.take(1) =~= one);
            assert(walk(codes, len, avoid, s + codes[j], ks.skip(1)));
        }
        assert(arrivals(codes, len, avoid, s + codes[j]).contains(t));
    }
    assert forall|t: Seq<char>| arrivals_by_first(codes, len, avoid, s, codes.len() as int).contains(t) implies arrivals(
        codes,
        len,
        avoid,
        s,
    ).contains(t) by {
        let j = choose|j: int| 0 <= j < codes.len() && #[trigger] arrivals(codes, len, avoid, s + codes[j]).contains(t);
        let y = s + codes[j];
        let rest = choose|ks: Seq<int>| #[trigger] walk(codes, len, avoid, y, ks) && extended(codes, y, ks) == t;
        let one = seq![j];
        assert(one[0] == j);
        assert(one.drop_first() =~= Seq::<int>::empty());
        assert(extended(codes, y, Seq::<int>::empty()) == y);
        assert(extended(codes, s, one) == y);
        assert(one.take(0) =~= Seq::<int>::empty());
        if rest.len() > 0 {
            assert(rest.take(0) =~= Seq::<int>::empty());
            assert(extended(codes, y, rest.take(0)).len() < len);
            assert(y.len() < len);
            assert(!avoid.contains(y));
            assert(search_path(codes, len, avoid, s, one));
            lemma_path_concat(codes, len, avoid, s, one, rest);
            assert(walk(codes, len, avoid, s, one + rest) && extended(codes, s, one + rest) == t);
        } else {
            assert(t == y);
            assert(walk(codes, len, avoid, s, one) && extended(codes, s, one) == t);
        }
    }
}

/// After the searches from the first `i` extensions, with `earlier` searched
/// before them, the search from extension `i` adds exactly what it reaches
/// when only `earlier` counts as searched.
proof fn lemma_arrivals_next(
    codes: Seq<Seq<char>>,
    len: int,
    earlier: Set<Seq<char>>,
    s: Seq<char>,
    i: int,
)
    requires
        0 <= i < codes.len(),
    ensures
        arrivals_by_first(codes, len, earlier, s, i).union(
            arrivals(codes, len, earlier.union(explored_by_first(codes, len, earlier, s, i)), s + codes[i]),
        ) =~= arrivals_by_first(codes, len, earlier, s, i + 1),
{
    let now = earlier.union(explored_by_first(codes, len, earlier, s, i));
    let child = s + codes[i];
    lemma_arrivals_shrinks(codes, len, earlier, now, child);
    assert forall|t: Seq<char>| arrivals_by_first(codes, len, earlier, s, i).contains(t) implies arrivals_by_first(
        codes,
        len,
        earlier,
        s,
        i + 1,
    ).contains(t) by {
        let j = choose|j: int| 0 <= j < i && #[trigger] arrivals(codes, len, earlier, s + codes[j]).contains(t);
        assert(0 <= j < i + 1 && arrivals(codes, len, earlier, s + codes[j]).contains(t));
    }
    assert forall|t: Seq<char>| arrivals(codes, len, now, child).contains(t) implies arrivals_by_first(
        codes,
        len,
        earlier,
        s,
        i + 1,
    ).contains(t) by {
        assert(arrivals(codes, len, earlier, child).contains(t));
        assert(0 <= i < i + 1 && arrivals(codes, len, earlier, s + codes[i]).contains(t));
    }
    assert forall|t: Seq<char>| arrivals_by_first(codes, len, earlier, s, i + 1).contains(t) implies arrivals_by_first(
        codes,
        len,
        earlier,
        s,
        i,
    ).union(arrivals(codes, len, now, child)).contains(t) by {
        let j = choose|j: int| 0 <= j < i + 1 && #[trigger] arrivals(codes, len, earlier, s + codes[j]).contains(t);
        if j < i {
            assert(arrivals_by_first(codes, len, earlier, s, i).contains(t));
        } else {
            let ks = choose|ks: Seq<int>| #[trigger] walk(codes, len, earlier, child, ks) && extended(codes, child, ks) == t;
            if exists|m: int| 0 <= m < ks.len() && now.contains(#[trigger] extended(codes, child, ks.take(m))) {
                let m = choose|m: int| 0 <= m < ks.len() && now.contains(#[trigger] extended(codes, child, ks.take(m)));
                let y = extended(codes, child, ks.take(m));
                lemma_path_split(codes, len, earlier, child, ks, m);
                assert(!earlier.contains(y));
                let j2 = choose|j2: int| 0 <= j2 < i && #[trigger] explored(codes, len, earlier, s + codes[j2]).contains(y);
                let from = s + codes[j2];
                let ks1 = choose|ks1: Seq<int>| #[trigger] search_path(codes, len, earlier, from, ks1) && extended(codes, from, ks1) == y;
                lemma_path_concat(codes, len, earlier, from, ks1, ks.skip(m));
                assert(walk(codes, len, earlier, from, ks1 + ks.skip(m)) && extended(codes, from, ks1 + ks.skip(m)) == t);
                assert(arrivals(codes, len, earlier, from).contains(t));
                assert(arrivals_by_first(codes, len, earlier, s, i).contains(t));
            } else {
                assert forall|m: int| 0 <= m < ks.len() implies #[trigger] extended(codes, child, ks.take(m)).len() < len
                    && !now.contains(extended(codes, child, ks.take(m))) by {
                }
                assert(walk(codes, len, now, child, ks));
                assert(arrivals(codes, len, now, child).contains(t));
            }
        }
    }
}

/// The codes, as character sequences.
pub open spec fn codes_view(codes: Seq<&str>) -> Seq<Seq<char>> {
    codes.map_values(|c: &str| c@)
}

/// Searches depth first from `cur` through the sequences that appending Morse
/// codes makes, skipping prefixes in `searched`: adds to `possible` each
/// sequence of `len` characters reached, and to `searched` each shorter prefix
/// explored. When every prefix already searched has all its completions in
/// `possible`, that stays so and `possible` gains every completion of `cur`.
/// When the search goes on from `cur`, every code must be non-empty: an empty
/// one would never lengthen it.
pub fn find_possible(
    morse_codes: &Vec<&str>,
    len: usize,
    cur: String,
    possible: &mut CodeSet,
    searched: &mut CodeSet,
)
    requires
        cur@.len() < len && !old(searched)@.contains(cur@) ==> forall|i: int|
            0 <= i < morse_codes.len() ==> (#[trigger] morse_codes@[i])@.len() > 0,
    ensures
        final(possible)@ == old(possible)@.union(
            arrivals(codes_view(morse_codes@), len as int, old(searched)@, cur@),
        ),
        final(searched)@ == old(searched)@.union(
            explored(codes_view(morse_codes@), len as int, old(searched)@, cur@),
        ),
        searched_closed(codes_view(morse_codes@), len as int, old(searched)@, old(possible)@) ==> {
            &&& final(possible)@ == old(possible)@.union(completions(codes_view(morse_codes@), len as int, cur@))
            &&& searched_closed(codes_view(morse_codes@), len as int, final(searched)@, final(possible)@)
        },
    decreases gap(len as int, cur@),
{
    let ghost codes = codes_view(morse_codes@);
    let ghost earlier = searched@;
    let ghost closed0 = searched_closed(codes, len as int, old(searched)@, old(possible)@);
    let cur_len = cur.as_str().unicode_len();
    if cur_len >= len {
        proof {
            lemma_explored_too_long(codes, len as int, earlier, cur@);
            lemma_arrivals_stop(codes, len as int, earlier, cur@);
            assert(earlier.union(Set::empty()) =~= earlier);
        }
    }
    if cur_len > len {
        assert(completions(codes, len as int, cur@) =~= Set::empty());
        assert(old(possible)@.union(Set::empty()) =~= old(possible)@);
        return;
    }
    if cur_len == len {
        assert(completions(codes, len as int, cur@) =~= set![cur@]);
        let ghost cv = cur@;
        possible.insert(cur);
        assert(possible@ =~= old(possible)@.union(completions(codes, len as int, cv)));
        assert(possible@ =~= old(possible)@.union(arrivals(codes, len as int, earlier, cv)));
        assert forall|s: Seq<char>| closed0 && #[trigger] searched@.contains(s) implies completions(codes, len as int, s).subset_of(possible@) by {
            assert(completions(codes, len as int, s).subset_of(old(possible)@));
        }
        return;
    }
    if searched.contains(cur.as_str()) {
        proof {
            lemma_explored_avoided(codes, len as int, earlier, cur@);
            lemma_arrivals_stop(codes, len as int, earlier, cur@);
            assert(earlier.union(set![cur@]) =~= earlier);
            assert(possible@.union(Set::empty()) =~= possible@);
        }
        proof {
            if closed0 {
                assert(completions(codes, len as int, cur@).subset_of(possible@));
                assert(possible@ =~= possible@.union(completions(codes, len as int, cur@)));
            }
        }
        return;
    }
    let ghost start_possible = possible@;
    let mut i: usize = 0;
    while i < morse_codes.len()
        invariant
            codes == codes_view(morse_codes@),
            forall|j: int| 0 <= j < morse_codes.len() ==> (#[trigger] morse_codes@[j])@.len() > 0,
            cur@.len() < len,
            i <= morse_codes.len(),
            earlier == old(searched)@,
            start_possible == old(possible)@,
            closed0 == searched_closed(codes, len as int, old(searched)@, old(possible)@),
            !earlier.contains(cur@),
            searched@ == earlier.union(explored_by_first(codes, len as int, earlier, cur@, i as int)),
            possible@ == start_possible.union(arrivals_by_first(codes, len as int, earlier, cur@, i as int)),
            closed0 ==> searched_closed(codes, len as int, searched@, possible@),
            closed0 ==> possible@ == start_possible.union(
                Set::new(|t: Seq<char>| exists|j: int| 0 <= j < i && completes(codes, len as int, cur@ + codes[j], t)),
            ),
        decreases morse_codes.len() - i,
    {
        let mut cur2 = cur.clone();
        cur2.append(morse_codes[i]);
        assert(cur2@ == cur@ + codes[i as int]);
        let ghost before = possible@;
        let ghost searched_before = searched@;
        find_possible(morse_codes, len, cur2, possible, searched);
        proof {
            lemma_search_next(codes, len as int, earlier, cur@, i as int);
            lemma_arrivals_next(codes, len as int, earlier, cur@, i as int);
            assert(possible@ =~= start_possible.union(arrivals_by_first(codes, len as int, earlier, cur@, i + 1)));
        }
        proof {
            if closed0 {
                assert(possible@ =~= start_possible.union(
                    Set::new(|t: Seq<char>| exists|j: int| 0 <= j < i + 1 && completes(codes, len as int, cur@ + codes[j], t)),
                )) by {
                    assert forall|t: Seq<char>| possible@.contains(t) implies start_possible.union(
                        Set::new(|t: Seq<char>| exists|j: int| 0 <= j < i + 1 && completes(codes, len as int, cur@ + codes[j], t)),
                    ).contains(t) by {
                        if before.contains(t) {
                            if !start_possible.contains(t) {
                                let j = choose|j: int| 0 <= j < i && completes(codes, len as int, cur@ + codes[j], t);
                                assert(0 <= j < i + 1 && completes(codes, len as int, cur@ + codes[j], t));
                            }
                        } else {
                            assert(completes(codes, len as int, cur@ + codes[i as int], t));
                        }
                    }
                    assert forall|t: Seq<char>| start_possible.union(
                        Set::new(|t: Seq<char>| exists|j: int| 0 <= j < i + 1 && completes(codes, len as int, cur@ + codes[j], t)),
                    ).contains(t) implies possible@.contains(t) by {
                        if !start_possible.contains(t) {
                            let j = choose|j: int| 0 <= j < i + 1 && completes(codes, len as int, cur@ + codes[j], t);
                            if j < i {
                                assert(before.contains(t));
                            } else {
                                assert(completions(codes, len as int, cur2@).contains(t));
                            }
                        }
                    }
                }
            }
        }
        i = i + 1;
    }
    proof {
        lemma_arrivals_step(codes, len as int, earlier, cur@);
        if closed0 {
            let n = morse_codes.len() as int;
            assert(possible@ =~= start_possible.union(completions(codes, len as int, cur@))) by {
                assert forall|t: Seq<char>| completes(codes, len as int, cur@, t) <==> exists|j: int|
                    0 <= j < n && #[trigger] completes(codes, len as int, cur@ + codes[j], t) by {
                    lemma_completes_from(codes, len as int, cur@, t, 0);
                }
            }
        }
    }
    let ghost cv = cur@;
    searched.insert(cur);
    proof {
        lemma_explored_step(codes, len as int, earlier, cv);
        assert(searched@ =~= earlier.union(explored(codes, len as int, earlier, cv)));
    }
    assert forall|s: Seq<char>| closed0 && #[trigger] searched@.contains(s) implies completions(codes, len as int, s).subset_of(possible@) by {
        if s != cv {
        }
    }
}

/// `completes_from` from `i` on is a choice of one of the codes from `i` on.
proof fn lemma_completes_from(codes: Seq<Seq<char>>, len: int, s: Seq<char>, t: Seq<char>, i: int)
    requires
        0 <= i <= codes.len(),
        s.len() < len,
        forall|j: int| 0 <= j < codes.len() ==> (#[trigger] codes[j]).len() > 0,
    ensures
        completes_from(codes, len, s, t, i) <==> exists|j: int|
            i <= j < codes.len() && #[trigger] completes(codes, len, s + codes[j], t),
    decreases codes.len() - i,
{
    if i < codes.len() {
        lemma_completes_from(codes, len, s, t, i + 1);
        assert(completes_from(codes, len, s, t, i) == ((codes[i].len() > 0 && completes(
            codes,
            len,
            s + codes[i],
            t,
        )) || completes_from(codes, len, s, t, i + 1)));
        assert(codes[i].len() > 0);
        if completes(codes, len, s + codes[i], t) {
            assert(i <= i < codes.len() && completes(codes, len, s + codes[i], t));
        }
        if exists|j: int| i <= j < codes.len() && #[trigger] completes(codes, len, s + codes[j], t) {
            let j = choose|j: int| i <= j < codes.len() && #[trigger] completes(codes, len, s + codes[j], t);
            if j > i {
                assert(i + 1 <= j < codes.len() && completes(codes, len, s + codes[j], t));
            }
        }
    }
}


/// The length of the run of dashes that ends just before position `i`.
pub open spec fn dash_run_ending(code: Seq<char>, i: int) -> nat
    decreases i,
{
    if i <= 0 {
        0
    } else if code[i - 1] == '-' {
        dash_run_ending(code, i - 1) + 1
    } else {
        0
    }
}

/// The length of the longest run of dashes among the first `i` characters.
pub open spec fn longest_dash_run(code: Seq<char>, i: int) -> nat
    decreases i,
{
    if i <= 0 {
        0
    } else {
        let prev = longest_dash_run(code, i - 1);
        let here = dash_run_ending(code, i);
        if here > prev {
            here
        } else {
            prev
        }
    }
}

/// The length of the longest run of dashes in a code of dots and dashes.
pub fn dash_run(code: &str) -> (best: usize)
    requires
        dots_and_dashes(code@),
    ensures
        best == longest_dash_run(code@, code@.len() as int),
{
    let n = code.unicode_len();
    let mut dash_count: usize = 0;
    let mut best: usize = 0;
    let mut i: usize = 0;
    while i < n
        invariant
            n == code@.len(),
            i <= n,
            dots_and_dashes(code@),
            dash_count == dash_run_ending(code@, i as int),
            dash_count <= i,
            best == longest_dash_run(code@, i as int),
        decreases n - i,
    {
        let c = code.get_char(i);
        assert(c == '.' || c == '-');
        if c == '-' {
            dash_count = dash_count + 1;
            if dash_count > best {
                best = dash_count;
            }
        } else {
            dash_count = 0;
        }
        i = i + 1;
    }
    best
}

/// The code of length `len` that spells the low bits of `num`, lowest bit first:
/// a dot for each zero bit, a dash for each one bit.
pub open spec fn bits_code(num: usize, len: int) -> Seq<char> {
    Seq::new(
        len as nat,
        |i: int|
            if (num >> (i as usize)) & 1 == 0 {
                '.'
            } else {
                '-'
            },
    )
}

/// The code of length `len` that spells the low bits of `num`, lowest bit first.
pub fn dot_dash_sequence(num: usize, len: usize) -> (seq: String)
    requires
        len <= 32,
    ensures
        seq@ == bits_code(num, len as int),
{
    let mut seq = String::new();
    let mut ind: usize = 0;
    while ind < len
        invariant
            len <= 32,
            ind <= len,
            seq@ == bits_code(num, len as int).take(ind as int),
        decreases len - ind,
    {
        let bit = (num & (1usize << ind)) >> ind;
        assert(bit == (num >> ind) & 1) by (bit_vector)
            requires
                bit == (num & (1usize << ind)) >> ind,
                ind < 32,
        ;
        if bit == 0 {
            proof {
                reveal_strlit(".");
            }
            seq.append(".");
        } else {
            proof {
                reveal_strlit("-");
            }
            seq.append("-");
        }
        assert(seq@ =~= bits_code(num, len as int).take(ind + 1));
        ind = ind + 1;
    }
    assert(bits_code(num, len as int).take(len as int) =~= bits_code(num, len as int));
    seq
}

} // verus!
