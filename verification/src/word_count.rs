//! The word-count job: words are split on white space, stripped of surrounding
//! punctuation and lowercased; the reducer adds up the counts of each word.

use vstd::prelude::*;
use vstd::string::StrSliceExecFns;

use crate::emitter::{Emitter, VecEmitter};
use crate::error::MapReduceError;
use crate::mapper::Mapper;
use crate::record::{InputRecord, Key, Value};
use crate::reducer::Reducer;
use crate::text::{
    char_is_alphanumeric, char_is_whitespace, chars_of, decimal_digits, decimal_value,
    is_unsigned_literal, is_white_space, parse_u64, str_to_lowercase, text, u64_to_string,
    unicode_alphanumeric, unicode_lowercase, unsigned_digits, unsigned_literal_value,
};

verus! {

/// The views of a sequence of strings.
pub open spec fn views(ws: Seq<String>) -> Seq<Seq<char>> {
    ws.map_values(|w: String| w@)
}

/// Scanning `s` from the left: the words completed so far, and the word being read.
pub open spec fn split_state(s: Seq<char>) -> (Seq<Seq<char>>, Seq<char>)
    decreases s.len(),
{
    if s.len() == 0 {
        (Seq::empty(), Seq::empty())
    } else {
        let (words, cur) = split_state(s.drop_last());
        if is_white_space(s.last()) {
            if cur.len() > 0 {
                (words.push(cur), Seq::empty())
            } else {
                (words, cur)
            }
        } else {
            (words, cur.push(s.last()))
        }
    }
}

/// The maximal runs of non-white-space characters of `s`, in order (`str::split_whitespace`).
pub open spec fn whitespace_words(s: Seq<char>) -> Seq<Seq<char>> {
    let (words, cur) = split_state(s);
    if cur.len() > 0 {
        words.push(cur)
    } else {
        words
    }
}

proof fn lemma_split_state_shape(s: Seq<char>)
    ensures
        forall|i: int|
            0 <= i < split_state(s).0.len() ==> (#[trigger] split_state(s).0[i]).len() > 0
                && !exists|j: int|
                0 <= j < split_state(s).0[i].len() && is_white_space(split_state(s).0[i][j]),
        !exists|j: int| 0 <= j < split_state(s).1.len() && is_white_space(split_state(s).1[j]),
    decreases s.len(),
{
    if s.len() > 0 {
        lemma_split_state_shape(s.drop_last());
        let (words, cur) = split_state(s.drop_last());
        if !is_white_space(s.last()) {
            assert forall|j: int| 0 <= j < cur.push(s.last()).len() implies !is_white_space(
                cur.push(s.last())[j],
            ) by {
                if j < cur.len() {
                    assert(cur.push(s.last())[j] == cur[j]);
                }
            }
        }
    }
}

/// Every word that white-space splitting yields is non-empty and holds no white space.
pub proof fn lemma_whitespace_words_are_words(s: Seq<char>)
    ensures
        forall|i: int|
            0 <= i < whitespace_words(s).len() ==> (#[trigger] whitespace_words(s)[i]).len() > 0
                && forall|j: int|
                0 <= j < whitespace_words(s)[i].len() ==> !is_white_space(
                    #[trigger] whitespace_words(s)[i][j],
                ),
{
    lemma_split_state_shape(s);
    let (words, cur) = split_state(s);
    assert forall|i: int| 0 <= i < whitespace_words(s).len() implies (#[trigger] whitespace_words(
        s,
    )[i]).len() > 0 && forall|j: int|
        0 <= j < whitespace_words(s)[i].len() ==> !is_white_space(
            #[trigger] whitespace_words(s)[i][j],
        ) by {
        if i < words.len() {
            assert(whitespace_words(s)[i] == words[i]);
        } else {
            assert(whitespace_words(s)[i] == cur);
        }
    }
}

/// Whether a character is not white space.
pub open spec fn not_white_space() -> spec_fn(char) -> bool {
    |c: char| !is_white_space(c)
}

/// The number of places where a word starts in `s`: a character that is not
/// white space, first in `s` or after white space.
pub open spec fn word_start_count(s: Seq<char>) -> nat
    decreases s.len(),
{
    if s.len() == 0 {
        0
    } else {
        word_start_count(s.drop_last()) + if !is_white_space(s.last()) && (s.len() == 1
            || is_white_space(s[s.len() - 2])) {
            1nat
        } else {
            0nat
        }
    }
}

proof fn lemma_split_state_covers(s: Seq<char>)
    ensures
        split_state(s).0.flatten_alt() + split_state(s).1 == s.filter(not_white_space()),
        split_state(s).0.len() + (if split_state(s).1.len() > 0 {
            1nat
        } else {
            0nat
        }) == word_start_count(s),
        split_state(s).1.len() > 0 <==> (s.len() > 0 && !is_white_space(s.last())),
    decreases s.len(),
{
    reveal(Seq::filter);
    if s.len() > 0 {
        let p = s.drop_last();
        lemma_split_state_covers(p);
        let (words, cur) = split_state(p);
        if s.len() > 1 {
            assert(s[s.len() - 2] == p.last());
        }
        if is_white_space(s.last()) {
            if cur.len() > 0 {
                assert(words.push(cur).drop_last() =~= words);
                assert(words.push(cur).flatten_alt() + Seq::<char>::empty() =~= words.flatten_alt()
                    + cur);
            }
        } else {
            assert(words.flatten_alt() + cur.push(s.last()) =~= (words.flatten_alt() + cur).push(
                s.last(),
            ));
        }
    } else {
        assert(Seq::<Seq<char>>::empty().flatten_alt() + Seq::<char>::empty() =~= s.filter(
            not_white_space(),
        ));
    }
}

/// The words cover the text: put together, they are its characters other than
/// white space, in order; and there is one word for each place where a word
/// starts, so that two words are always parted by white space.
pub proof fn lemma_whitespace_words_cover(s: Seq<char>)
    ensures
        whitespace_words(s).flatten() == s.filter(not_white_space()),
        whitespace_words(s).len() == word_start_count(s),
{
    lemma_split_state_covers(s);
    let (words, cur) = split_state(s);
    let ws = whitespace_words(s);
    ws.lemma_flatten_and_flatten_alt_are_equivalent();
    if cur.len() > 0 {
        assert(words.push(cur).drop_last() =~= words);
    } else {
        assert(words.flatten_alt() + cur =~= words.flatten_alt());
    }
}

proof fn lemma_split_state_append(s1: Seq<char>, s2: Seq<char>)
    requires
        s1.len() == 0 || is_white_space(s1.last()),
    ensures
        split_state(s1 + s2) == (whitespace_words(s1) + split_state(s2).0, split_state(s2).1),
    decreases s2.len(),
{
    if s2.len() > 0 {
        assert((s1 + s2).drop_last() =~= s1 + s2.drop_last());
        assert((s1 + s2).last() == s2.last());
        lemma_split_state_append(s1, s2.drop_last());
        let (w2, c2) = split_state(s2.drop_last());
        assert((whitespace_words(s1) + w2).push(c2) =~= whitespace_words(s1) + w2.push(c2));
    } else {
        assert(s1 + s2 =~= s1);
        assert(whitespace_words(s1) + Seq::<Seq<char>>::empty() =~= whitespace_words(s1));
        if s1.len() > 0 {
            let (w, c) = split_state(s1.drop_last());
            if c.len() > 0 {
                assert(split_state(s1).1 =~= Seq::<char>::empty());
            }
        }
    }
}

/// Text that is empty or ends with white space splits into words apart from what
/// follows it: the words of the two texts put together are the words of the
/// first, then those of the second.
pub proof fn lemma_whitespace_words_append(s1: Seq<char>, s2: Seq<char>)
    requires
        s1.len() == 0 || is_white_space(s1.last()),
    ensures
        whitespace_words(s1 + s2) == whitespace_words(s1) + whitespace_words(s2),
{
    lemma_split_state_append(s1, s2);
    let (w2, c2) = split_state(s2);
    if c2.len() > 0 {
        assert((whitespace_words(s1) + w2).push(c2) =~= whitespace_words(s1) + w2.push(c2));
    }
}

/// `str::split_whitespace`, collected.
pub fn split_whitespace(s: &str) -> (words: Vec<String>)
    ensures
        views(words@) == whitespace_words(s@),
{
    let cs = chars_of(s);
    let n = cs.len();
    let mut words: Vec<String> = Vec::new();
    let mut start: usize = 0;
    let mut in_word = false;
    let mut i: usize = 0;
    while i < n
        invariant
            cs@ == s@,
            n == cs.len(),
            i <= n,
            start <= i,
            in_word ==> start < i,
            views(words@) == split_state(s@.take(i as int)).0,
            split_state(s@.take(i as int)).1 == (if in_word {
                s@.subrange(start as int, i as int)
            } else {
                Seq::<char>::empty()
            }),
        decreases n - i,
    {
        let c = cs[i];
        assert(s@.take(i + 1).drop_last() =~= s@.take(i as int));
        assert(s@.take(i + 1).last() == c);
        if char_is_whitespace(c) {
            if in_word {
                let w = s.substring_char(start, i).to_owned();
                words.push(w);
                in_word = false;
                assert(views(words@) =~= split_state(s@.take(i + 1)).0);
            }
        } else {
            if !in_word {
                in_word = true;
                start = i;
            }
            assert(s@.subrange(start as int, i + 1) =~= split_state(s@.take(i as int)).1.push(c));
        }
        i = i + 1;
    }
    assert(s@.take(n as int) =~= s@);
    if in_word {
        let w = s.substring_char(start, n).to_owned();
        words.push(w);
        assert(views(words@) =~= whitespace_words(s@));
    }
    words
}

/// Drop non-alphanumeric characters from the front.
pub open spec fn trim_start_non_alnum(s: Seq<char>) -> Seq<char>
    decreases s.len(),
{
    if s.len() > 0 && !unicode_alphanumeric(s[0]) {
        trim_start_non_alnum(s.drop_first())
    } else {
        s
    }
}

/// Drop non-alphanumeric characters from the back.
pub open spec fn trim_end_non_alnum(s: Seq<char>) -> Seq<char>
    decreases s.len(),
{
    if s.len() > 0 && !unicode_alphanumeric(s.last()) {
        trim_end_non_alnum(s.drop_last())
    } else {
        s
    }
}

/// `str::trim_matches(|c| !c.is_alphanumeric())`.
pub open spec fn trim_non_alnum(s: Seq<char>) -> Seq<char> {
    trim_end_non_alnum(trim_start_non_alnum(s))
}

/// What `normalize_word` makes of a word.
pub open spec fn normalized(w: Seq<char>) -> Seq<char> {
    unicode_lowercase(trim_non_alnum(w))
}

proof fn lemma_trim_start_at(s: Seq<char>, a: int)
    requires
        0 <= a <= s.len(),
        forall|j: int| 0 <= j < a ==> !unicode_alphanumeric(#[trigger] s[j]),
        a == s.len() || unicode_alphanumeric(s[a]),
    ensures
        trim_start_non_alnum(s) == s.subrange(a, s.len() as int),
    decreases a,
{
    if a == 0 {
        assert(s.subrange(0, s.len() as int) =~= s);
        if s.len() > 0 {
            assert(unicode_alphanumeric(s[0]));
        }
    } else {
        assert(!unicode_alphanumeric(s[0]));
        let t = s.drop_first();
        assert forall|j: int| 0 <= j < a - 1 implies !unicode_alphanumeric(#[trigger] t[j]) by {
            assert(t[j] == s[j + 1]);
        }
        if a < s.len() {
            assert(t[a - 1] == s[a]);
        }
        lemma_trim_start_at(t, a - 1);
        assert(t.subrange(a - 1, t.len() as int) =~= s.subrange(a, s.len() as int));
    }
}

proof fn lemma_trim_end_at(t: Seq<char>, b: int)
    requires
        0 <= b <= t.len(),
        forall|j: int| b <= j < t.len() ==> !unicode_alphanumeric(#[trigger] t[j]),
        b == 0 || unicode_alphanumeric(t[b - 1]),
    ensures
        trim_end_non_alnum(t) == t.subrange(0, b),
    decreases t.len() - b,
{
    if b == t.len() {
        assert(t.subrange(0, b) =~= t);
        if t.len() > 0 {
            assert(unicode_alphanumeric(t.last()));
        }
    } else {
        assert(!unicode_alphanumeric(t.last()));
        let u = t.drop_last();
        assert forall|j: int| b <= j < u.len() implies !unicode_alphanumeric(#[trigger] u[j]) by {
            assert(u[j] == t[j]);
        }
        if b > 0 {
            assert(u[b - 1] == t[b - 1]);
        }
        lemma_trim_end_at(u, b);
        assert(u.subrange(0, b) =~= t.subrange(0, b));
    }
}

proof fn lemma_trim_start_shape(s: Seq<char>)
    ensures
        trim_start_non_alnum(s).len() <= s.len(),
        trim_start_non_alnum(s) == s.subrange(
            s.len() - trim_start_non_alnum(s).len(),
            s.len() as int,
        ),
        trim_start_non_alnum(s).len() == 0 || unicode_alphanumeric(trim_start_non_alnum(s)[0]),
    decreases s.len(),
{
    if s.len() > 0 && !unicode_alphanumeric(s[0]) {
        lemma_trim_start_shape(s.drop_first());
        let t = trim_start_non_alnum(s.drop_first());
        assert(s.drop_first().subrange(s.len() - 1 - t.len(), s.len() - 1) =~= s.subrange(
            s.len() - t.len(),
            s.len() as int,
        ));
    } else {
        assert(s.subrange(0, s.len() as int) =~= s);
    }
}

proof fn lemma_trim_end_shape(t: Seq<char>)
    ensures
        trim_end_non_alnum(t).len() <= t.len(),
        trim_end_non_alnum(t) == t.subrange(0, trim_end_non_alnum(t).len() as int),
        trim_end_non_alnum(t).len() == 0 || unicode_alphanumeric(trim_end_non_alnum(t).last()),
    decreases t.len(),
{
    if t.len() > 0 && !unicode_alphanumeric(t.last()) {
        lemma_trim_end_shape(t.drop_last());
        let u = trim_end_non_alnum(t.drop_last());
        assert(t.drop_last().subrange(0, u.len() as int) =~= t.subrange(0, u.len() as int));
    } else {
        assert(t.subrange(0, t.len() as int) =~= t);
    }
}

/// Trimming keeps a contiguous part of the word, which is empty or begins and
/// ends with a letter or digit.
pub proof fn lemma_trimmed_word_bounds(w: Seq<char>)
    ensures
        exists|a: int, b: int|
            0 <= a <= b <= w.len() && trim_non_alnum(w) == #[trigger] w.subrange(a, b),
        trim_non_alnum(w).len() == 0 || (unicode_alphanumeric(trim_non_alnum(w)[0])
            && unicode_alphanumeric(trim_non_alnum(w).last())),
{
    lemma_trim_start_shape(w);
    let t = trim_start_non_alnum(w);
    lemma_trim_end_shape(t);
    let u = trim_end_non_alnum(t);
    let a = w.len() - t.len();
    assert(u =~= w.subrange(a, a + u.len()));
    if u.len() > 0 {
        assert(u[0] == t[0]);
    }
}

/// Strips the characters that are not letters or digits from both ends of a
/// word and lowercases what remains.
pub fn normalize_word(word: &str) -> (r: String)
    ensures
        r@ == normalized(word@),
{
    let cs = chars_of(word);
    let n = cs.len();
    let mut a: usize = 0;
    while a < n && !char_is_alphanumeric(cs[a])
        invariant
            cs@ == word@,
            n == cs.len(),
            a <= n,
            forall|j: int| 0 <= j < a ==> !unicode_alphanumeric(#[trigger] word@[j]),
        decreases n - a,
    {
        a = a + 1;
    }
    let mut b: usize = n;
    while b > a && !char_is_alphanumeric(cs[b - 1])
        invariant
            cs@ == word@,
            n == cs.len(),
            a <= b <= n,
            forall|j: int| b <= j < n ==> !unicode_alphanumeric(#[trigger] word@[j]),
        decreases b - a,
    {
        b = b - 1;
    }
    proof {
        lemma_trim_start_at(word@, a as int);
        let t = word@.subrange(a as int, n as int);
        assert forall|j: int| b - a <= j < t.len() implies !unicode_alphanumeric(#[trigger] t[j]) by {
            assert(t[j] == word@[a + j]);
        }
        if b > a {
            assert(t[b - a - 1] == word@[b - 1]);
        } else if a < n {
            assert(unicode_alphanumeric(word@[a as int]));
            assert(false);
        }
        lemma_trim_end_at(t, b - a);
        assert(t.subrange(0, b - a) =~= word@.subrange(a as int, b as int));
    }
    let trimmed = word.substring_char(a, b);
    str_to_lowercase(trimmed)
}

/// The words that the word-count mapper emits for the raw words of a line:
/// each normalized, the empty ones left out.
pub open spec fn counted_words(ws: Seq<Seq<char>>) -> Seq<Seq<char>>
    decreases ws.len(),
{
    if ws.len() == 0 {
        Seq::empty()
    } else {
        let prev = counted_words(ws.drop_last());
        let w = normalized(ws.last());
        if w.len() > 0 {
            prev.push(w)
        } else {
            prev
        }
    }
}

/// A word that normalizes to something is the lowercase of the part of it from
/// its first letter or digit to its last; the characters before and after that
/// part are not letters or digits.
pub proof fn lemma_normalized_is_lowercased_core(w: Seq<char>)
    ensures
        exists|a: int, b: int|
            0 <= a <= b <= w.len() && (forall|j: int|
                0 <= j < a ==> !unicode_alphanumeric(#[trigger] w[j])) && (forall|j: int|
                b <= j < w.len() ==> !unicode_alphanumeric(#[trigger] w[j])) && (a < b
                ==> unicode_alphanumeric(w[a]) && unicode_alphanumeric(w[b - 1])) && normalized(w)
                == unicode_lowercase(#[trigger] w.subrange(a, b)),
{
    lemma_trim_start_shape(w);
    let t = trim_start_non_alnum(w);
    lemma_trim_end_shape(t);
    let u = trim_end_non_alnum(t);
    let a = w.len() - t.len();
    let b = a + u.len();
    assert(u =~= w.subrange(a, b));
    lemma_trim_start_prefix(w);
    lemma_trim_end_suffix(t);
    assert forall|j: int| b <= j < w.len() implies !unicode_alphanumeric(#[trigger] w[j]) by {
        assert(w[j] == t[j - a]);
    }
    if a < b {
        assert(u[0] == w[a]);
        assert(u.last() == w[b - 1]);
    }
}

proof fn lemma_trim_start_prefix(s: Seq<char>)
    ensures
        forall|j: int|
            0 <= j < s.len() - trim_start_non_alnum(s).len() ==> !unicode_alphanumeric(#[trigger] s[j]),
    decreases s.len(),
{
    if s.len() > 0 && !unicode_alphanumeric(s[0]) {
        lemma_trim_start_prefix(s.drop_first());
        assert forall|j: int|
            0 <= j < s.len() - trim_start_non_alnum(s).len() implies !unicode_alphanumeric(
            #[trigger] s[j],
        ) by {
            if j > 0 {
                assert(s[j] == s.drop_first()[j - 1]);
            }
        }
    }
}

proof fn lemma_trim_end_suffix(t: Seq<char>)
    ensures
        forall|j: int|
            trim_end_non_alnum(t).len() <= j < t.len() ==> !unicode_alphanumeric(#[trigger] t[j]),
    decreases t.len(),
{
    if t.len() > 0 && !unicode_alphanumeric(t.last()) {
        lemma_trim_end_suffix(t.drop_last());
        assert forall|j: int| trim_end_non_alnum(t).len() <= j < t.len() implies !unicode_alphanumeric(
            #[trigger] t[j],
        ) by {
            if j < t.len() - 1 {
                assert(t[j] == t.drop_last()[j]);
            }
        }
    }
}

/// Whether a word is not empty.
pub open spec fn non_empty_word() -> spec_fn(Seq<char>) -> bool {
    |w: Seq<char>| w.len() > 0
}

/// The counted words are exactly the normalized words that are not empty, in
/// order.
pub proof fn lemma_counted_words_are_nonempty_normalized(ws: Seq<Seq<char>>)
    ensures
        counted_words(ws) == ws.map_values(|w: Seq<char>| normalized(w)).filter(non_empty_word()),
    decreases ws.len(),
{
    reveal(Seq::filter);
    if ws.len() > 0 {
        lemma_counted_words_are_nonempty_normalized(ws.drop_last());
        assert(ws.map_values(|w: Seq<char>| normalized(w)).drop_last() =~= ws.drop_last().map_values(
            |w: Seq<char>| normalized(w),
        ));
    } else {
        assert(ws.map_values(|w: Seq<char>| normalized(w)).filter(non_empty_word()) =~= Seq::<
            Seq<char>,
        >::empty());
    }
}

/// One more raw word adds its normalized form to the counted words when that is
/// not empty, and nothing otherwise.
pub proof fn lemma_counted_words_push(ws: Seq<Seq<char>>, w: Seq<char>)
    ensures
        counted_words(ws.push(w)) == if normalized(w).len() > 0 {
            counted_words(ws).push(normalized(w))
        } else {
            counted_words(ws)
        },
{
    assert(ws.push(w).drop_last() =~= ws);
}

/// The views of key/value pairs.
pub open spec fn pair_views(s: Seq<(Key, Value)>) -> Seq<(Seq<char>, Seq<char>)> {
    s.map_values(|e: (Key, Value)| (e.0@, e.1@))
}

/// What the word-count mapper emits for a line: each counted word with the count `"1"`.
pub open spec fn word_count_emission(line: Seq<char>) -> Seq<(Seq<char>, Seq<char>)> {
    counted_words(whitespace_words(line)).map_values(|w: Seq<char>| (w, "1"@))
}

/// The pairs that the word-count mapper emits for a line: each counted word with `"1"`.
pub fn word_count_pairs(line: &str) -> (r: Vec<(Key, Value)>)
    ensures
        pair_views(r@) == word_count_emission(line@),
{
    let words = split_whitespace(line);
    let ghost ws = whitespace_words(line@);
    let mut r: Vec<(Key, Value)> = Vec::new();
    let mut i: usize = 0;
    while i < words.len()
        invariant
            views(words@) == ws,
            ws == whitespace_words(line@),
            i <= words.len(),
            r@.len() == counted_words(ws.take(i as int)).len(),
            forall|j: int|
                0 <= j < r@.len() ==> (#[trigger] r@[j]).0@ == counted_words(ws.take(i as int))[j]
                    && r@[j].1@ == "1"@,
        decreases words.len() - i,
    {
        let w = normalize_word(words[i].as_str());
        assert(ws.take(i + 1).drop_last() =~= ws.take(i as int));
        assert(ws.take(i + 1).last() == words@[i as int]@);
        if !w.as_str().is_empty() {
            r.push((w, text("1")));
        }
        i = i + 1;
    }
    assert(ws.take(words.len() as int) =~= ws);
    assert(pair_views(r@) =~= word_count_emission(line@));
    r
}

/// The outcome of adding up the counts of a word.
pub enum Tally {
    Total(u64),
    NotNumeric,
    Overflow,
}

/// A count that `str::parse::<u64>` accepts.
pub open spec fn count_ok(v: Seq<char>) -> bool {
    is_unsigned_literal(v) && unsigned_literal_value(v) <= u64::MAX
}

/// Adding up counts from the left: the first value that is not a `u64` count,
/// or the first partial sum beyond `u64::MAX`, ends the tally.
pub open spec fn tally(vals: Seq<Seq<char>>) -> Tally
    decreases vals.len(),
{
    if vals.len() == 0 {
        Tally::Total(0)
    } else {
        match tally(vals.drop_last()) {
            Tally::Total(t) => if !count_ok(vals.last()) {
                Tally::NotNumeric
            } else if t + unsigned_literal_value(vals.last()) > u64::MAX {
                Tally::Overflow
            } else {
                Tally::Total((t + unsigned_literal_value(vals.last())) as u64)
            },
            other => other,
        }
    }
}

pub open spec fn not_numeric_message(key: Seq<char>) -> Seq<char> {
    "word-count reducer expected numeric value for key "@ + key
}

pub open spec fn overflow_message(key: Seq<char>) -> Seq<char> {
    "word-count reducer count overflowed for key "@ + key
}

/// What `sum_counts` returns for the tally of a word's values.
pub open spec fn tally_result(key: Seq<char>, vals: Seq<Seq<char>>, r: Result<u64, MapReduceError>) -> bool {
    match tally(vals) {
        Tally::Total(t) => r == Ok::<u64, MapReduceError>(t),
        Tally::NotNumeric => r matches Err(MapReduceError::Reduce(m)) && m@ == not_numeric_message(key),
        Tally::Overflow => r matches Err(MapReduceError::Reduce(m)) && m@ == overflow_message(key),
    }
}

/// Adds up the counts of one word.
pub fn sum_counts(key: &str, values: &Vec<Value>) -> (r: Result<u64, MapReduceError>)
    ensures
        tally_result(key@, views(values@), r),
{
    let ghost vals = views(values@);
    let mut count: u64 = 0;
    let mut i: usize = 0;
    while i < values.len()
        invariant
            vals == views(values@),
            i <= values.len(),
            tally(vals.take(i as int)) == Tally::Total(count),
        decreases values.len() - i,
    {
        assert(vals.take(i + 1).drop_last() =~= vals.take(i as int));
        assert(vals.take(i + 1).last() == values@[i as int]@);
        match parse_u64(values[i].as_str()) {
            None => {
                assert(tally(vals) == Tally::NotNumeric) by {
                    lemma_tally_stops(vals, i as int + 1);
                }
                return Err(
                    MapReduceError::Reduce(
                        text("word-count reducer expected numeric value for key ").concat(key),
                    ),
                );
            },
            Some(v) => {
                if v > u64::MAX - count {
                    assert(tally(vals) == Tally::Overflow) by {
                        lemma_tally_stops(vals, i as int + 1);
                    }
                    return Err(
                        MapReduceError::Reduce(
                            text("word-count reducer count overflowed for key ").concat(key),
                        ),
                    );
                }
                count = count + v;
            },
        }
        i = i + 1;
    }
    assert(vals.take(values.len() as int) =~= vals);
    Ok(count)
}

/// Once the tally of a prefix has stopped, the tally of the whole is the same.
proof fn lemma_tally_stops(vals: Seq<Seq<char>>, i: int)
    requires
        0 <= i <= vals.len(),
        !(tally(vals.take(i)) is Total),
    ensures
        tally(vals) == tally(vals.take(i)),
    decreases vals.len() - i,
{
    if i < vals.len() {
        assert(vals.take(i + 1).drop_last() =~= vals.take(i));
        lemma_tally_stops(vals, i + 1);
    } else {
        assert(vals.take(i) =~= vals);
    }
}

/// Emits `(word, "1")` for each normalized, non-empty word of a line.
pub struct WordCountMapper;

/// Emits each word with the sum of its counts.
pub struct WordCountReducer;

impl Mapper for WordCountMapper {
    open spec fn map_allows(
        &self,
        record: InputRecord,
        before: Seq<(Key, Value)>,
        after: Seq<(Key, Value)>,
        r: Result<(), MapReduceError>,
    ) -> bool {
        &&& r is Ok
        &&& pair_views(after) == pair_views(before) + word_count_emission(record.value@)
    }

    fn map(&self, record: InputRecord, emitter: &mut VecEmitter) -> (r: Result<(), MapReduceError>)
        ensures
            r is Ok,
            pair_views(final(emitter)@) == pair_views(old(emitter)@) + word_count_emission(
                record.value@,
            ),
    {
        let ghost before = emitter@;
        let pairs = word_count_pairs(record.value.as_str());
        let ghost ps = pairs@;
        for pair in it: pairs.into_iter()
            invariant
                it.seq() == ps,
                emitter@ == before + ps.take(it.index() as int),
        {
            let ghost i = it.index() as int;
            assert(ps.take(i + 1) =~= ps.take(i).push(pair));
            emitter.emit(pair.0, pair.1);
        }
        assert(ps.take(ps.len() as int) =~= ps);
        assert(pair_views(before + ps) =~= pair_views(before) + pair_views(ps));
        Ok(())
    }
}

/// The line that the word-count reducer emits for a word whose counts add up to `total`.
pub open spec fn count_line(key: Seq<char>, total: u64) -> (Seq<char>, Seq<char>) {
    (key, decimal_digits(total as nat))
}

impl Reducer for WordCountReducer {
    open spec fn reduce_allows(
        &self,
        key: Key,
        values: Seq<Value>,
        before: Seq<(Key, Value)>,
        after: Seq<(Key, Value)>,
        r: Result<(), MapReduceError>,
    ) -> bool {
        &&& (r is Ok) <==> (tally(views(values)) is Total)
        &&& tally(views(values)) matches Tally::Total(t) ==> pair_views(after) == pair_views(
            before,
        ).push(count_line(key@, t))
        &&& tally(views(values)) is NotNumeric ==> (r matches Err(MapReduceError::Reduce(m))
            && m@ == not_numeric_message(key@))
        &&& tally(views(values)) is Overflow ==> (r matches Err(MapReduceError::Reduce(m))
            && m@ == overflow_message(key@))
        &&& r is Err ==> after == before
    }

    fn reduce(&self, key: Key, values: Vec<Value>, emitter: &mut VecEmitter) -> (r: Result<
        (),
        MapReduceError,
    >)
        ensures
            (r is Ok) <==> (tally(views(values@)) is Total),
            tally(views(values@)) matches Tally::Total(t) ==> pair_views(final(emitter)@)
                == pair_views(old(emitter)@).push(count_line(key@, t)),
            tally(views(values@)) is NotNumeric ==> (r matches Err(MapReduceError::Reduce(m))
                && m@ == not_numeric_message(key@)),
            tally(views(values@)) is Overflow ==> (r matches Err(MapReduceError::Reduce(m))
                && m@ == overflow_message(key@)),
            r is Err ==> final(emitter)@ == old(emitter)@,
    {
        match sum_counts(key.as_str(), &values) {
            Ok(count) => {
                let ghost before = emitter@;
                emitter.emit(key, u64_to_string(count));
                assert(pair_views(emitter@) =~= pair_views(before).push(count_line(key@, count)));
                Ok(())
            },
            Err(e) => Err(e),
        }
    }
}

/// When every value is the count `"1"`, as the word-count mapper emits, the
/// reducer's total is the number of values: the number of occurrences of the word.
pub proof fn lemma_ones_add_up_to_occurrences(vals: Seq<Seq<char>>)
    requires
        forall|i: int| 0 <= i < vals.len() ==> #[trigger] vals[i] == "1"@,
        vals.len() <= u64::MAX,
    ensures
        tally(vals) == Tally::Total(vals.len() as u64),
    decreases vals.len(),
{
    if vals.len() > 0 {
        lemma_ones_add_up_to_occurrences(vals.drop_last());
        let one = vals.last();
        assert(one == "1"@);
        reveal_strlit("1");
        assert(one =~= seq!['1']);
        assert(unsigned_digits(one) == one);
        assert(decimal_value(one.drop_last()) == 0) by {
            assert(one.drop_last().len() == 0);
        }
        assert(unsigned_literal_value(one) == 1);
    }
}

} // verus!
