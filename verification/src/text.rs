//! Character-level facts about keys, words and numbers, and the few std
//! string operations the library relies on.

use vstd::prelude::*;

verus! {

/// The Unicode `White_Space` property, which std documents as the set that
/// `char::is_whitespace` accepts.
pub open spec fn is_white_space(c: char) -> bool {
    let u = c as int;
    ||| 0x09 <= u <= 0x0D
    ||| u == 0x20
    ||| u == 0x85
    ||| u == 0xA0
    ||| u == 0x1680
    ||| 0x2000 <= u <= 0x200A
    ||| u == 0x2028
    ||| u == 0x2029
    ||| u == 0x202F
    ||| u == 0x205F
    ||| u == 0x3000
}

/// A string that is empty or holds only white space, i.e. one whose `trim()` is empty.
pub open spec fn is_blank(s: Seq<char>) -> bool {
    forall|i: int| 0 <= i < s.len() ==> is_white_space(#[trigger] s[i])
}

/// What `char::is_alphanumeric` answers: the Unicode `Alphabetic` or `Numeric`
/// property of the character.
pub uninterp spec fn unicode_alphanumeric(c: char) -> bool;

/// What `str::to_lowercase` returns: the Unicode lowercase mapping of the string.
pub uninterp spec fn unicode_lowercase(s: Seq<char>) -> Seq<char>;

/// `'0'..='9'`.
pub open spec fn is_ascii_digit(c: char) -> bool {
    48 <= (c as int) <= 57
}

pub open spec fn digit_value(c: char) -> nat {
    ((c as int) - 48) as nat
}

pub open spec fn digit_char(d: nat) -> char {
    (48 + d) as char
}

pub open spec fn all_digits(s: Seq<char>) -> bool {
    forall|i: int| 0 <= i < s.len() ==> is_ascii_digit(#[trigger] s[i])
}

/// The number that a string of decimal digits denotes.
pub open spec fn decimal_value(s: Seq<char>) -> nat
    decreases s.len(),
{
    if s.len() == 0 {
        0
    } else {
        decimal_value(s.drop_last()) * 10 + digit_value(s.last())
    }
}

/// The digits of an unsigned integer literal: an optional leading `+` is dropped.
pub open spec fn unsigned_digits(s: Seq<char>) -> Seq<char> {
    if s.len() > 0 && s[0] == '+' {
        s.drop_first()
    } else {
        s
    }
}

/// The shape that `str::parse` accepts for an unsigned integer: an optional `+`
/// followed by at least one ASCII digit and nothing else.
pub open spec fn is_unsigned_literal(s: Seq<char>) -> bool {
    unsigned_digits(s).len() > 0 && all_digits(unsigned_digits(s))
}

pub open spec fn unsigned_literal_value(s: Seq<char>) -> nat {
    decimal_value(unsigned_digits(s))
}

/// The decimal representation that `Display` gives an unsigned integer.
pub open spec fn decimal_digits(n: nat) -> Seq<char>
    decreases n,
{
    if n < 10 {
        seq![digit_char(n)]
    } else {
        decimal_digits(n / 10).push(digit_char(n % 10))
    }
}

/// Code-point lexicographic order, the order std documents for `str` and `String`:
/// byte order of the UTF-8 encodings, which orders code points by their value.
pub open spec fn key_lt(a: Seq<char>, b: Seq<char>) -> bool
    decreases a.len(),
{
    if b.len() == 0 {
        false
    } else if a.len() == 0 {
        true
    } else if a[0] == b[0] {
        key_lt(a.drop_first(), b.drop_first())
    } else {
        (a[0] as int) < (b[0] as int)
    }
}

pub open spec fn key_le(a: Seq<char>, b: Seq<char>) -> bool {
    key_lt(a, b) || a == b
}

/// Keys that start alike are ordered by what follows: a common prefix `k` does
/// not change the order of two keys.
pub proof fn lemma_key_lt_common_prefix(k: Seq<char>, a: Seq<char>, b: Seq<char>)
    ensures
        key_lt(k + a, k + b) == key_lt(a, b),
    decreases k.len(),
{
    if k.len() > 0 {
        assert((k + a).drop_first() =~= k.drop_first() + a);
        assert((k + b).drop_first() =~= k.drop_first() + b);
        lemma_key_lt_common_prefix(k.drop_first(), a, b);
    } else {
        assert(k + a =~= a);
        assert(k + b =~= b);
    }
}

/// The empty key comes before every other key, and no key comes before it.
pub proof fn lemma_key_lt_empty(s: Seq<char>)
    ensures
        s.len() > 0 ==> key_lt(Seq::empty(), s),
        !key_lt(s, Seq::empty()),
{
}

/// Keys whose first characters differ are ordered by those characters' code
/// points, whatever their lengths.
pub proof fn lemma_key_lt_first_difference(a: Seq<char>, b: Seq<char>)
    requires
        a.len() > 0,
        b.len() > 0,
        a[0] != b[0],
    ensures
        key_lt(a, b) == ((a[0] as int) < (b[0] as int)),
{
}

/// A key comes before each of its proper extensions.
pub proof fn lemma_key_lt_prefix(k: Seq<char>, a: Seq<char>)
    requires
        a.len() > 0,
    ensures
        key_lt(k, k + a),
{
    lemma_key_lt_empty(a);
    lemma_key_lt_common_prefix(k, Seq::empty(), a);
    assert(k + Seq::<char>::empty() =~= k);
}

pub proof fn lemma_key_lt_irreflexive(a: Seq<char>)
    ensures
        !key_lt(a, a),
    decreases a.len(),
{
    if a.len() > 0 {
        lemma_key_lt_irreflexive(a.drop_first());
    }
}

pub proof fn lemma_key_lt_transitive(a: Seq<char>, b: Seq<char>, c: Seq<char>)
    requires
        key_lt(a, b),
        key_lt(b, c),
    ensures
        key_lt(a, c),
    decreases a.len(),
{
    if a.len() > 0 && b.len() > 0 && c.len() > 0 {
        if a[0] == b[0] && b[0] == c[0] {
            lemma_key_lt_transitive(a.drop_first(), b.drop_first(), c.drop_first());
        }
    }
}

pub proof fn lemma_key_lt_total(a: Seq<char>, b: Seq<char>)
    ensures
        key_lt(a, b) || key_lt(b, a) || a == b,
    decreases a.len(),
{
    if a.len() > 0 && b.len() > 0 {
        if a[0] == b[0] {
            lemma_key_lt_total(a.drop_first(), b.drop_first());
            if a.drop_first() == b.drop_first() {
                assert(a =~= seq![a[0]] + a.drop_first());
                assert(b =~= seq![b[0]] + b.drop_first());
            }
        } else {
            assert((a[0] as int) != (b[0] as int));
        }
    } else if a.len() == 0 && b.len() == 0 {
        assert(a =~= b);
    }
}

pub proof fn lemma_key_lt_asymmetric(a: Seq<char>, b: Seq<char>)
    requires
        key_lt(a, b),
    ensures
        !key_lt(b, a),
{
    if key_lt(b, a) {
        lemma_key_lt_transitive(a, b, a);
        lemma_key_lt_irreflexive(a);
    }
}

/// Whether the character has the Unicode `White_Space` property, as
/// `char::is_whitespace` answers.
pub(crate) fn char_is_whitespace(c: char) -> (r: bool)
    ensures
        r == is_white_space(c),
{
    let u = char_code(c);
    (0x09 <= u && u <= 0x0D) || u == 0x20 || u == 0x85 || u == 0xA0 || u == 0x1680 || (0x2000 <= u
        && u <= 0x200A) || u == 0x2028 || u == 0x2029 || u == 0x202F || u == 0x205F || u == 0x3000
}

/// `char::is_alphanumeric`; its answer is the Unicode property named by `unicode_alphanumeric`.
#[verifier::external_body]
pub(crate) fn char_is_alphanumeric(c: char) -> (r: bool)
    ensures
        r == unicode_alphanumeric(c),
{
    c.is_alphanumeric()
}

/// `str::to_lowercase`; the result is the mapping named by `unicode_lowercase`.
#[verifier::external_body]
pub(crate) fn str_to_lowercase(s: &str) -> (r: String)
    ensures
        r@ == unicode_lowercase(s@),
{
    s.to_lowercase()
}

/// `str::parse::<u64>`: succeeds exactly on an optional `+` followed by decimal
/// digits whose value fits in a `u64`, and then returns that value.
#[verifier::external_body]
pub(crate) fn parse_u64(s: &str) -> (r: Option<u64>)
    ensures
        r is Some <==> (is_unsigned_literal(s@) && unsigned_literal_value(s@) <= u64::MAX),
        r matches Some(v) ==> v == unsigned_literal_value(s@),
{
    s.parse::<u64>().ok()
}

/// `str::parse::<usize>`: succeeds exactly on an optional `+` followed by decimal
/// digits whose value fits in a `usize`, and then returns that value.
#[verifier::external_body]
pub(crate) fn parse_usize(s: &str) -> (r: Option<usize>)
    ensures
        r is Some <==> (is_unsigned_literal(s@) && unsigned_literal_value(s@) <= usize::MAX),
        r matches Some(v) ==> v == unsigned_literal_value(s@),
{
    s.parse::<usize>().ok()
}

/// `u64::to_string`: the decimal digits of the number.
#[verifier::external_body]
pub(crate) fn u64_to_string(n: u64) -> (r: String)
    ensures
        r@ == decimal_digits(n as nat),
{
    n.to_string()
}

/// `usize::to_string`: the decimal digits of the number.
#[verifier::external_body]
pub(crate) fn usize_to_string(n: usize) -> (r: String)
    ensures
        r@ == decimal_digits(n as nat),
{
    n.to_string()
}

/// Past a common prefix, the order of two strings is that of what follows it.
proof fn lemma_key_lt_after_common_prefix(a: Seq<char>, b: Seq<char>, i: int)
    requires
        0 <= i <= a.len(),
        i <= b.len(),
        forall|j: int| 0 <= j < i ==> a[j] == b[j],
    ensures
        key_lt(a, b) == key_lt(a.subrange(i, a.len() as int), b.subrange(i, b.len() as int)),
    decreases i,
{
    if i > 0 {
        assert forall|j: int| 0 <= j < i - 1 implies a.drop_first()[j] == b.drop_first()[j] by {
            assert(a[j + 1] == b[j + 1]);
        }
        lemma_key_lt_after_common_prefix(a.drop_first(), b.drop_first(), i - 1);
        assert(a.drop_first().subrange(i - 1, a.len() - 1) =~= a.subrange(i, a.len() as int));
        assert(b.drop_first().subrange(i - 1, b.len() - 1) =~= b.subrange(i, b.len() as int));
    } else {
        assert(a.subrange(0, a.len() as int) =~= a);
        assert(b.subrange(0, b.len() as int) =~= b);
    }
}

/// The code point of a character.
fn char_code(c: char) -> (u: u32)
    ensures
        u as int == c as int,
{
    c as u32
}

/// Whether `a` comes before `b` in code-point lexicographic order, the order of
/// `<` on `str`.
pub(crate) fn str_lt(a: &str, b: &str) -> (r: bool)
    ensures
        r == key_lt(a@, b@),
{
    let ca = chars_of(a);
    let cb = chars_of(b);
    let mut i: usize = 0;
    while i < ca.len() && i < cb.len() && ca[i] == cb[i]
        invariant
            ca@ == a@,
            cb@ == b@,
            i <= ca.len(),
            i <= cb.len(),
            forall|j: int| 0 <= j < i ==> a@[j] == b@[j],
        decreases ca.len() - i,
    {
        i = i + 1;
    }
    proof {
        lemma_key_lt_after_common_prefix(a@, b@, i as int);
    }
    let ghost ra = a@.subrange(i as int, a@.len() as int);
    let ghost rb = b@.subrange(i as int, b@.len() as int);
    if i == cb.len() {
        assert(rb.len() == 0);
        false
    } else if i == ca.len() {
        assert(ra.len() == 0);
        true
    } else {
        assert(ra[0] == ca[i as int] && rb[0] == cb[i as int]);
        assert(ca[i as int] != cb[i as int]);
        char_code(ca[i]) < char_code(cb[i])
    }
}

/// The characters of a string, in order.
pub fn chars_of(s: &str) -> (v: Vec<char>)
    ensures
        v@ == s@,
{
    let mut v: Vec<char> = Vec::new();
    for c in it: s.chars()
        invariant
            v@ == it.seq().take(it.index() as int),
            it.seq() == s@,
    {
        v.push(c);
    }
    v
}

/// A string made of literal text.
pub fn text(lit: &str) -> (r: String)
    ensures
        r@ == lit@,
{
    String::from_str(lit)
}

/// Whether every character of `s` is white space.
pub fn blank(s: &str) -> (r: bool)
    ensures
        r == is_blank(s@),
{
    let cs = chars_of(s);
    let mut i: usize = 0;
    while i < cs.len()
        invariant
            cs@ == s@,
            i <= cs.len(),
            forall|j: int| 0 <= j < i ==> is_white_space(#[trigger] s@[j]),
        decreases cs.len() - i,
    {
        if !char_is_whitespace(cs[i]) {
            return false;
        }
        i = i + 1;
    }
    true
}

} // verus!
