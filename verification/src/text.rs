//! Text as a sequence of characters: the few string operations that the other
//! modules are built from, each with its meaning stated over `Seq<char>`.
use vstd::prelude::*;
use vstd::string::*;

verus! {

/// The characters with the Unicode property `White_Space`.
pub open spec fn is_white(c: char) -> bool {
    ||| '\u{9}' <= c <= '\u{d}'
    ||| c == '\u{20}'
    ||| c == '\u{85}'
    ||| c == '\u{a0}'
    ||| c == '\u{1680}'
    ||| '\u{2000}' <= c <= '\u{200a}'
    ||| c == '\u{2028}'
    ||| c == '\u{2029}'
    ||| c == '\u{202f}'
    ||| c == '\u{205f}'
    ||| c == '\u{3000}'
}

/// `s` from its first character that is not white space on.
pub open spec fn trimmed_front(s: Seq<char>) -> Seq<char>
    decreases s.len(),
{
    if s.len() > 0 && is_white(s[0]) {
        trimmed_front(s.drop_first())
    } else {
        s
    }
}

/// `s` up to its last character that is not white space.
pub open spec fn trimmed_back(s: Seq<char>) -> Seq<char>
    decreases s.len(),
{
    if s.len() > 0 && is_white(s.last()) {
        trimmed_back(s.drop_last())
    } else {
        s
    }
}

/// `s` without the white space at both of its ends.
pub open spec fn trimmed(s: Seq<char>) -> Seq<char> {
    trimmed_back(trimmed_front(s))
}

/// `str::trim`: what is left of a string when the white space at both ends is
/// taken away, white space being the Unicode property of that name.
pub assume_specification[ str::trim ](s: &str) -> (r: &str)
    ensures
        r@ == trimmed(s@),
;

/// `String::push` appends one character.
pub assume_specification[ String::push ](s: &mut String, c: char)
    ensures
        final(s)@ == old(s)@.push(c),
;

/// White space only.
pub open spec fn all_white(s: Seq<char>) -> bool {
    forall|i: int| 0 <= i < s.len() ==> is_white(#[trigger] s[i])
}

proof fn lemma_trim_white_front(space: Seq<char>, s: Seq<char>)
    requires
        all_white(space),
    ensures
        trimmed_front(space + s) == trimmed_front(s),
    decreases space.len(),
{
    if space.len() == 0 {
        assert(space + s =~= s);
    } else {
        let rest = space.drop_first();
        assert forall|i: int| 0 <= i < rest.len() implies is_white(#[trigger] rest[i]) by {
            assert(rest[i] == space[i + 1]);
        }
        lemma_trim_white_front(rest, s);
        assert((space + s).drop_first() =~= rest + s);
        assert(is_white(space[0]));
    }
}

proof fn lemma_trim_white_back(s: Seq<char>, space: Seq<char>)
    requires
        all_white(space),
    ensures
        trimmed_back(s + space) == trimmed_back(s),
    decreases space.len(),
{
    if space.len() == 0 {
        assert(s + space =~= s);
    } else {
        let rest = space.drop_last();
        assert forall|i: int| 0 <= i < rest.len() implies is_white(#[trigger] rest[i]) by {
            assert(rest[i] == space[i]);
        }
        lemma_trim_white_back(s, rest);
        assert((s + space).drop_last() =~= s + rest);
        assert(is_white(space[space.len() - 1]));
    }
}

proof fn lemma_trim_front_append(s: Seq<char>, t: Seq<char>)
    ensures
        trimmed_front(s).len() > 0 ==> trimmed_front(s + t) == trimmed_front(s) + t,
        trimmed_front(s).len() == 0 ==> all_white(s),
    decreases s.len(),
{
    if s.len() > 0 && is_white(s[0]) {
        let rest = s.drop_first();
        lemma_trim_front_append(rest, t);
        assert((s + t).drop_first() =~= rest + t);
        if trimmed_front(s).len() == 0 {
            assert forall|i: int| 0 <= i < s.len() implies is_white(#[trigger] s[i]) by {
                if i > 0 {
                    assert(s[i] == rest[i - 1]);
                }
            }
        }
    }
}

/// White space around a text makes no difference to what trimming leaves.
pub proof fn law_outer_white_space_is_ignored(before: Seq<char>, s: Seq<char>, after: Seq<char>)
    requires
        all_white(before),
        all_white(after),
    ensures
        trimmed(before + s + after) == trimmed(s),
{
    assert(before + s + after =~= before + (s + after));
    lemma_trim_white_front(before, s + after);
    lemma_trim_front_append(s, after);
    if trimmed_front(s).len() > 0 {
        lemma_trim_white_back(trimmed_front(s), after);
    } else {
        lemma_trim_white_front(s, after);
        lemma_trim_white_front(after, Seq::empty());
        assert(after + Seq::empty() =~= after);
        assert(trimmed_front(s) =~= Seq::empty());
        assert(trimmed_front(s + after) =~= Seq::empty());
    }
}

/// What trimming takes away is white space at the ends, and all of it: a text
/// that is white space around a core with other characters at both ends is
/// trimmed to that core.
pub proof fn law_trimming_leaves_the_core(before: Seq<char>, core: Seq<char>, after: Seq<char>)
    requires
        all_white(before),
        all_white(after),
        core.len() > 0 ==> !is_white(core[0]) && !is_white(core.last()),
    ensures
        trimmed(before + core + after) == core,
{
    law_outer_white_space_is_ignored(before, core, after);
}

/// Every text is white space around what trimming leaves of it.
pub proof fn law_trimming_takes_white_space_only(s: Seq<char>) -> (r: (Seq<char>, Seq<char>))
    ensures
        s == r.0 + trimmed(s) + r.1,
        all_white(r.0),
        all_white(r.1),
        trimmed(s).len() > 0 ==> !is_white(trimmed(s)[0]) && !is_white(trimmed(s).last()),
{
    let before = lemma_trimmed_front(s);
    let after = lemma_trimmed_back(trimmed_front(s));
    assert(s =~= before + trimmed(s) + after);
    (before, after)
}

proof fn lemma_trimmed_front(s: Seq<char>) -> (r: Seq<char>)
    ensures
        s == r + trimmed_front(s),
        all_white(r),
        trimmed_front(s).len() > 0 ==> !is_white(trimmed_front(s)[0]),
    decreases s.len(),
{
    if s.len() > 0 && is_white(s[0]) {
        let rest = lemma_trimmed_front(s.drop_first());
        let r = seq![s[0]] + rest;
        assert(s =~= seq![s[0]] + s.drop_first());
        assert(r + trimmed_front(s) =~= seq![s[0]] + (rest + trimmed_front(s)));
        assert forall|i: int| 0 <= i < r.len() implies is_white(#[trigger] r[i]) by {
            if i > 0 {
                assert(r[i] == rest[i - 1]);
            }
        }
        r
    } else {
        assert(s =~= Seq::empty() + s);
        Seq::empty()
    }
}

proof fn lemma_trimmed_back(s: Seq<char>) -> (r: Seq<char>)
    ensures
        s == trimmed_back(s) + r,
        all_white(r),
        trimmed_back(s).len() > 0 ==> !is_white(trimmed_back(s).last()) && trimmed_back(s)[0]
            == s[0],
    decreases s.len(),
{
    if s.len() > 0 && is_white(s.last()) {
        let rest = lemma_trimmed_back(s.drop_last());
        let r = rest.push(s.last());
        assert(s =~= s.drop_last().push(s.last()));
        assert(trimmed_back(s) + r =~= (trimmed_back(s) + rest).push(s.last()));
        assert forall|i: int| 0 <= i < r.len() implies is_white(#[trigger] r[i]) by {
            if i < rest.len() {
                assert(r[i] == rest[i]);
            }
        }
        r
    } else {
        assert(s =~= s + Seq::empty());
        Seq::empty()
    }
}

/// What an optional string holds.
pub open spec fn opt_text(s: Option<String>) -> Option<Seq<char>> {
    match s {
        Some(v) => Some(v@),
        None => None,
    }
}

/// The characters of a string, one by one.
pub fn chars_of(s: &str) -> (r: Vec<char>)
    ensures
        r@ == s@,
{
    let mut r: Vec<char> = Vec::new();
    for c in it: s.chars()
        invariant
            r@ == it.seq().take(it.index() as int),
            it.seq() == s@,
    {
        r.push(c);
    }
    r
}

/// The string made of the characters of `v` from `from` up to but not
/// including `to`.
pub fn text_between(v: &Vec<char>, from: usize, to: usize) -> (r: String)
    requires
        from <= to <= v@.len(),
    ensures
        r@ == v@.subrange(from as int, to as int),
{
    let mut r = String::new();
    let mut i: usize = from;
    while i < to
        invariant
            from <= i <= to <= v@.len(),
            r@ == v@.subrange(from as int, i as int),
        decreases to - i,
    {
        r.push(v[i]);
        i += 1;
        assert(v@.subrange(from as int, i as int) =~= v@.subrange(from as int, i - 1).push(
            v@[i - 1],
        ));
    }
    r
}

/// Whether two strings hold the same characters.
pub fn same_text(a: &str, b: &str) -> (r: bool)
    ensures
        r == (a@ == b@),
{
    a.to_owned() == b.to_owned()
}

/// What `str::to_lowercase` makes of a string.
pub uninterp spec fn lowercase_of(s: Seq<char>) -> Seq<char>;

/// A letter from `A` to `Z` in lower case, any other character as it is.
pub open spec fn ascii_lower(c: char) -> char {
    if 'A' <= c <= 'Z' {
        ((c as u32) + 32) as char
    } else {
        c
    }
}

/// ASCII text with its letters in lower case.
pub open spec fn ascii_lowercase(s: Seq<char>) -> Seq<char> {
    s.map_values(|c: char| ascii_lower(c))
}

/// Two texts differ in the case of ASCII letters only.
pub open spec fn same_but_case(a: Seq<char>, b: Seq<char>) -> bool {
    a.len() == b.len() && forall|i: int|
        0 <= i < a.len() ==> ascii_lower(#[trigger] a[i]) == ascii_lower(b[i])
}

proof fn lemma_case_survives_trimming(a: Seq<char>, b: Seq<char>)
    requires
        same_but_case(a, b),
    ensures
        same_but_case(trimmed_front(a), trimmed_front(b)),
        same_but_case(trimmed_back(a), trimmed_back(b)),
    decreases a.len(),
{
    if a.len() > 0 {
        let n = a.len() - 1;
        assert(ascii_lower(a[0]) == ascii_lower(b[0]));
        assert(ascii_lower(a[n]) == ascii_lower(b[n]));
        let (a1, b1) = (a.drop_first(), b.drop_first());
        assert forall|i: int| 0 <= i < a1.len() implies ascii_lower(#[trigger] a1[i])
            == ascii_lower(b1[i]) by {
            assert(ascii_lower(a[i + 1]) == ascii_lower(b[i + 1]));
        }
        lemma_case_survives_trimming(a1, b1);
        let (a2, b2) = (a.drop_last(), b.drop_last());
        assert forall|i: int| 0 <= i < a2.len() implies ascii_lower(#[trigger] a2[i])
            == ascii_lower(b2[i]) by {
            assert(ascii_lower(a[i]) == ascii_lower(b[i]));
        }
        lemma_case_survives_trimming(a2, b2);
    }
}

/// Texts that differ only in the case of ASCII letters do so when trimmed.
pub proof fn law_case_survives_trimming(a: Seq<char>, b: Seq<char>)
    requires
        same_but_case(a, b),
    ensures
        same_but_case(trimmed(a), trimmed(b)),
{
    lemma_case_survives_trimming(a, b);
    lemma_case_survives_trimming(trimmed_front(a), trimmed_front(b));
}

/// `str::to_lowercase`: a function of the string, named; on ASCII text it maps
/// `A` to `Z` to `a` to `z` and changes nothing else. It lowers case as Unicode
/// defines it: by the character, and for the letter sigma by whether letters
/// stand before and behind it, of either case. So texts that differ only in the
/// case of ASCII letters have one lower case.
pub assume_specification[ str::to_lowercase ](s: &str) -> (r: String)
    ensures
        r@ == lowercase_of(s@),
        is_ascii(s) ==> r@ == ascii_lowercase(s@),
        forall|t: Seq<char>| same_but_case(t, s@) ==> #[trigger] lowercase_of(t) == r@,
;

/// An ASCII letter.
pub open spec fn is_letter(c: char) -> bool {
    'a' <= c <= 'z' || 'A' <= c <= 'Z'
}

/// Two ASCII letters, as ISO 639-1 has them.
pub open spec fn is_language_code(s: Seq<char>) -> bool {
    s.len() == 2 && is_letter(s[0]) && is_letter(s[1])
}

/// Whether `s` is two ASCII letters.
pub fn is_two_letters(s: &str) -> (r: bool)
    ensures
        r == is_language_code(s@),
        r == (s@.len() == 2 && forall|i: int|
            0 <= i < 2 ==> 'a' <= #[trigger] s@[i] <= 'z' || 'A' <= s@[i] <= 'Z'),
{
    let v = chars_of(s);
    v.len() == 2 && is_ascii_letter(v[0]) && is_ascii_letter(v[1])
}

fn is_ascii_letter(c: char) -> (r: bool)
    ensures
        r == is_letter(c),
{
    ('a' <= c && c <= 'z') || ('A' <= c && c <= 'Z')
}

/// The decimal digit of a number below ten.
pub open spec fn digit(n: nat) -> char {
    ((48 + n) as u32) as char
}

/// A number in decimal notation.
pub open spec fn decimal(n: nat) -> Seq<char>
    decreases n,
{
    if n < 10 {
        seq![digit(n)]
    } else {
        decimal(n / 10).push(digit(n % 10))
    }
}

/// A number in decimal notation.
pub fn decimal_text(n: u64) -> (r: String)
    ensures
        r@ == decimal(n as nat),
    decreases n,
{
    let mut r = if n < 10 {
        String::new()
    } else {
        decimal_text(n / 10)
    };
    let d: u8 = 48 + (n % 10) as u8;
    r.push(d as char);
    assert(r@ =~= decimal(n as nat));
    r
}

/// A decimal digit.
pub open spec fn is_digit(c: char) -> bool {
    '0' <= c <= '9'
}

/// The number that a row of decimal digits denotes.
pub open spec fn digits_value(s: Seq<char>) -> nat
    decreases s.len(),
{
    if s.len() == 0 {
        0
    } else {
        10 * digits_value(s.drop_last()) + ((s.last() as int) - 48) as nat
    }
}

/// Digits with at most one plus sign before them: the text of a number.
pub open spec fn digits_of(s: Seq<char>) -> Seq<char> {
    if s.len() > 0 && s[0] == '+' {
        s.drop_first()
    } else {
        s
    }
}

/// The number that a text denotes: decimal digits, at least one, a plus sign
/// before them allowed, and a value that a machine word holds.
pub open spec fn number_of(s: Seq<char>) -> Option<usize> {
    let digits = digits_of(s);
    if digits.len() > 0 && (forall|i: int| 0 <= i < digits.len() ==> is_digit(#[trigger] digits[i]))
        && digits_value(digits) <= usize::MAX {
        Some(digits_value(digits) as usize)
    } else {
        None
    }
}

proof fn lemma_digits_value_grows(s: Seq<char>, n: int)
    requires
        0 <= n <= s.len(),
        forall|i: int| 0 <= i < s.len() ==> is_digit(#[trigger] s[i]),
    ensures
        digits_value(s.take(n)) <= digits_value(s),
    decreases s.len(),
{
    if n == s.len() {
        assert(s.take(n) =~= s);
    } else {
        lemma_digits_value_grows(s.drop_last(), n);
        assert(s.drop_last().take(n) =~= s.take(n));
    }
}

/// The number that a text denotes.
pub fn parse_number(s: &str) -> (r: Option<usize>)
    ensures
        r == number_of(s@),
{
    let v = chars_of(s);
    let start: usize = if v.len() > 0 && v[0] == '+' {
        1
    } else {
        0
    };
    let ghost digits = digits_of(s@);
    assert(digits =~= v@.skip(start as int));
    if v.len() == start {
        return None;
    }
    let mut n: usize = 0;
    let mut i: usize = start;
    while i < v.len()
        invariant
            start <= i <= v@.len(),
            start < v@.len(),
            digits == v@.skip(start as int),
            digits == digits_of(s@),
            forall|j: int| 0 <= j < i - start ==> is_digit(#[trigger] digits[j]),
            n == digits_value(digits.take(i - start)),
        decreases v@.len() - i,
    {
        let c = v[i];
        assert(c == digits[i - start]);
        if !('0' <= c && c <= '9') {
            return None;
        }
        let d: usize = c as usize - 48;
        assert(digits.take(i + 1 - start).drop_last() =~= digits.take(i - start));
        assert(digits_value(digits.take(i + 1 - start)) == 10 * n + d);
        if n > (usize::MAX - d) / 10 {
            proof {
                if forall|j: int| 0 <= j < digits.len() ==> is_digit(#[trigger] digits[j]) {
                    lemma_digits_value_grows(digits, i + 1 - start);
                }
            }
            return None;
        }
        n = n * 10 + d;
        i += 1;
    }
    assert(digits.take(digits.len() as int) =~= digits);
    Some(n)
}

/// `s` without the slashes at its end.
pub open spec fn without_trailing_slashes(s: Seq<char>) -> Seq<char>
    decreases s.len(),
{
    if s.len() > 0 && s.last() == '/' {
        without_trailing_slashes(s.drop_last())
    } else {
        s
    }
}

/// `s` without the slashes at its end.
pub fn strip_trailing_slashes(s: &str) -> (r: String)
    ensures
        r@ == without_trailing_slashes(s@),
{
    let v = chars_of(s);
    let mut n: usize = v.len();
    assert(v@.take(n as int) =~= s@);
    while n > 0 && v[n - 1] == '/'
        invariant
            n <= v@.len(),
            without_trailing_slashes(v@.take(n as int)) == without_trailing_slashes(s@),
        decreases n,
    {
        n -= 1;
        assert(v@.take(n + 1).drop_last() =~= v@.take(n as int));
    }
    assert(v@.subrange(0, n as int) =~= v@.take(n as int));
    text_between(&v, 0, n)
}

/// `s` ends with `suffix`.
pub open spec fn has_suffix(s: Seq<char>, suffix: Seq<char>) -> bool {
    s.len() >= suffix.len() && s.subrange(s.len() - suffix.len(), s.len() as int) == suffix
}

/// Whether `s` ends with `suffix`.
pub fn ends_with(s: &str, suffix: &str) -> (r: bool)
    ensures
        r == has_suffix(s@, suffix@),
{
    let n = s.unicode_len();
    let k = suffix.unicode_len();
    n >= k && same_text(s.substring_char(n - k, n), suffix)
}

/// `a` comes before `b` in the order of strings: by the first character in which
/// they differ, and a beginning of a text before the text.
pub open spec fn less(a: Seq<char>, b: Seq<char>) -> bool
    decreases a.len(),
{
    if b.len() == 0 {
        false
    } else if a.len() == 0 {
        true
    } else if a[0] != b[0] {
        a[0] < b[0]
    } else {
        less(a.drop_first(), b.drop_first())
    }
}

/// The order of strings is total and strict.
pub proof fn law_less_is_total(a: Seq<char>, b: Seq<char>)
    ensures
        a == b || less(a, b) || less(b, a),
        !(less(a, b) && less(b, a)),
        a == b ==> !less(a, b),
    decreases a.len(),
{
    if a.len() == 0 || b.len() == 0 {
        assert(a.len() == 0 && b.len() == 0 ==> a =~= b);
    } else {
        law_less_is_total(a.drop_first(), b.drop_first());
        if a[0] == b[0] && a.drop_first() == b.drop_first() {
            assert(a =~= seq![a[0]] + a.drop_first());
            assert(b =~= seq![b[0]] + b.drop_first());
        }
    }
}

/// The order of strings is transitive.
pub proof fn law_less_is_transitive(a: Seq<char>, b: Seq<char>, c: Seq<char>)
    requires
        less(a, b),
        less(b, c),
    ensures
        less(a, c),
    decreases a.len(),
{
    if a.len() > 0 && b.len() > 0 && c.len() > 0 && a[0] == b[0] && b[0] == c[0] {
        law_less_is_transitive(a.drop_first(), b.drop_first(), c.drop_first());
    }
}

/// Whether `a` comes before `b`.
pub fn precedes(a: &str, b: &str) -> (r: bool)
    ensures
        r == less(a@, b@),
{
    let x = chars_of(a);
    let y = chars_of(b);
    let mut i: usize = 0;
    assert(x@.skip(0) =~= a@);
    assert(y@.skip(0) =~= b@);
    while i < x.len() && i < y.len()
        invariant
            i <= x@.len(),
            i <= y@.len(),
            less(a@, b@) == less(x@.skip(i as int), y@.skip(i as int)),
        decreases x@.len() - i,
    {
        if x[i] != y[i] {
            return x[i] < y[i];
        }
        assert(x@.skip(i as int).drop_first() =~= x@.skip(i + 1));
        assert(y@.skip(i as int).drop_first() =~= y@.skip(i + 1));
        i += 1;
    }
    i < y.len()
}

/// `pattern` stands in `s` at position `i`.
pub open spec fn occurs_at(s: Seq<char>, pattern: Seq<char>, i: int) -> bool {
    0 <= i && i + pattern.len() <= s.len() && s.subrange(i, i + pattern.len()) == pattern
}

/// `pattern` stands somewhere in `s`.
pub open spec fn occurs_in(pattern: Seq<char>, s: Seq<char>) -> bool {
    exists|i: int| #[trigger] occurs_at(s, pattern, i)
}

/// `s` with every occurrence of `pattern` replaced by `new`, found from the
/// left and without overlap.
pub open spec fn replaced(s: Seq<char>, pattern: Seq<char>, new: Seq<char>) -> Seq<char>
    decreases s.len(),
{
    if s.len() == 0 {
        s
    } else if pattern.len() > 0 && occurs_at(s, pattern, 0) {
        new + replaced(s.skip(pattern.len() as int), pattern, new)
    } else {
        seq![s[0]] + replaced(s.drop_first(), pattern, new)
    }
}

/// Whether `pattern` stands in `v` at position `at`.
fn stands_at(v: &Vec<char>, pattern: &Vec<char>, at: usize) -> (r: bool)
    requires
        at <= v@.len(),
    ensures
        r == occurs_at(v@, pattern@, at as int),
{
    if pattern.len() > v.len() - at {
        return false;
    }
    for i in 0..pattern.len()
        invariant
            at + pattern@.len() <= v@.len(),
            forall|j: int| 0 <= j < i ==> v@[at + j] == #[trigger] pattern@[j],
    {
        assert(v@.len() == v.len());
        if v[at + i] != pattern[i] {
            assert(v@.subrange(at as int, at + pattern@.len())[i as int] != pattern@[i as int]);
            return false;
        }
    }
    assert(v@.subrange(at as int, at + pattern@.len()) =~= pattern@);
    true
}

/// `s` with every occurrence of `pattern` replaced by `new`, found from the
/// left and without overlap.
pub fn replace_all(s: &str, pattern: &str, new: &str) -> (r: String)
    requires
        pattern@.len() > 0,
    ensures
        r@ == replaced(s@, pattern@, new@),
{
    let v = chars_of(s);
    let p = chars_of(pattern);
    let mut out = String::new();
    let mut i: usize = 0;
    assert(v@.skip(0) =~= s@);
    while i < v.len()
        invariant
            i <= v@.len(),
            v@ == s@,
            p@ == pattern@,
            p@.len() > 0,
            out@ + replaced(v@.skip(i as int), p@, new@) =~= replaced(s@, p@, new@),
        decreases v@.len() - i,
    {
        let ghost rest = v@.skip(i as int);
        assert(rest.subrange(0, p@.len() as int) =~= v@.subrange(i as int, i + p@.len())
            || i + p@.len() > v@.len());
        if stands_at(&v, &p, i) {
            assert(occurs_at(rest, p@, 0));
            out.append(new);
            i += p.len();
            assert(rest.skip(p@.len() as int) =~= v@.skip(i as int));
        } else {
            assert(!occurs_at(rest, p@, 0));
            out.push(v[i]);
            i += 1;
            assert(rest.drop_first() =~= v@.skip(i as int));
        }
    }
    assert(v@.skip(i as int) =~= Seq::empty());
    out
}

/// How many bytes a text takes in UTF-8.
pub open spec fn byte_len(s: Seq<char>) -> nat {
    vstd::utf8::encode_utf8(s).len()
}

/// Whether a text takes more than `max` bytes in UTF-8.
pub fn exceeds_bytes(s: &str, max: usize) -> (r: bool)
    ensures
        r == (byte_len(s@) > max),
        r == (vstd::utf8::encode_utf8(s@).len() > max),
{
    s.as_bytes().len() > max
}

/// What `{:?}` makes of a string: the string in quotes, with escapes.
pub uninterp spec fn debug_of(s: Seq<char>) -> Seq<char>;

/// `format!` with `{:?}` on a string: a function of the string, named.
#[verifier::external_body]
pub(crate) fn debug_text(s: &str) -> (r: String)
    ensures
        r@ == debug_of(s@),
{
    format!("{s:?}")
}

/// Decimal notation: digits only, at least one, no zero in front but for zero
/// itself, and the number is read back as it was.
pub proof fn law_decimal_is_read_back(n: nat)
    ensures
        decimal(n).len() > 0,
        forall|i: int| 0 <= i < decimal(n).len() ==> '0' <= #[trigger] decimal(n)[i] <= '9',
        decimal(n)[0] == '0' ==> n == 0 && decimal(n).len() == 1,
        digits_value(decimal(n)) == n,
        n <= usize::MAX ==> number_of(decimal(n)) == Some(n as usize),
    decreases n,
{
    if n < 10 {
        let one = decimal(n);
        assert(one[0] == digit(n));
        assert(one.drop_last() =~= Seq::empty());
        assert(digits_value(one.drop_last()) == 0);
        assert(one.last() as int == 48 + n);
    } else {
        law_decimal_is_read_back(n / 10);
        let front = decimal(n / 10);
        let whole = decimal(n);
        assert(whole.drop_last() =~= front);
        assert(whole.last() == digit(n % 10));
        assert(whole.last() as int == 48 + n % 10);
        assert forall|i: int| 0 <= i < whole.len() implies '0' <= #[trigger] whole[i] <= '9' by {
            if i < front.len() {
                assert(whole[i] == front[i]);
            }
        }
        assert(whole[0] == front[0]);
    }
    assert(decimal(n)[0] != '+');
}

/// The value of a row of digits goes by place, ten for one; zeros in front and a
/// plus sign in front do not matter.
pub proof fn law_numbers_go_by_place(s: Seq<char>, c: char)
    ensures
        '0' <= c <= '9' ==> digits_value(s.push(c)) == 10 * digits_value(s) + (c as int - '0' as int),
        digits_value(Seq::empty()) == 0,
        digits_value(seq!['0'] + s) == digits_value(s),
        !(s.len() > 0 && s[0] == '+') ==> number_of(seq!['+'] + s) == number_of(s),
        !(s.len() > 0 && s[0] == '+') ==> (number_of(s) is Some <==> s.len() > 0 && digits_value(s)
            <= usize::MAX && forall|i: int| 0 <= i < s.len() ==> '0' <= #[trigger] s[i] <= '9'),
        !(s.len() > 0 && s[0] == '+') && number_of(s) is Some ==> number_of(s)->0 == digits_value(
            s,
        ),
        number_of(seq!['+', '+'] + s) is None,
    decreases s.len(),
{
    assert(s.push(c).drop_last() =~= s);
    let led = seq!['0'] + s;
    if s.len() == 0 {
        assert(led.drop_last() =~= Seq::empty());
        assert(digits_value(led.drop_last()) == 0);
    } else {
        law_numbers_go_by_place(s.drop_last(), c);
        assert(led.drop_last() =~= seq!['0'] + s.drop_last());
        assert(led.last() == s.last());
    }
    assert((seq!['+'] + s).drop_first() =~= s);
    let twice = seq!['+', '+'] + s;
    assert(twice.drop_first()[0] == '+');
    assert(!is_digit(twice.drop_first()[0]));
}

/// The slashes at the end go, all of them, and nothing else does.
pub proof fn law_trailing_slashes_go(s: Seq<char>, n: nat)
    requires
        s.len() > 0 ==> s.last() != '/',
    ensures
        without_trailing_slashes(s + Seq::new(n, |i: int| '/')) == s,
    decreases n,
{
    let whole = s + Seq::new(n, |i: int| '/');
    if n == 0 {
        assert(whole =~= s);
    } else {
        law_trailing_slashes_go(s, (n - 1) as nat);
        assert(whole.last() == '/');
        assert(whole.drop_last() =~= s + Seq::new((n - 1) as nat, |i: int| '/'));
    }
}

/// Strings are ordered by the first character in which they differ; where one is
/// the beginning of the other, the shorter one comes first.
pub proof fn law_order_goes_by_first_difference(
    front: Seq<char>,
    a: char,
    b: char,
    x: Seq<char>,
    y: Seq<char>,
)
    ensures
        a < b ==> less(front.push(a) + x, front.push(b) + y),
        a > b ==> !less(front.push(a) + x, front.push(b) + y),
        less(front, front.push(b) + y),
        !less(front.push(b) + y, front),
        !less(front, front),
    decreases front.len(),
{
    let l = front.push(a) + x;
    let r = front.push(b) + y;
    if front.len() > 0 {
        let rest = front.drop_first();
        law_order_goes_by_first_difference(rest, a, b, x, y);
        assert(l.drop_first() =~= rest.push(a) + x);
        assert(r.drop_first() =~= rest.push(b) + y);
        assert(l[0] == r[0] && r[0] == front[0]);
    }
}

/// The first place where a pattern stands is replaced, and the search goes on
/// behind it; where it stands nowhere, nothing changes.
pub proof fn law_replacing_goes_from_the_left(s: Seq<char>, pattern: Seq<char>, new: Seq<char>, i: int)
    requires
        pattern.len() > 0,
    ensures
        occurs_at(s, pattern, i) && (forall|j: int|
            0 <= j < i ==> !(#[trigger] occurs_at(s, pattern, j))) ==> replaced(s, pattern, new)
            == s.take(i) + new + replaced(s.skip(i + pattern.len()), pattern, new),
        (forall|j: int| !(#[trigger] occurs_at(s, pattern, j))) ==> replaced(s, pattern, new) == s,
    decreases s.len(),
{
    if s.len() > 0 {
        let rest = s.drop_first();
        assert forall|j: int| 0 <= j implies occurs_at(rest, pattern, j) == #[trigger] occurs_at(
            s,
            pattern,
            j + 1,
        ) by {
            if j + 1 + pattern.len() <= s.len() {
                assert(rest.subrange(j, j + pattern.len()) =~= s.subrange(
                    j + 1,
                    j + 1 + pattern.len(),
                ));
            }
        }
        law_replacing_goes_from_the_left(rest, pattern, new, i - 1);
        if forall|j: int| !(#[trigger] occurs_at(s, pattern, j)) {
            assert forall|j: int| !(#[trigger] occurs_at(rest, pattern, j)) by {
                if 0 <= j {
                    assert(!occurs_at(s, pattern, j + 1));
                }
            }
            assert(!occurs_at(s, pattern, 0));
            assert(replaced(s, pattern, new) =~= s);
        }
        if occurs_at(s, pattern, i) && (forall|j: int|
            0 <= j < i ==> !(#[trigger] occurs_at(s, pattern, j))) {
            if i == 0 {
                assert(s.take(0) + new =~= new);
            } else {
                assert(!occurs_at(s, pattern, 0));
                assert(occurs_at(rest, pattern, i - 1)) by {
                    assert(occurs_at(s, pattern, (i - 1) + 1));
                }
                assert forall|j: int| 0 <= j < i - 1 implies !(#[trigger] occurs_at(
                    rest,
                    pattern,
                    j,
                )) by {
                    assert(!occurs_at(s, pattern, j + 1));
                }
                assert(rest.skip(i - 1 + pattern.len()) =~= s.skip(i + pattern.len()));
                assert(seq![s[0]] + rest.take(i - 1) =~= s.take(i));
                assert(replaced(s, pattern, new) =~= s.take(i) + new + replaced(
                    s.skip(i + pattern.len()),
                    pattern,
                    new,
                ));
            }
        }
    }
}

/// What it is for one text to stand in another, or at its end.
pub proof fn law_texts_stand_where_they_were_put(
    before: Seq<char>,
    word: Seq<char>,
    after: Seq<char>,
)
    ensures
        occurs_at(before + word + after, word, before.len() as int),
        occurs_in(word, before + word + after),
        has_suffix(before + word, word),
        has_suffix(before, word) ==> exists|front: Seq<char>| #[trigger] (front + word) == before,
{
    let s = before + word + after;
    let n = before.len() as int;
    assert(s.subrange(n, n + word.len()) =~= word);
    assert(occurs_at(s, word, n));
    let t = before + word;
    assert(t.subrange(t.len() - word.len(), t.len() as int) =~= word);
    if has_suffix(before, word) {
        let front = before.take(before.len() - word.len());
        assert(front + word =~= before);
    }
}

} // verus!
