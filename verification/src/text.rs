//! Text as sequences of characters: the small string operations that the rest
//! of the library is written with.

use vstd::prelude::*;
use vstd::slice::slice_subrange;

verus! {

// ── Standard-library string functions ────────────────────────────────────────

/// `String::push` appends one character.
pub assume_specification[ String::push ](s: &mut String, c: char)
    ensures
        final(s)@ == old(s)@.push(c),
;

#[verifier::external_type_specification]
#[verifier::external_body]
pub struct ExUtf8Error(std::str::Utf8Error);

/// `str::from_utf8` accepts exactly the valid UTF-8 sequences and gives back
/// the text that they encode.
pub assume_specification[ std::str::from_utf8 ](v: &[u8]) -> (r: Result<
    &str,
    std::str::Utf8Error,
>)
    ensures
        r is Ok <==> vstd::utf8::valid_utf8(v@),
        r matches Ok(s) ==> vstd::utf8::encode_utf8(s@) == v@,
;

/// The Unicode lowercase form of a text, as `str::to_lowercase` computes it.
pub uninterp spec fn lowercase(s: Seq<char>) -> Seq<char>;

/// `str::to_lowercase` returns the Unicode lowercase form of the text. On
/// ASCII text this maps the letters `A` to `Z` and keeps everything else, so
/// that the result is its own lowercase form. Of other text that is unsaid.
pub assume_specification[ str::to_lowercase ](s: &str) -> (r: String)
    ensures
        r@ == lowercase(s@),
        vstd::utf8::is_ascii_chars(s@) ==> r@ == ascii_lowercase(s@),
        vstd::utf8::is_ascii_chars(s@) ==> lowercase(r@) == r@,
;

// ── Characters ───────────────────────────────────────────────────────────────

/// The characters with the Unicode property `White_Space`.
pub open spec fn is_white_space(c: char) -> bool {
    ||| 0x09 <= c as u32 <= 0x0d
    ||| c as u32 == 0x20
    ||| c as u32 == 0x85
    ||| c as u32 == 0xa0
    ||| c as u32 == 0x1680
    ||| 0x2000 <= c as u32 <= 0x200a
    ||| c as u32 == 0x2028
    ||| c as u32 == 0x2029
    ||| c as u32 == 0x202f
    ||| c as u32 == 0x205f
    ||| c as u32 == 0x3000
}

/// True when `c` is white space.
pub fn white_space(c: char) -> (r: bool)
    ensures
        r == is_white_space(c),
{
    let u: u32 = c as u32;
    (0x09 <= u && u <= 0x0d) || u == 0x20 || u == 0x85 || u == 0xa0 || u == 0x1680 || (0x2000 <= u
        && u <= 0x200a) || u == 0x2028 || u == 0x2029 || u == 0x202f || u == 0x205f || u == 0x3000
}

/// `A` to `Z` become `a` to `z`; every other character stays.
pub open spec fn ascii_lower(c: char) -> char {
    if 'A' <= c <= 'Z' {
        (c as u32 + 32) as char
    } else {
        c
    }
}

/// [`ascii_lower`] on every character.
pub open spec fn ascii_lowercase(s: Seq<char>) -> Seq<char> {
    s.map_values(|c: char| ascii_lower(c))
}

/// `a` and `b` are equal when ASCII letters are compared without case.
pub open spec fn equal_ignoring_case(a: Seq<char>, b: Seq<char>) -> bool {
    ascii_lowercase(a) == ascii_lowercase(b)
}

fn lower(c: char) -> (r: char)
    ensures
        r == ascii_lower(c),
{
    if 'A' <= c && c <= 'Z' {
        ((c as u8) + 32) as char
    } else {
        c
    }
}

// ── Conversions ──────────────────────────────────────────────────────────────

/// The characters of `s`.
pub fn chars_of(s: &str) -> (r: Vec<char>)
    ensures
        r@ == s@,
{
    let mut out: Vec<char> = Vec::new();
    for c in it: s.chars()
        invariant
            out@ == it.seq().take(it.index() as int),
            it.seq() == s@,
    {
        out.push(c);
    }
    out
}

/// The text made of `chars`.
pub fn string_of(chars: &[char]) -> (r: String)
    ensures
        r@ == chars@,
{
    let mut out: String = String::new();
    for i in 0..chars.len()
        invariant
            out@ == chars@.take(i as int),
    {
        out.push(chars[i]);
        assert(chars@.take(i + 1) == chars@.take(i as int).push(chars@[i as int]));
    }
    assert(chars@.take(chars@.len() as int) == chars@);
    out
}

/// The text that an optional string holds.
pub open spec fn opt(s: Option<String>) -> Option<Seq<char>> {
    match s {
        Some(t) => Some(t@),
        None => None,
    }
}

/// The text that an optional string slice holds.
pub open spec fn opt_str(s: Option<&str>) -> Option<Seq<char>> {
    match s {
        Some(t) => Some(t@),
        None => None,
    }
}

/// Appends `tail` to `s`.
pub fn push_text(s: &mut String, tail: &str)
    ensures
        final(s)@ == old(s)@ + tail@,
{
    s.append(tail);
}

// ── Comparisons ──────────────────────────────────────────────────────────────

/// Equality of two texts.
pub fn same(a: &[char], b: &[char]) -> (r: bool)
    ensures
        r == (a@ == b@),
{
    if a.len() != b.len() {
        return false;
    }
    for i in 0..a.len()
        invariant
            a@.len() == b@.len(),
            forall|j: int| 0 <= j < i ==> a@[j] == b@[j],
    {
        if a[i] != b[i] {
            return false;
        }
    }
    assert(a@ == b@);
    true
}

/// Equality of a text with a string.
pub fn is_text(a: &[char], b: &str) -> (r: bool)
    ensures
        r == (a@ == b@),
{
    let b: Vec<char> = chars_of(b);
    same(a, b.as_slice())
}

/// Equality of two strings.
pub fn same_text(a: &str, b: &str) -> (r: bool)
    ensures
        r == (a@ == b@),
{
    let a: Vec<char> = chars_of(a);
    is_text(a.as_slice(), b)
}

/// Equality that takes ASCII letters without case.
pub fn same_ignoring_case(a: &[char], b: &str) -> (r: bool)
    ensures
        r == equal_ignoring_case(a@, b@),
{
    let bc: Vec<char> = chars_of(b);
    let ghost la = ascii_lowercase(a@);
    let ghost lb = ascii_lowercase(bc@);
    if a.len() != bc.len() {
        assert(la.len() != lb.len());
        return false;
    }
    for i in 0..a.len()
        invariant
            a@.len() == bc@.len(),
            bc@ == b@,
            la == ascii_lowercase(a@),
            lb == ascii_lowercase(bc@),
            forall|j: int| 0 <= j < i ==> la[j] == lb[j],
    {
        if lower(a[i]) != lower(bc[i]) {
            assert(la[i as int] != lb[i as int]);
            return false;
        }
    }
    assert(la == lb);
    true
}

/// `prefix` is how `s` begins.
pub fn starts_with(s: &[char], prefix: &str) -> (r: bool)
    ensures
        r == prefix@.is_prefix_of(s@),
{
    let p: Vec<char> = chars_of(prefix);
    if p.len() > s.len() {
        return false;
    }
    same(slice_subrange(s, 0, p.len()), p.as_slice())
}

/// `s` begins with `prefix`, ASCII letters taken without case.
pub fn starts_with_ignoring_case(s: &[char], prefix: &str) -> (r: bool)
    ensures
        r == (s@.len() >= prefix@.len() && equal_ignoring_case(
            s@.take(prefix@.len() as int),
            prefix@,
        )),
{
    let p: Vec<char> = chars_of(prefix);
    if p.len() > s.len() {
        return false;
    }
    same_ignoring_case(slice_subrange(s, 0, p.len()), prefix)
}

/// `s` ends with `suffix`, ASCII letters taken without case.
pub open spec fn ends_ignoring_case(s: Seq<char>, suffix: Seq<char>) -> bool {
    s.len() >= suffix.len() && equal_ignoring_case(s.skip(s.len() - suffix.len()), suffix)
}

/// `s` ends with `suffix`, ASCII letters taken without case.
pub fn ends_with_ignoring_case(s: &[char], suffix: &str) -> (r: bool)
    ensures
        r == ends_ignoring_case(s@, suffix@),
{
    let p: Vec<char> = chars_of(suffix);
    if p.len() > s.len() {
        return false;
    }
    assert(s@.subrange(s@.len() - p@.len(), s@.len() as int) == s@.skip(s@.len() - p@.len()));
    same_ignoring_case(slice_subrange(s, s.len() - p.len(), s.len()), suffix)
}

// ── Search ───────────────────────────────────────────────────────────────────

/// The index of the first `c` in `s`.
pub fn index_of(s: &[char], c: char) -> (r: Option<usize>)
    ensures
        r is Some <==> s@.contains(c),
        s@.index_of_first(c) == (match r {
            Some(i) => Some(i as int),
            None => None,
        }),
        r matches Some(i) ==> i < s@.len() && s@[i as int] == c && forall|j: int|
            0 <= j < i ==> s@[j] != c,
{
    proof {
        s@.index_of_first_ensures(c);
    }
    for i in 0..s.len()
        invariant
            forall|j: int| 0 <= j < i ==> s@[j] != c,
            match s@.index_of_first(c) {
                Some(index) => {
                    &&& s@.contains(c)
                    &&& 0 <= index < s@.len()
                    &&& s@[index] == c
                    &&& forall|j: int| 0 <= j < index < s@.len() ==> s@[j] != c
                },
                None => { !s@.contains(c) },
            },
    {
        if s[i] == c {
            return Some(i);
        }
    }
    None
}

/// The index of the last `c` in `s`.
pub fn last_index_of(s: &[char], c: char) -> (r: Option<usize>)
    ensures
        r is Some <==> s@.contains(c),
        s@.index_of_last(c) == (match r {
            Some(i) => Some(i as int),
            None => None,
        }),
        r matches Some(i) ==> i < s@.len() && s@[i as int] == c && forall|j: int|
            i < j < s@.len() ==> s@[j] != c,
{
    proof {
        s@.index_of_last_ensures(c);
    }
    let mut n: usize = s.len();
    while n > 0
        invariant
            n <= s@.len(),
            forall|j: int| n <= j < s@.len() ==> s@[j] != c,
            match s@.index_of_last(c) {
                Some(index) => {
                    &&& s@.contains(c)
                    &&& 0 <= index < s@.len()
                    &&& s@[index] == c
                    &&& forall|j: int| 0 <= index < j < s@.len() ==> s@[j] != c
                },
                None => { !s@.contains(c) },
            },
        decreases n,
    {
        n = n - 1;
        if s[n] == c {
            return Some(n);
        }
    }
    None
}

/// `part` stands in `s`, at index `i`.
pub open spec fn occurs_at<T>(s: Seq<T>, part: Seq<T>, i: int) -> bool {
    0 <= i && i + part.len() <= s.len() && s.subrange(i, i + part.len()) == part
}

/// `part` stands somewhere in `s`.
pub open spec fn occurs<T>(s: Seq<T>, part: Seq<T>) -> bool {
    exists|i: int| occurs_at(s, part, i)
}

/// True when `part` stands somewhere in `s`.
pub fn contains_text(s: &[char], part: &str) -> (r: bool)
    ensures
        r == occurs(s@, part@),
{
    let p: Vec<char> = chars_of(part);
    let mut i: usize = 0;
    while i <= s.len() && p.len() <= s.len() - i
        invariant
            i <= s@.len() + 1,
            p@ == part@,
            forall|j: int| 0 <= j < i ==> !occurs_at(s@, part@, j),
        decreases s@.len() + 1 - i,
    {
        if same(slice_subrange(s, i, i + p.len()), p.as_slice()) {
            assert(occurs_at(s@, part@, i as int));
            return true;
        }
        if i == s.len() {
            return false;
        }
        i = i + 1;
    }
    false
}

// ── White space ──────────────────────────────────────────────────────────────

/// `s` without its leading white space.
pub open spec fn trim_start(s: Seq<char>) -> Seq<char>
    decreases s.len(),
{
    if s.len() > 0 && is_white_space(s[0]) {
        trim_start(s.drop_first())
    } else {
        s
    }
}

/// `s` without its trailing white space.
pub open spec fn trim_end(s: Seq<char>) -> Seq<char>
    decreases s.len(),
{
    if s.len() > 0 && is_white_space(s.last()) {
        trim_end(s.drop_last())
    } else {
        s
    }
}

/// `s` without the white space at either end.
pub open spec fn trimmed(s: Seq<char>) -> Seq<char> {
    trim_end(trim_start(s))
}

/// `s` without the white space at either end.
pub fn trim(s: &[char]) -> (r: &[char])
    ensures
        r@ == trimmed(s@),
{
    let mut i: usize = 0;
    assert(s@.skip(0) == s@);
    while i < s.len() && white_space(s[i])
        invariant
            i <= s@.len(),
            trim_start(s@.skip(i as int)) == trim_start(s@),
        decreases s@.len() - i,
    {
        assert(s@.skip(i as int).drop_first() == s@.skip(i + 1));
        i = i + 1;
    }
    let ghost t = s@.skip(i as int);
    assert(trim_start(t) == t);
    let mut n: usize = s.len();
    while n > i && white_space(s[n - 1])
        invariant
            i <= n <= s@.len(),
            t == s@.skip(i as int),
            trim_end(s@.subrange(i as int, n as int)) == trim_end(t),
        decreases n,
    {
        assert(s@.subrange(i as int, n as int).drop_last() == s@.subrange(i as int, n - 1));
        n = n - 1;
    }
    slice_subrange(s, i, n)
}

/// How many characters of `s` come before its first white space.
pub open spec fn word_len(s: Seq<char>) -> nat
    decreases s.len(),
{
    if s.len() == 0 || is_white_space(s[0]) {
        0
    } else {
        1 + word_len(s.drop_first())
    }
}

/// The words of `s`: its longest runs without white space, in order.
pub open spec fn words(s: Seq<char>) -> Seq<Seq<char>>
    decreases s.len(),
{
    if s.len() == 0 {
        Seq::empty()
    } else if is_white_space(s[0]) {
        words(s.drop_first())
    } else {
        let n = word_len(s);
        if 0 < n <= s.len() {
            seq![s.take(n as int)] + words(s.skip(n as int))
        } else {
            Seq::empty()
        }
    }
}

proof fn lemma_word_len(s: Seq<char>)
    ensures
        word_len(s) <= s.len(),
        s.len() > 0 && !is_white_space(s[0]) ==> word_len(s) > 0,
    decreases s.len(),
{
    if s.len() > 0 && !is_white_space(s[0]) {
        lemma_word_len(s.drop_first());
    }
}

/// The views of a list of texts.
pub open spec fn views(v: Seq<Vec<char>>) -> Seq<Seq<char>> {
    v.map_values(|t: Vec<char>| t@)
}

/// Splits `s` into its words.
pub fn split_whitespace(s: &[char]) -> (r: Vec<Vec<char>>)
    ensures
        views(r@) == words(s@),
{
    let mut out: Vec<Vec<char>> = Vec::new();
    let mut i: usize = 0;
    assert(s@.skip(0) == s@);
    assert(views(out@) + words(s@) == words(s@));
    while i < s.len()
        invariant
            i <= s@.len(),
            views(out@) + words(s@.skip(i as int)) == words(s@),
        decreases s@.len() - i,
    {
        let ghost rest = s@.skip(i as int);
        if white_space(s[i]) {
            assert(rest.drop_first() == s@.skip(i + 1));
            i = i + 1;
        } else {
            let start: usize = i;
            while i < s.len() && !white_space(s[i])
                invariant
                    start <= i <= s@.len(),
                    rest == s@.skip(start as int),
                    word_len(rest) == i - start + word_len(s@.skip(i as int)),
                decreases s@.len() - i,
            {
                assert(s@.skip(i as int).drop_first() == s@.skip(i + 1));
                i = i + 1;
            }
            proof {
                lemma_word_len(rest);
                assert(word_len(s@.skip(i as int)) == 0);
                assert(rest.take(i - start) == s@.subrange(start as int, i as int));
                assert(rest.skip(i - start) == s@.skip(i as int));
            }
            let word: Vec<char> = vstd::slice::slice_to_vec(slice_subrange(s, start, i));
            let ghost before = out@;
            out.push(word);
            proof {
                assert(views(out@) == views(before).push(word@));
                assert(views(before) + words(rest) == views(out@) + words(s@.skip(i as int)));
            }
        }
    }
    assert(s@.skip(i as int).len() == 0);
    assert(views(out@) + words(s@.skip(i as int)) == views(out@));
    out
}

// ── Parts ────────────────────────────────────────────────────────────────────

/// The parts of `s` between its separators `c`: one more than there are
/// separators, each without any.
pub open spec fn split_at_each(s: Seq<char>, c: char) -> Seq<Seq<char>>
    decreases s.len(),
{
    match s.index_of_first(c) {
        Some(i) => if 0 <= i < s.len() {
            seq![s.take(i)] + split_at_each(s.skip(i + 1), c)
        } else {
            seq![s]
        },
        None => seq![s],
    }
}

/// Splits `s` at each `c`.
pub fn split(s: &[char], c: char) -> (r: Vec<Vec<char>>)
    ensures
        views(r@) == split_at_each(s@, c),
{
    let mut out: Vec<Vec<char>> = Vec::new();
    let mut start: usize = 0;
    assert(s@.skip(0) == s@);
    assert(views(out@) + split_at_each(s@, c) == split_at_each(s@, c));
    loop
        invariant
            start <= s@.len(),
            views(out@) + split_at_each(s@.skip(start as int), c) == split_at_each(s@, c),
        decreases s@.len() - start,
    {
        let ghost before = out@;
        let ghost rest = s@.skip(start as int);
        let tail: &[char] = slice_subrange(s, start, s.len());
        assert(tail@ == rest);
        match index_of(tail, c) {
            Some(i) => {
                let part: Vec<char> = vstd::slice::slice_to_vec(slice_subrange(tail, 0, i));
                assert(part@ == rest.take(i as int));
                out.push(part);
                proof {
                    assert(views(out@) == views(before).push(part@));
                    assert(rest.skip(i + 1) == s@.skip(start + i + 1));
                    assert(views(before) + split_at_each(rest, c) == views(out@) + split_at_each(
                        s@.skip(start + i + 1),
                        c,
                    ));
                }
                start = start + i + 1;
            },
            None => {
                let part: Vec<char> = vstd::slice::slice_to_vec(tail);
                out.push(part);
                proof {
                    assert(views(out@) == views(before).push(part@));
                    assert(views(before) + split_at_each(rest, c) == views(out@));
                }
                return out;
            },
        }
    }
}

// ── Lines ────────────────────────────────────────────────────────────────────

/// `s` without one trailing carriage return.
pub open spec fn without_cr(s: Seq<char>) -> Seq<char> {
    if s.len() > 0 && s.last() == '\r' {
        s.drop_last()
    } else {
        s
    }
}

/// The lines of `s`: a line ends at `\n` or `\r\n`, which are not part of it;
/// the last line need not be ended.
pub open spec fn lines_of(s: Seq<char>) -> Seq<Seq<char>>
    decreases s.len(),
{
    if s.len() == 0 {
        Seq::empty()
    } else {
        match s.index_of_first('\n') {
            Some(i) => if 0 <= i < s.len() {
                seq![without_cr(s.take(i))] + lines_of(s.skip(i + 1))
            } else {
                Seq::empty()
            },
            None => seq![s],
        }
    }
}

/// The first line of `s`, empty when `s` is.
pub open spec fn first_line_of(s: Seq<char>) -> Seq<char> {
    let lines = lines_of(s);
    if lines.len() > 0 {
        lines[0]
    } else {
        Seq::empty()
    }
}

/// Splits `s` into its lines.
pub fn lines(s: &[char]) -> (r: Vec<Vec<char>>)
    ensures
        views(r@) == lines_of(s@),
{
    let mut out: Vec<Vec<char>> = Vec::new();
    let mut start: usize = 0;
    assert(s@.skip(0) == s@);
    assert(views(out@) + lines_of(s@) == lines_of(s@));
    while start < s.len()
        invariant
            start <= s@.len(),
            views(out@) + lines_of(s@.skip(start as int)) == lines_of(s@),
        decreases s@.len() - start,
    {
        let ghost before = out@;
        let ghost rest = s@.skip(start as int);
        let tail: &[char] = slice_subrange(s, start, s.len());
        assert(tail@ == rest);
        match index_of(tail, '\n') {
            Some(i) => {
                let end: usize = if i > 0 && tail[i - 1] == '\r' {
                    i - 1
                } else {
                    i
                };
                assert(rest.subrange(0, end as int) == without_cr(rest.take(i as int)));
                let line: Vec<char> = vstd::slice::slice_to_vec(slice_subrange(tail, 0, end));
                out.push(line);
                proof {
                    assert(views(out@) == views(before).push(line@));
                    assert(rest.skip(i + 1) == s@.skip(start + i + 1));
                    assert(views(before) + lines_of(rest) == views(out@) + lines_of(
                        s@.skip(start + i + 1),
                    ));
                }
                start = start + i + 1;
            },
            None => {
                let line: Vec<char> = vstd::slice::slice_to_vec(tail);
                out.push(line);
                proof {
                    assert(views(out@) == views(before).push(line@));
                    assert(lines_of(s@.skip(s@.len() as int)) == Seq::<Seq<char>>::empty());
                    assert(views(before) + lines_of(rest) == views(out@) + lines_of(
                        s@.skip(s@.len() as int),
                    ));
                }
                start = s.len();
            },
        }
    }
    assert(s@.skip(start as int).len() == 0);
    assert(views(out@) + lines_of(s@.skip(start as int)) == views(out@));
    out
}

// ── Decimal numbers ──────────────────────────────────────────────────────────

/// A decimal digit.
pub open spec fn is_digit(c: char) -> bool {
    '0' <= c <= '9'
}

/// What a decimal digit stands for.
pub open spec fn digit_value(c: char) -> int {
    c as int - '0' as int
}

/// The number that a run of decimal digits writes.
pub open spec fn decimal_value(s: Seq<char>) -> int
    decreases s.len(),
{
    if s.len() == 0 {
        0
    } else {
        10 * decimal_value(s.drop_last()) + digit_value(s.last())
    }
}

/// `s` is one digit or more, and nothing else.
pub open spec fn all_digits(s: Seq<char>) -> bool {
    s.len() > 0 && forall|i: int| 0 <= i < s.len() ==> is_digit(#[trigger] s[i])
}

/// `s` without one leading `+`.
pub open spec fn without_plus(s: Seq<char>) -> Seq<char> {
    if s.len() > 0 && s[0] == '+' {
        s.drop_first()
    } else {
        s
    }
}

/// The number that the digits `s` write, if it is at most `max`.
pub open spec fn number_of(s: Seq<char>, max: int) -> Option<int> {
    if all_digits(s) && decimal_value(s) <= max {
        Some(decimal_value(s))
    } else {
        None
    }
}

/// The unsigned number that `s` writes, if it is at most `max`: an optional
/// `+`, then digits.
pub open spec fn unsigned_of(s: Seq<char>, max: int) -> Option<int> {
    number_of(without_plus(s), max)
}

pub(crate) proof fn lemma_decimal_value_grows(s: Seq<char>, i: int)
    requires
        0 <= i <= s.len(),
        forall|j: int| 0 <= j < s.len() ==> is_digit(#[trigger] s[j]),
    ensures
        0 <= decimal_value(s.take(i)) <= decimal_value(s),
    decreases s.len(),
{
    if i == s.len() {
        assert(s.take(i) == s);
        if s.len() > 0 {
            lemma_decimal_value_grows(s.drop_last(), s.len() - 1);
            assert(s.drop_last().take(s.len() - 1) == s.drop_last());
        }
    } else {
        lemma_decimal_value_grows(s.drop_last(), i);
        assert(s.drop_last().take(i) == s.take(i));
    }
}

/// Reads a number up to `max`: digits only.
pub fn parse_digits(s: &[char], max: u64) -> (r: Option<u64>)
    ensures
        number_of(s@, max as int) == (match r {
            Some(n) => Some(n as int),
            None => None,
        }),
        r matches Some(n) ==> n <= max,
{
    if s.len() == 0 {
        return None;
    }
    let mut value: u64 = 0;
    for i in 0..s.len()
        invariant
            s@.len() > 0,
            value <= max,
            value == decimal_value(s@.take(i as int)),
            forall|j: int| 0 <= j < i ==> is_digit(#[trigger] s@[j]),
    {
        let c: char = s[i];
        if c < '0' || c > '9' {
            assert(!is_digit(s@[i as int]));
            return None;
        }
        let d: u64 = (c as u32 - 48) as u64;
        proof {
            assert(s@.take(i + 1).drop_last() == s@.take(i as int));
            assert(decimal_value(s@.take(i + 1)) == 10 * value + d);
            if all_digits(s@) {
                lemma_decimal_value_grows(s@, i + 1);
            }
        }
        if value > max / 10 || max - 10 * value < d {
            return None;
        }
        value = 10 * value + d;
    }
    assert(s@.take(s@.len() as int) == s@);
    Some(value)
}

/// Reads an unsigned number up to `max`.
fn parse_up_to(s: &[char], max: u64) -> (r: Option<u64>)
    ensures
        unsigned_of(s@, max as int) == (match r {
            Some(n) => Some(n as int),
            None => None,
        }),
        r matches Some(n) ==> n <= max,
{
    let start: usize = if s.len() > 0 && s[0] == '+' {
        1
    } else {
        0
    };
    let digits: &[char] = slice_subrange(s, start, s.len());
    assert(digits@ == without_plus(s@));
    parse_digits(digits, max)
}

/// Reads a `u64`.
pub fn parse_u64(s: &[char]) -> (r: Option<u64>)
    ensures
        unsigned_of(s@, u64::MAX as int) == (match r {
            Some(n) => Some(n as int),
            None => None,
        }),
{
    parse_up_to(s, u64::MAX)
}

/// Reads a `u16`.
pub fn parse_u16(s: &[char]) -> (r: Option<u16>)
    ensures
        unsigned_of(s@, u16::MAX as int) == (match r {
            Some(n) => Some(n as int),
            None => None,
        }),
{
    match parse_up_to(s, u16::MAX as u64) {
        Some(n) => Some(n as u16),
        None => None,
    }
}

/// `n` in decimal, without leading zeros.
pub open spec fn decimal(n: nat) -> Seq<char>
    decreases n,
{
    if n < 10 {
        seq![('0' as u32 + n) as char]
    } else {
        decimal(n / 10).push(('0' as u32 + n % 10) as char)
    }
}

/// Appends `n` in decimal.
pub fn push_decimal(out: &mut String, n: u64)
    ensures
        final(out)@ == old(out)@ + decimal(n as nat),
    decreases n,
{
    if n >= 10 {
        push_decimal(out, n / 10);
    }
    let d: u8 = (n % 10) as u8;
    out.push((48 + d) as char);
}

// ── Laws ─────────────────────────────────────────────────────────────────────

/// A blank: a space, a tab or one of the characters that end a line.
pub open spec fn is_blank(c: char) -> bool {
    c == ' ' || c == '\t' || c == '\r' || c == '\n'
}

/// `s` holds blanks only.
pub open spec fn all_blank(s: Seq<char>) -> bool {
    forall|i: int| 0 <= i < s.len() ==> is_blank(#[trigger] s[i])
}

/// A printable ASCII character other than the space.
pub open spec fn is_graphic(c: char) -> bool {
    '!' <= c <= '~'
}

/// `s` holds printable ASCII characters other than the space only, one at least.
pub open spec fn is_graphic_word(s: Seq<char>) -> bool {
    s.len() > 0 && forall|i: int| 0 <= i < s.len() ==> is_graphic(#[trigger] s[i])
}

proof fn lemma_trim_start(pad: Seq<char>, s: Seq<char>)
    requires
        all_blank(pad),
        s.len() > 0 ==> !is_white_space(s[0]),
    ensures
        trim_start(pad + s) == s,
    decreases pad.len(),
{
    if pad.len() == 0 {
        assert(pad + s =~= s);
    } else {
        assert(is_blank(pad[0]));
        assert((pad + s).drop_first() =~= pad.drop_first() + s);
        assert forall|i: int| 0 <= i < pad.drop_first().len() implies is_blank(
            #[trigger] pad.drop_first()[i],
        ) by {
            assert(pad.drop_first()[i] == pad[i + 1]);
        }
        lemma_trim_start(pad.drop_first(), s);
    }
}

proof fn lemma_trim_end(s: Seq<char>, pad: Seq<char>)
    requires
        all_blank(pad),
        s.len() > 0 ==> !is_white_space(s.last()),
    ensures
        trim_end(s + pad) == s,
    decreases pad.len(),
{
    if pad.len() == 0 {
        assert(s + pad =~= s);
    } else {
        assert(is_blank(pad.last()));
        assert((s + pad).last() == pad.last());
        assert((s + pad).drop_last() =~= s + pad.drop_last());
        assert forall|i: int| 0 <= i < pad.drop_last().len() implies is_blank(
            #[trigger] pad.drop_last()[i],
        ) by {
            assert(pad.drop_last()[i] == pad[i]);
        }
        lemma_trim_end(s, pad.drop_last());
    }
}

/// Trimming takes the blanks at either end and nothing else.
pub proof fn trimming_takes_blanks_only(before: Seq<char>, s: Seq<char>, after: Seq<char>)
    requires
        all_blank(before),
        all_blank(after),
        s.len() > 0 ==> is_graphic(s[0]) && is_graphic(s.last()),
    ensures
        trimmed(before + s + after) == s,
{
    if s.len() > 0 {
        assert(before + s + after =~= before + (s + after));
        lemma_trim_start(before, s + after);
        lemma_trim_end(s, after);
    } else {
        let all = before + after;
        assert(before + s + after =~= all + s);
        assert forall|i: int| 0 <= i < all.len() implies is_blank(#[trigger] all[i]) by {
            if i < before.len() {
                assert(all[i] == before[i]);
            } else {
                assert(all[i] == after[i - before.len()]);
            }
        }
        lemma_trim_start(all, s);
    }
}

/// Words, each behind the blanks that are given with it.
pub open spec fn spaced(list: Seq<(Seq<char>, Seq<char>)>) -> Seq<char>
    decreases list.len(),
{
    if list.len() == 0 {
        Seq::empty()
    } else {
        list[0].0 + list[0].1 + spaced(list.drop_first())
    }
}

proof fn lemma_words_skip(pad: Seq<char>, s: Seq<char>)
    requires
        all_blank(pad),
    ensures
        words(pad + s) == words(s),
    decreases pad.len(),
{
    if pad.len() == 0 {
        assert(pad + s =~= s);
    } else {
        assert(is_blank(pad[0]));
        assert((pad + s).drop_first() =~= pad.drop_first() + s);
        assert forall|i: int| 0 <= i < pad.drop_first().len() implies is_blank(
            #[trigger] pad.drop_first()[i],
        ) by {
            assert(pad.drop_first()[i] == pad[i + 1]);
        }
        lemma_words_skip(pad.drop_first(), s);
    }
}

#[verifier::rlimit(40)]
proof fn lemma_word_len_is(word: Seq<char>, rest: Seq<char>)
    requires
        forall|i: int| 0 <= i < word.len() ==> is_graphic(#[trigger] word[i]),
        rest.len() > 0 ==> is_blank(rest[0]),
    ensures
        word_len(word + rest) == word.len(),
    decreases word.len(),
{
    if word.len() == 0 {
        assert(word + rest =~= rest);
    } else {
        assert(is_graphic(word[0]));
        assert((word + rest).drop_first() =~= word.drop_first() + rest);
        assert forall|i: int| 0 <= i < word.drop_first().len() implies is_graphic(
            #[trigger] word.drop_first()[i],
        ) by {
            assert(word.drop_first()[i] == word[i + 1]);
        }
        lemma_word_len_is(word.drop_first(), rest);
    }
}

/// Words that are written with blanks between are read back, all of them and in
/// order, whatever blanks stand before, between and after them.
pub proof fn spaced_words_are_read(list: Seq<(Seq<char>, Seq<char>)>, after: Seq<char>)
    requires
        forall|i: int|
            0 <= i < list.len() ==> all_blank((#[trigger] list[i]).0) && is_graphic_word(list[i].1),
        forall|i: int| 0 < i < list.len() ==> (#[trigger] list[i]).0.len() > 0,
        all_blank(after),
    ensures
        words(spaced(list) + after) == list.map_values(|e: (Seq<char>, Seq<char>)| e.1),
    decreases list.len(),
{
    let all = list.map_values(|e: (Seq<char>, Seq<char>)| e.1);
    if list.len() == 0 {
        assert(spaced(list) + after =~= after + Seq::empty());
        lemma_words_skip(after, Seq::empty());
        assert(all =~= Seq::empty());
    } else {
        let (pad, word) = list[0];
        let tail = list.drop_first();
        let rest = spaced(tail) + after;
        assert(spaced(list) + after =~= pad + (word + rest));
        lemma_words_skip(pad, word + rest);
        assert forall|i: int| 0 <= i < tail.len() implies all_blank((#[trigger] tail[i]).0)
            && is_graphic_word(tail[i].1) && tail[i].0.len() > 0 by {
            assert(tail[i] == list[i + 1]);
        }
        if tail.len() > 0 {
            assert(rest[0] == tail[0].0[0]);
            assert(is_blank(tail[0].0[0]));
        } else {
            assert(rest =~= after);
        }
        lemma_word_len_is(word, rest);
        assert(is_graphic(word[0]));
        let s = word + rest;
        assert(s.take(word.len() as int) =~= word);
        assert(s.skip(word.len() as int) =~= rest);
        spaced_words_are_read(tail, after);
        assert(tail.map_values(|e: (Seq<char>, Seq<char>)| e.1) =~= all.drop_first());
        assert(all =~= seq![word] + all.drop_first());
    }
}

/// Lines, each with what ends it.
pub open spec fn ended_lines(list: Seq<(Seq<char>, Seq<char>)>) -> Seq<char>
    decreases list.len(),
{
    if list.len() == 0 {
        Seq::empty()
    } else {
        list[0].0 + list[0].1 + ended_lines(list.drop_first())
    }
}

/// The line holds no line end, and ends with `\r\n`, or with `\n` where it has no
/// `\r` at its end.
pub open spec fn is_ended_line(line: Seq<char>, end: Seq<char>) -> bool {
    &&& !line.contains('\n')
    &&& end == seq!['\r', '\n'] || end == seq!['\n'] && (line.len() > 0 ==> line.last() != '\r')
}

proof fn lemma_first_line(line: Seq<char>, end: Seq<char>, rest: Seq<char>)
    requires
        is_ended_line(line, end),
    ensures
        lines_of(line + end + rest) == seq![line] + lines_of(rest),
{
    let s = line + end + rest;
    let n = line.len() as int + end.len() as int - 1;
    s.index_of_first_ensures('\n');
    assert(s[n] == '\n');
    assert(s.contains('\n'));
    assert forall|j: int| 0 <= j < n implies s[j] != '\n' by {
        if j < line.len() {
            assert(s[j] == line[j]);
        }
    }
    let i = s.index_of_first('\n')->0;
    assert(i == n) by {
        if i < n {
            assert(s[i] != '\n');
        }
        if n < i {
            assert(s[n] != '\n');
        }
    }
    if end.len() == 2 {
        assert(s.take(n) =~= line.push('\r'));
        assert(without_cr(s.take(n)) =~= line);
    } else {
        assert(s.take(n) =~= line);
        assert(without_cr(line) =~= line);
    }
    assert(s.skip(n + 1) =~= rest);
}

/// Lines that are written with their ends are read back, all of them and in
/// order, and the lines of what follows come after them.
pub proof fn ended_lines_are_read(list: Seq<(Seq<char>, Seq<char>)>, rest: Seq<char>)
    requires
        forall|i: int| 0 <= i < list.len() ==> is_ended_line((#[trigger] list[i]).0, list[i].1),
    ensures
        lines_of(ended_lines(list) + rest) == list.map_values(|e: (Seq<char>, Seq<char>)| e.0)
            + lines_of(rest),
    decreases list.len(),
{
    let all = list.map_values(|e: (Seq<char>, Seq<char>)| e.0);
    if list.len() == 0 {
        assert(ended_lines(list) + rest =~= rest);
        assert(all + lines_of(rest) =~= lines_of(rest));
    } else {
        let tail = list.drop_first();
        assert forall|i: int| 0 <= i < tail.len() implies is_ended_line(
            (#[trigger] tail[i]).0,
            tail[i].1,
        ) by {
            assert(tail[i] == list[i + 1]);
        }
        ended_lines_are_read(tail, rest);
        let more = ended_lines(tail) + rest;
        assert(ended_lines(list) + rest =~= list[0].0 + list[0].1 + more);
        lemma_first_line(list[0].0, list[0].1, more);
        assert(tail.map_values(|e: (Seq<char>, Seq<char>)| e.0) =~= all.drop_first());
        assert(seq![list[0].0] + (all.drop_first() + lines_of(rest)) =~= all + lines_of(rest));
    }
}

/// A text without a line end is one line.
pub proof fn unended_line_is_read(line: Seq<char>)
    requires
        line.len() > 0,
        !line.contains('\n'),
    ensures
        lines_of(line) == seq![line],
{
    line.index_of_first_ensures('\n');
}

/// A number is written in decimal digits that stand for it, without a leading
/// zero, and is read back wherever it is allowed.
pub proof fn written_number_is_read_back(n: nat, max: int)
    ensures
        all_digits(decimal(n)),
        decimal_value(decimal(n)) == n,
        n > 0 ==> decimal(n)[0] != '0',
        unsigned_of(decimal(n), max) == (if n <= max {
            Some(n as int)
        } else {
            None
        }),
        unsigned_of(seq!['+'] + decimal(n), max) == unsigned_of(decimal(n), max),
    decreases n,
{
    reveal_with_fuel(decimal_value, 2);
    let s = decimal(n);
    if n < 10 {
        assert(s.drop_last() =~= Seq::empty());
        assert(digit_value(s.last()) == n);
        assert forall|i: int| 0 <= i < s.len() implies is_digit(#[trigger] s[i]) by {}
    } else {
        written_number_is_read_back(n / 10, max);
        assert(s.drop_last() =~= decimal(n / 10));
        assert(digit_value(s.last()) == n % 10);
        assert forall|i: int| 0 <= i < s.len() implies is_digit(#[trigger] s[i]) by {
            if i < s.len() - 1 {
                assert(s[i] == decimal(n / 10)[i]);
            }
        }
        assert(s[0] == decimal(n / 10)[0]);
    }
    assert(is_digit(s[0]));
    assert((seq!['+'] + s).drop_first() =~= s);
}

/// A digit more is ten times the number and what the digit stands for.
pub proof fn digits_are_decimal(s: Seq<char>, d: int)
    requires
        0 <= d <= 9,
    ensures
        decimal_value(s.push((48 + d) as char)) == 10 * decimal_value(s) + d,
        decimal_value(Seq::empty()) == 0,
{
    let t = s.push((48 + d) as char);
    assert(t.drop_last() =~= s);
    let c: char = t.last();
    assert(c as int == 48 + d);
}

/// ASCII letters are compared without case, and nothing else is taken for equal.
pub proof fn only_case_is_ignored(a: Seq<char>, b: Seq<char>)
    ensures
        equal_ignoring_case(a, b) <==> a.len() == b.len() && forall|i: int|
            0 <= i < a.len() ==> (#[trigger] a[i]) == b[i] || ('A' <= a[i] <= 'Z' && b[i] as int
                == a[i] as int + 32) || ('a' <= a[i] <= 'z' && b[i] as int == a[i] as int - 32),
{
    let la = ascii_lowercase(a);
    let lb = ascii_lowercase(b);
    assert(la.len() == a.len() && lb.len() == b.len());
    if equal_ignoring_case(a, b) {
        assert forall|i: int| 0 <= i < a.len() implies (#[trigger] a[i]) == b[i] || ('A' <= a[i]
            <= 'Z' && b[i] as int == a[i] as int + 32) || ('a' <= a[i] <= 'z' && b[i] as int
            == a[i] as int - 32) by {
            assert(la[i] == ascii_lower(a[i]) && lb[i] == ascii_lower(b[i]));
        }
    }
    if a.len() == b.len() && forall|i: int|
        0 <= i < a.len() ==> (#[trigger] a[i]) == b[i] || ('A' <= a[i] <= 'Z' && b[i] as int
            == a[i] as int + 32) || ('a' <= a[i] <= 'z' && b[i] as int == a[i] as int - 32) {
        assert forall|i: int| 0 <= i < a.len() implies la[i] == lb[i] by {
            assert(a[i] == a[i]);
            assert(la[i] == ascii_lower(a[i]) && lb[i] == ascii_lower(b[i]));
        }
        assert(la =~= lb);
    }
}

} // verus!
