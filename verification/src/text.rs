use vstd::prelude::*;
use vstd::string::StringExecFns;

verus! {

/// The characters of a string slice, in order.
pub fn chars_of(s: &str) -> (r: Vec<char>)
    ensures
        r@ == s@,
{
    let mut v: Vec<char> = Vec::new();
    for c in it: s.chars()
        invariant
            v@ == it.seq().take(it.index() as int),
            it.seq() == s@,
    {
        v.push(c);
        assert(v@ == it.seq().take(it.index() + 1));
    }
    v
}

/// Appends one character to a string: `String::push`.
#[verifier::external_body]
pub(crate) fn push_char(s: &mut String, c: char)
    ensures
        final(s)@ == old(s)@.push(c),
{
    s.push(c);
}

/// Appends a string slice to a string.
pub(crate) fn push_str(s: &mut String, t: &str)
    ensures
        final(s)@ == old(s)@ + t@,
{
    s.append(t);
}

/// A string made of the given characters.
pub fn string_from_chars(v: &[char]) -> (r: String)
    ensures
        r@ == v@,
{
    let mut s = String::new();
    let mut i: usize = 0;
    while i < v.len()
        invariant
            i <= v.len(),
            s@ == v@.take(i as int),
        decreases v.len() - i,
    {
        push_char(&mut s, v[i]);
        assert(v@.take(i + 1) == v@.take(i as int).push(v@[i as int]));
        i = i + 1;
    }
    assert(v@.take(v.len() as int) == v@);
    s
}

/// A string made of the characters of a string slice.
pub fn string_from_str(t: &str) -> (r: String)
    ensures
        r@ == t@,
{
    let mut s = String::new();
    push_str(&mut s, t);
    assert(s@ == t@);
    s
}

/// Whether two character sequences are equal.
pub fn chars_eq(a: &[char], b: &[char]) -> (r: bool)
    ensures
        r == (a@ == b@),
{
    if a.len() != b.len() {
        return false;
    }
    let mut i: usize = 0;
    while i < a.len()
        invariant
            i <= a.len(),
            a.len() == b.len(),
            forall|j: int| 0 <= j < i ==> a@[j] == b@[j],
        decreases a.len() - i,
    {
        if a[i] != b[i] {
            return false;
        }
        i = i + 1;
    }
    assert(a@ =~= b@);
    true
}

/// Whether a character sequence equals the characters of a string slice.
pub fn chars_eq_str(a: &[char], b: &str) -> (r: bool)
    ensures
        r == (a@ == b@),
{
    let bv = chars_of(b);
    chars_eq(a, bv.as_slice())
}

/// Unicode `White_Space`, the set of characters that `char::is_whitespace` accepts.
pub open spec fn is_ws(c: char) -> bool {
    ||| ('\u{9}' <= c && c <= '\u{d}')
    ||| c == ' '
    ||| c == '\u{85}'
    ||| c == '\u{a0}'
    ||| c == '\u{1680}'
    ||| ('\u{2000}' <= c && c <= '\u{200a}')
    ||| c == '\u{2028}'
    ||| c == '\u{2029}'
    ||| c == '\u{202f}'
    ||| c == '\u{205f}'
    ||| c == '\u{3000}'
}

pub fn is_whitespace(c: char) -> (r: bool)
    ensures
        r == is_ws(c),
{
    ('\u{9}' <= c && c <= '\u{d}') || c == ' ' || c == '\u{85}' || c == '\u{a0}' || c == '\u{1680}'
        || ('\u{2000}' <= c && c <= '\u{200a}') || c == '\u{2028}' || c == '\u{2029}'
        || c == '\u{202f}' || c == '\u{205f}' || c == '\u{3000}'
}

/// The Unicode upper-case mapping of a string, as `str::to_uppercase` computes it.
pub uninterp spec fn uppercase_of(s: Seq<char>) -> Seq<char>;

/// The Unicode lower-case mapping of a string, as `str::to_lowercase` computes it.
pub uninterp spec fn lowercase_of(s: Seq<char>) -> Seq<char>;

/// Every character is ASCII.
pub open spec fn all_ascii(s: Seq<char>) -> bool {
    forall|i: int| 0 <= i < s.len() ==> (#[trigger] s[i] as u32) < 128
}

/// The upper-case form of an ASCII character: `a`-`z` become `A`-`Z`, others stay.
pub open spec fn ascii_upper(c: char) -> char {
    if 'a' <= c && c <= 'z' { ((c as u32) - 32) as char } else { c }
}

/// The lower-case form of an ASCII character: `A`-`Z` become `a`-`z`, others stay.
pub open spec fn ascii_lower(c: char) -> char {
    if 'A' <= c && c <= 'Z' { ((c as u32) + 32) as char } else { c }
}

/// The upper-case form of a text: letter by letter on an all-ASCII text, otherwise the
/// Unicode mapping.
pub open spec fn upper_text(s: Seq<char>) -> Seq<char> {
    if all_ascii(s) { s.map_values(|c: char| ascii_upper(c)) } else { uppercase_of(s) }
}

/// The lower-case form of a text: letter by letter on an all-ASCII text, otherwise the
/// Unicode mapping.
pub open spec fn lower_text(s: Seq<char>) -> Seq<char> {
    if all_ascii(s) { s.map_values(|c: char| ascii_lower(c)) } else { lowercase_of(s) }
}

/// Calls `str::to_uppercase`: the result is the Unicode upper-case mapping of `s`, a function
/// of `s` alone, named `uppercase_of`. Of that mapping only its effect on an all-ASCII
/// string is claimed: letters `a`-`z` become `A`-`Z`, one for one, and every other
/// character stays.
#[verifier::external_body]
pub(crate) fn to_uppercase(s: &str) -> (r: String)
    ensures
        r@ == uppercase_of(s@),
        all_ascii(s@) ==> r@ == s@.map_values(|c: char| ascii_upper(c)),
{
    s.to_uppercase()
}

/// Calls `str::to_lowercase`: the result is the Unicode lower-case mapping of `s`, a function
/// of `s` alone, named `lowercase_of`. Of that mapping only its effect on an all-ASCII
/// string is claimed: letters `A`-`Z` become `a`-`z`, one for one, and every other
/// character stays.
#[verifier::external_body]
pub(crate) fn to_lowercase(s: &str) -> (r: String)
    ensures
        r@ == lowercase_of(s@),
        all_ascii(s@) ==> r@ == s@.map_values(|c: char| ascii_lower(c)),
{
    s.to_lowercase()
}


/// The decimal digit character for `d < 10`.
pub open spec fn digit_char(d: nat) -> char {
    if d == 0 { '0' } else if d == 1 { '1' } else if d == 2 { '2' } else if d == 3 { '3' }
    else if d == 4 { '4' } else if d == 5 { '5' } else if d == 6 { '6' } else if d == 7 { '7' }
    else if d == 8 { '8' } else { '9' }
}

/// The decimal numeral of `n`, without leading zeros.
pub open spec fn decimal(n: nat) -> Seq<char>
    decreases n,
{
    if n < 10 {
        seq![digit_char(n)]
    } else {
        decimal(n / 10).push(digit_char(n % 10))
    }
}

fn digit(d: usize) -> (c: char)
    requires
        d < 10,
    ensures
        c == digit_char(d as nat),
{
    match d {
        0 => '0',
        1 => '1',
        2 => '2',
        3 => '3',
        4 => '4',
        5 => '5',
        6 => '6',
        7 => '7',
        8 => '8',
        _ => '9',
    }
}

/// Appends the decimal numeral of `n` to `s`.
pub fn push_decimal(s: &mut String, n: usize)
    ensures
        final(s)@ == old(s)@ + decimal(n as nat),
    decreases n,
{
    if n < 10 {
        push_char(s, digit(n));
        assert(old(s)@ + decimal(n as nat) == old(s)@.push(digit_char(n as nat)));
    } else {
        push_decimal(s, n / 10);
        push_char(s, digit(n % 10));
        assert(old(s)@ + decimal(n as nat) == (old(s)@ + decimal((n / 10) as nat)).push(digit_char((n % 10) as nat)));
    }
}


/// Appends characters to a string.
pub fn push_chars(s: &mut String, cs: &[char])
    ensures
        final(s)@ == old(s)@ + cs@,
{
    let mut i: usize = 0;
    while i < cs.len()
        invariant
            i <= cs@.len(),
            s@ == old(s)@ + cs@.take(i as int),
        decreases cs@.len() - i,
    {
        push_char(s, cs[i]);
        assert(cs@.take(i + 1) == cs@.take(i as int).push(cs@[i as int]));
        i = i + 1;
    }
    assert(cs@.take(cs@.len() as int) == cs@);
}

/// Whether a character sequence begins with the characters of a string slice.
pub fn starts_with_str(c: &[char], p: &str) -> (r: bool)
    ensures
        r == (c@.len() >= p@.len() && c@.take(p@.len() as int) == p@),
{
    let pv = chars_of(p);
    if c.len() < pv.len() {
        return false;
    }
    let mut i: usize = 0;
    while i < pv.len()
        invariant
            i <= pv@.len(),
            pv@.len() <= c@.len(),
            pv@ == p@,
            forall|j: int| 0 <= j < i ==> c@[j] == pv@[j],
        decreases pv@.len() - i,
    {
        if c[i] != pv[i] {
            assert(c@.take(p@.len() as int)[i as int] != p@[i as int]);
            return false;
        }
        i = i + 1;
    }
    assert(c@.take(p@.len() as int) =~= p@);
    true
}

// ── Lines, comments, blanks and words ───────────────────────────────────────

/// The views of a list of character vectors.
pub open spec fn views(v: Seq<Vec<char>>) -> Seq<Seq<char>> {
    v.map_values(|x: Vec<char>| x@)
}

/// Splitting the first `i` characters at `sep`: the finished pieces and the piece in progress.
pub open spec fn split_state(s: Seq<char>, sep: char, i: int) -> (Seq<Seq<char>>, Seq<char>)
    decreases i,
{
    if i <= 0 {
        (Seq::empty(), Seq::empty())
    } else {
        let (done, cur) = split_state(s, sep, i - 1);
        if s[i - 1] == sep {
            (done.push(cur), Seq::empty())
        } else {
            (done, cur.push(s[i - 1]))
        }
    }
}

/// The lines of a text: the pieces between newline characters.
pub open spec fn split_lines(s: Seq<char>) -> Seq<Seq<char>> {
    let (done, cur) = split_state(s, '\n', s.len() as int);
    done.push(cur)
}

/// Splits a text into its lines.
pub fn lines_of(s: &[char]) -> (r: Vec<Vec<char>>)
    ensures
        views(r@) == split_lines(s@),
{
    let mut done: Vec<Vec<char>> = Vec::new();
    let mut cur: Vec<char> = Vec::new();
    let mut i: usize = 0;
    while i < s.len()
        invariant
            i <= s@.len(),
            (views(done@), cur@) == split_state(s@, '\n', i as int),
        decreases s@.len() - i,
    {
        let c = s[i];
        if c == '\n' {
            let piece = cur;
            cur = Vec::new();
            proof {
                assert(views(done@.push(piece)) == views(done@).push(piece@));
            }
            done.push(piece);
        } else {
            cur.push(c);
        }
        i = i + 1;
    }
    proof {
        assert(views(done@.push(cur)) == views(done@).push(cur@));
    }
    done.push(cur);
    done
}

/// Index of the first `#`, or the length when there is none.
pub open spec fn hash_index(s: Seq<char>, i: int) -> int
    decreases s.len() - i,
{
    if i < 0 || i >= s.len() {
        s.len() as int
    } else if s[i] == '#' {
        i
    } else {
        hash_index(s, i + 1)
    }
}

/// The part of a line before its first `#`.
pub open spec fn before_hash(s: Seq<char>) -> Seq<char> {
    s.take(hash_index(s, 0))
}

/// Leading whitespace removed.
pub open spec fn trim_start(s: Seq<char>) -> Seq<char>
    decreases s.len(),
{
    if s.len() > 0 && is_ws(s[0]) {
        trim_start(s.skip(1))
    } else {
        s
    }
}

/// Trailing whitespace removed.
pub open spec fn trim_end(s: Seq<char>) -> Seq<char>
    decreases s.len(),
{
    if s.len() > 0 && is_ws(s.last()) {
        trim_end(s.drop_last())
    } else {
        s
    }
}

pub open spec fn trim(s: Seq<char>) -> Seq<char> {
    trim_end(trim_start(s))
}

/// The part of a line before its first `#`, without surrounding whitespace.
pub fn clean_line(s: &[char]) -> (r: Vec<char>)
    ensures
        r@ == trim(before_hash(s@)),
{
    let mut end: usize = 0;
    while end < s.len() && s[end] != '#'
        invariant
            end <= s@.len(),
            hash_index(s@, 0) == hash_index(s@, end as int),
        decreases s@.len() - end,
    {
        end = end + 1;
    }
    let ghost b = s@.take(end as int);
    assert(b == before_hash(s@));
    let mut lo: usize = 0;
    assert(b.subrange(0, end as int) == b);
    while lo < end && is_whitespace(s[lo])
        invariant
            lo <= end,
            end <= s@.len(),
            b == s@.take(end as int),
            trim_start(b) == trim_start(b.subrange(lo as int, end as int)),
        decreases end - lo,
    {
        assert(b.subrange(lo as int, end as int).skip(1) == b.subrange(lo + 1, end as int));
        lo = lo + 1;
    }
    assert(trim_start(b) == b.subrange(lo as int, end as int));
    let mut hi: usize = end;
    while hi > lo && is_whitespace(s[hi - 1])
        invariant
            lo <= hi <= end,
            end <= s@.len(),
            b == s@.take(end as int),
            trim(b) == trim_end(b.subrange(lo as int, hi as int)),
        decreases hi - lo,
    {
        assert(b.subrange(lo as int, hi as int).drop_last() == b.subrange(lo as int, hi - 1));
        hi = hi - 1;
    }
    let mut r: Vec<char> = Vec::new();
    let mut k: usize = lo;
    while k < hi
        invariant
            lo <= k <= hi,
            hi <= s@.len(),
            r@ == s@.subrange(lo as int, k as int),
        decreases hi - k,
    {
        r.push(s[k]);
        k = k + 1;
    }
    assert(b.subrange(lo as int, hi as int) == s@.subrange(lo as int, hi as int));
    r
}

/// Splitting the first `i` characters into words: the finished words and the word in progress.
pub open spec fn word_state(s: Seq<char>, i: int) -> (Seq<Seq<char>>, Seq<char>)
    decreases i,
{
    if i <= 0 {
        (Seq::empty(), Seq::empty())
    } else {
        let (done, cur) = word_state(s, i - 1);
        if is_ws(s[i - 1]) {
            if cur.len() > 0 { (done.push(cur), Seq::empty()) } else { (done, Seq::empty()) }
        } else {
            (done, cur.push(s[i - 1]))
        }
    }
}

/// The maximal runs of non-whitespace characters, in order.
pub open spec fn split_words(s: Seq<char>) -> Seq<Seq<char>> {
    let (done, cur) = word_state(s, s.len() as int);
    if cur.len() > 0 { done.push(cur) } else { done }
}

/// Splits a line into its whitespace-separated words.
pub fn words_of(s: &[char]) -> (r: Vec<Vec<char>>)
    ensures
        views(r@) == split_words(s@),
{
    let mut done: Vec<Vec<char>> = Vec::new();
    let mut cur: Vec<char> = Vec::new();
    let mut i: usize = 0;
    while i < s.len()
        invariant
            i <= s@.len(),
            (views(done@), cur@) == word_state(s@, i as int),
        decreases s@.len() - i,
    {
        let c = s[i];
        if is_whitespace(c) {
            if cur.len() > 0 {
                let piece = cur;
                cur = Vec::new();
                proof {
                    assert(views(done@.push(piece)) == views(done@).push(piece@));
                }
                done.push(piece);
            } else {
                cur = Vec::new();
            }
        } else {
            cur.push(c);
        }
        i = i + 1;
    }
    if cur.len() > 0 {
        proof {
            assert(views(done@.push(cur)) == views(done@).push(cur@));
        }
        done.push(cur);
    }
    done
}

// ── Unsigned numbers ────────────────────────────────────────────────────────

pub open spec fn is_digit(c: char) -> bool {
    '0' <= c && c <= '9'
}

pub open spec fn digit_value(c: char) -> nat {
    ((c as u32) - 48) as nat
}

/// The number that a string of decimal digits denotes.
pub open spec fn digits_value(d: Seq<char>) -> nat
    decreases d.len(),
{
    if d.len() == 0 {
        0
    } else {
        digits_value(d.drop_last()) * 10 + digit_value(d.last())
    }
}

/// The digits of an unsigned numeral: an optional leading `+`, then at least one character.
pub open spec fn numeral_digits(s: Seq<char>) -> Option<Seq<char>> {
    if s.len() == 0 {
        None
    } else if s[0] == '+' {
        if s.len() == 1 { None } else { Some(s.skip(1)) }
    } else {
        Some(s)
    }
}

/// The value of an unsigned decimal numeral that is at most `max`, as `str::parse` reads
/// one for an unsigned integer type whose largest value is `max`.
pub open spec fn parse_uint(s: Seq<char>, max: nat) -> Option<nat> {
    match numeral_digits(s) {
        Some(d) => if (forall|i: int| 0 <= i < d.len() ==> is_digit(#[trigger] d[i])) && digits_value(d) <= max {
            Some(digits_value(d))
        } else {
            None
        },
        None => None,
    }
}

/// Reads an unsigned decimal numeral no larger than `max`.
pub fn parse_uint_exec(s: &[char], max: usize) -> (r: Option<usize>)
    ensures
        r matches Some(v) ==> parse_uint(s@, max as nat) == Some(v as nat),
        r is None ==> parse_uint(s@, max as nat) is None,
{
    if s.len() == 0 {
        return None;
    }
    let mut start: usize = 0;
    if s[0] == '+' {
        if s.len() == 1 {
            return None;
        }
        start = 1;
    }
    let ghost d = s@.skip(start as int);
    assert(numeral_digits(s@) == Some(d));
    let mut v: usize = 0;
    let mut too_big = false;
    let mut i: usize = start;
    while i < s.len()
        invariant
            start <= i <= s@.len(),
            d == s@.skip(start as int),
            numeral_digits(s@) == Some(d),
            forall|k: int| start <= k < i ==> is_digit(#[trigger] s@[k]),
            !too_big ==> v == digits_value(d.take(i - start)) && v <= max,
            too_big ==> digits_value(d.take(i - start)) > max,
        decreases s@.len() - i,
    {
        let c = s[i];
        if !('0' <= c && c <= '9') {
            assert(d[i - start] == c);
            assert(!is_digit(d[i - start]));
            return None;
        }
        let dig = (c as u32 - 48) as usize;
        let ghost t = d.take(i - start + 1);
        proof {
            assert(t.drop_last() == d.take(i - start));
            assert(t.last() == c);
            assert(digits_value(t) == digits_value(d.take(i - start)) * 10 + dig);
        }
        if too_big {
            proof {
                assert(digits_value(d.take(i - start)) * 10 + dig > max) by (nonlinear_arith)
                    requires
                        digits_value(d.take(i - start)) > max,
                        dig >= 0;
            }
        } else if dig > max || v > (max - dig) / 10 {
            proof {
                if dig <= max {
                    assert(v * 10 + dig > max) by (nonlinear_arith)
                        requires
                            v > (max - dig) / 10,
                            dig <= 9,
                            dig <= max;
                }
            }
            too_big = true;
        } else {
            proof {
                assert(v * 10 + dig <= max) by (nonlinear_arith)
                    requires
                        v <= (max - dig) / 10,
                        dig <= max;
            }
            v = v * 10 + dig;
        }
        i = i + 1;
    }
    assert(d.take(i - start) == d);
    assert forall|k: int| 0 <= k < d.len() implies is_digit(#[trigger] d[k]) by {
        assert(d[k] == s@[k + start]);
    }
    if too_big {
        return None;
    }
    Some(v)
}


// ── Facts about comments, trimming and words ────────────────────────────────

/// Every character of `s` is whitespace.
pub open spec fn all_ws(s: Seq<char>) -> bool {
    forall|i: int| 0 <= i < s.len() ==> is_ws(#[trigger] s[i])
}

/// The first `#` from index `i` on lies at or after `i`, within the string or at its end.
pub proof fn lemma_hash_range(s: Seq<char>, i: int)
    requires
        0 <= i <= s.len(),
    ensures
        i <= hash_index(s, i) <= s.len(),
        hash_index(s, i) < s.len() ==> s[hash_index(s, i)] == '#',
    decreases s.len() - i,
{
    if i < s.len() {
        lemma_hash_range(s, i + 1);
    }
}

proof fn lemma_hash_shift(a: Seq<char>, b: Seq<char>, j: int)
    requires
        0 <= j <= b.len(),
    ensures
        hash_index(a + b, a.len() + j) == a.len() + hash_index(b, j),
    decreases b.len() - j,
{
    if j < b.len() {
        assert((a + b)[a.len() + j] == b[j]);
        lemma_hash_shift(a, b, j + 1);
    }
}

proof fn lemma_hash_prefix(a: Seq<char>, b: Seq<char>, i: int)
    requires
        0 <= i <= a.len(),
    ensures
        hash_index(a + b, i) == if hash_index(a, i) < a.len() { hash_index(a, i) } else { a.len() + hash_index(b, 0) },
    decreases a.len() - i,
{
    if i < a.len() {
        assert((a + b)[i] == a[i]);
        lemma_hash_prefix(a, b, i + 1);
    } else {
        lemma_hash_shift(a, b, 0);
    }
}

/// What comes before the first `#` of a joined string: the part of `a` before its `#`, or,
/// when `a` has none, all of `a` and the part of `b` before its first `#`.
pub proof fn lemma_before_hash_concat(a: Seq<char>, b: Seq<char>)
    ensures
        before_hash(a + b) == if hash_index(a, 0) < a.len() { before_hash(a) } else { a + before_hash(b) },
{
    lemma_hash_prefix(a, b, 0);
    lemma_hash_range(a, 0);
    lemma_hash_range(b, 0);
    if hash_index(a, 0) < a.len() {
        assert((a + b).take(hash_index(a, 0)) == a.take(hash_index(a, 0)));
    } else {
        assert((a + b).take(a.len() + hash_index(b, 0)) == a + b.take(hash_index(b, 0)));
    }
}

/// Whitespace holds no `#`.
pub proof fn lemma_ws_no_hash(w: Seq<char>, i: int)
    requires
        all_ws(w),
        0 <= i <= w.len(),
    ensures
        hash_index(w, i) == w.len(),
    decreases w.len() - i,
{
    if i < w.len() {
        assert(is_ws(w[i]));
        lemma_ws_no_hash(w, i + 1);
    }
}

/// A string with nothing left after removing leading whitespace is all whitespace.
pub proof fn lemma_trim_start_empty(s: Seq<char>)
    ensures
        trim_start(s).len() == 0 <==> all_ws(s),
    decreases s.len(),
{
    if s.len() > 0 {
        lemma_trim_start_empty(s.skip(1));
        if is_ws(s[0]) {
            assert forall|i: int| 0 <= i < s.len() && all_ws(s.skip(1)) implies is_ws(#[trigger] s[i]) by {
                if i > 0 {
                    assert(s[i] == s.skip(1)[i - 1]);
                }
            }
            assert forall|i: int| 0 <= i < s.skip(1).len() && all_ws(s) implies is_ws(#[trigger] s.skip(1)[i]) by {
                assert(s.skip(1)[i] == s[i + 1]);
            }
        }
    }
}

/// Leading whitespace after removing leading whitespace: `trim_start(x + y)` is
/// `trim_start(x) + y` when `x` holds something else, and `trim_start(y)` when it does not.
pub proof fn lemma_trim_start_concat(x: Seq<char>, y: Seq<char>)
    ensures
        all_ws(x) ==> trim_start(x + y) == trim_start(y),
        !all_ws(x) ==> trim_start(x + y) == trim_start(x) + y,
    decreases x.len(),
{
    if x.len() == 0 {
        assert(x + y == y);
    } else {
        assert((x + y)[0] == x[0]);
        assert((x + y).skip(1) == x.skip(1) + y);
        lemma_trim_start_concat(x.skip(1), y);
        if is_ws(x[0]) {
            lemma_trim_start_empty(x);
            lemma_trim_start_empty(x.skip(1));
        } else {
            assert(!all_ws(x));
        }
    }
}

/// Trailing whitespace goes when trimming the end.
pub proof fn lemma_trim_end_ws(x: Seq<char>, w: Seq<char>)
    requires
        all_ws(w),
    ensures
        trim_end(x + w) == trim_end(x),
    decreases w.len(),
{
    if w.len() == 0 {
        assert(x + w == x);
    } else {
        assert((x + w).last() == w.last());
        assert(is_ws(w[w.len() - 1]));
        assert((x + w).drop_last() == x + w.drop_last());
        lemma_trim_end_ws(x, w.drop_last());
    }
}

/// Trimming the end of `x + y` when `y` holds more than whitespace touches only `y`.
pub proof fn lemma_trim_end_concat(x: Seq<char>, y: Seq<char>)
    requires
        !all_ws(y),
    ensures
        trim_end(x + y) == x + trim_end(y),
        trim_end(y).len() > 0,
    decreases y.len(),
{
    assert(y.len() > 0);
    assert((x + y).last() == y.last());
    if is_ws(y.last()) {
        assert((x + y).drop_last() == x + y.drop_last());
        assert(!all_ws(y.drop_last())) by {
            if all_ws(y.drop_last()) {
                assert forall|i: int| 0 <= i < y.len() implies is_ws(#[trigger] y[i]) by {
                    if i < y.len() - 1 {
                        assert(y[i] == y.drop_last()[i]);
                    }
                }
            }
        }
        lemma_trim_end_concat(x, y.drop_last());
    }
}

/// Splitting into words agrees on two strings up to index `i` when they agree there.
proof fn lemma_word_state_prefix(s: Seq<char>, t: Seq<char>, i: int)
    requires
        0 <= i <= s.len(),
        i <= t.len(),
        forall|k: int| 0 <= k < i ==> s[k] == t[k],
    ensures
        word_state(s, i) == word_state(t, i),
    decreases i,
{
    if i > 0 {
        lemma_word_state_prefix(s, t, i - 1);
    }
}

proof fn lemma_word_state_shift(p: Seq<char>, q: Seq<char>, w: char, w2: char, j: int)
    requires
        is_ws(w),
        is_ws(w2),
        0 <= j <= q.len(),
    ensures
        word_state(p + seq![w, w2] + q, p.len() + 2 + j) == word_state(p + seq![w] + q, p.len() + 1 + j),
    decreases j,
{
    let s = p + seq![w] + q;
    let t = p + seq![w, w2] + q;
    if j == 0 {
        assert forall|k: int| 0 <= k < p.len() + 1 implies s[k] == t[k] by {
            if k < p.len() {
                assert(s[k] == p[k] && t[k] == p[k]);
            } else {
                assert(s[k] == w && t[k] == w);
            }
        }
        lemma_word_state_prefix(s, t, p.len() + 1int);
        assert(s[p.len() as int] == w);
        assert(t[p.len() + 1int] == w2);
    } else {
        lemma_word_state_shift(p, q, w, w2, j - 1);
        assert(t[p.len() + 1 + j] == q[j - 1]);
        assert(s[p.len() + j] == q[j - 1]);
    }
}

/// A whitespace character doubled into two leaves the words as they were.
pub proof fn lemma_split_words_ws(p: Seq<char>, q: Seq<char>, w: char, w2: char)
    requires
        is_ws(w),
        is_ws(w2),
    ensures
        split_words(p + seq![w] + q) == split_words(p + seq![w, w2] + q),
{
    lemma_word_state_shift(p, q, w, w2, q.len() as int);
}

} // verus!
