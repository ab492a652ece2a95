//! Character classes and small string utilities shared by the lexer and
//! the evaluator.

use vstd::prelude::*;

verus! {

/// The Unicode `White_Space` property: the class of `\s` in the regex
/// crate and of `char::is_whitespace` / `str::trim` in std.
pub open spec fn is_ws(c: char) -> bool {
    let u = c as u32;
    ||| (0x09 <= u && u <= 0x0D)
    ||| u == 0x20
    ||| u == 0x85
    ||| u == 0xA0
    ||| u == 0x1680
    ||| (0x2000 <= u && u <= 0x200A)
    ||| u == 0x2028
    ||| u == 0x2029
    ||| u == 0x202F
    ||| u == 0x205F
    ||| u == 0x3000
}

/// Executable form of [`is_ws`].
pub fn is_whitespace(c: char) -> (r: bool)
    ensures
        r == is_ws(c),
{
    let u = c as u32;
    (0x09 <= u && u <= 0x0D) || u == 0x20 || u == 0x85 || u == 0xA0 || u == 0x1680
        || (0x2000 <= u && u <= 0x200A) || u == 0x2028 || u == 0x2029 || u == 0x202F
        || u == 0x205F || u == 0x3000
}

/// Converts a string slice to the vector of its characters.
pub fn chars_of(s: &str) -> (v: Vec<char>)
    ensures
        v@ == s@,
{
    let mut v: Vec<char> = Vec::new();
    for c in it: s.chars()
        invariant
            v@ == it.seq().take(it.index() as int),
            it.seq() == s@,
    {
        v.push(c);
    }
    v
}


/// The ASCII word characters `[0-9A-Za-z_]`.
pub open spec fn is_ascii_word(c: char) -> bool {
    ||| ('0' <= c && c <= '9')
    ||| ('a' <= c && c <= 'z')
    ||| ('A' <= c && c <= 'Z')
    ||| c == '_'
}

/// What the regex crate answers when `pattern` is matched against the
/// one-character text `c`.
pub uninterp spec fn regex_char_match(pattern: Seq<char>, c: char) -> bool;

/// Asks the regex crate whether the one-character text `c` matches
/// `pattern`; an invalid pattern gives `false`.
///
/// Calls `regex::Regex::new` and `regex::Regex::is_match`. The contract
/// claims only that the answer is a function of the pattern and the
/// character; the Unicode tables behind it are not stated.
#[verifier::external_body]
fn regex_matches_char(pattern: &str, c: char) -> (r: bool)
    ensures
        r == regex_char_match(pattern@, c),
{
    let mut buf = [0u8; 4];
    match regex::Regex::new(pattern) {
        Ok(re) => re.is_match(c.encode_utf8(&mut buf)),
        Err(_) => false,
    }
}

/// The pattern `^\w$` (one Unicode word character).
pub open spec fn word_pattern() -> Seq<char> {
    seq!['^', '\\', 'w', '$']
}

/// The pattern `^\d$` (one Unicode decimal digit).
pub open spec fn digit_pattern() -> Seq<char> {
    seq!['^', '\\', 'd', '$']
}

/// The class `\w` of the regex crate: ASCII word characters, and beyond
/// ASCII whatever the crate's Unicode tables admit.
pub open spec fn is_word(c: char) -> bool {
    if (c as u32) < 0x80 {
        is_ascii_word(c)
    } else {
        regex_char_match(word_pattern(), c)
    }
}

/// The class `\d` of the regex crate: ASCII digits, and beyond ASCII
/// whatever the crate's Unicode tables admit.
pub open spec fn is_digit(c: char) -> bool {
    if (c as u32) < 0x80 {
        '0' <= c && c <= '9'
    } else {
        regex_char_match(digit_pattern(), c)
    }
}

/// Executable form of [`is_word`].
pub fn is_word_char(c: char) -> (r: bool)
    ensures
        r == is_word(c),
{
    if (c as u32) < 0x80 {
        ('0' <= c && c <= '9') || ('a' <= c && c <= 'z') || ('A' <= c && c <= 'Z') || c == '_'
    } else {
        proof {
            reveal_strlit("^\\w$");
            assert("^\\w$"@ =~= word_pattern());
        }
        regex_matches_char("^\\w$", c)
    }
}

/// Executable form of [`is_digit`].
pub fn is_digit_char(c: char) -> (r: bool)
    ensures
        r == is_digit(c),
{
    if (c as u32) < 0x80 {
        '0' <= c && c <= '9'
    } else {
        proof {
            reveal_strlit("^\\d$");
            assert("^\\d$"@ =~= digit_pattern());
        }
        regex_matches_char("^\\d$", c)
    }
}

/// Case-insensitive match of `c` against the lowercase ASCII letter `k`,
/// as the regex crate's `(?i)` does it (simple Unicode case folding:
/// besides the two ASCII cases, `s` also matches U+017F and `k` also
/// matches U+212A).
pub open spec fn ci_eq(c: char, k: char) -> bool {
    ||| c == k
    ||| (c as u32) + 32 == (k as u32)
    ||| (k == 's' && (c as u32) == 0x17F)
    ||| (k == 'k' && (c as u32) == 0x212A)
}

/// Executable form of [`ci_eq`].
pub fn ci_char_eq(c: char, k: char) -> (r: bool)
    ensures
        r == ci_eq(c, k),
{
    let cu = c as u32;
    let ku = k as u32;
    c == k || cu + 32 == ku || (k == 's' && cu == 0x17F) || (k == 'k' && cu == 0x212A)
}

/// `kw` (lowercase ASCII letters) occurs case-insensitively in `s` at `pos`.
pub open spec fn kw_at(s: Seq<char>, pos: int, kw: Seq<char>) -> bool {
    &&& 0 <= pos
    &&& pos + kw.len() <= s.len()
    &&& forall|i: int| 0 <= i < kw.len() ==> ci_eq(#[trigger] s[pos + i], kw[i])
}

/// Executable form of [`kw_at`].
pub fn kw_at_exec(s: &[char], pos: usize, kw: &[char]) -> (r: bool)
    ensures
        r == kw_at(s@, pos as int, kw@),
{
    if pos > s.len() || kw.len() > s.len() - pos {
        return false;
    }
    let mut i: usize = 0;
    while i < kw.len()
        invariant
            pos + kw.len() <= s.len(),
            i <= kw.len(),
            forall|j: int| 0 <= j < i ==> ci_eq(#[trigger] s@[pos + j], kw@[j]),
        decreases kw.len() - i,
    {
        if !ci_char_eq(s[pos + i], kw[i]) {
            return false;
        }
        i += 1;
    }
    true
}

/// End of the run of whitespace that starts at `p`.
pub open spec fn ws_end(s: Seq<char>, p: int) -> int
    decreases s.len() - p,
{
    if 0 <= p < s.len() && is_ws(s[p]) {
        ws_end(s, p + 1)
    } else {
        p
    }
}

/// End of the run of non-whitespace characters that starts at `p`.
pub open spec fn nonws_end(s: Seq<char>, p: int) -> int
    decreases s.len() - p,
{
    if 0 <= p < s.len() && !is_ws(s[p]) {
        nonws_end(s, p + 1)
    } else {
        p
    }
}

/// End of the run of word characters that starts at `p`.
pub open spec fn word_end(s: Seq<char>, p: int) -> int
    decreases s.len() - p,
{
    if 0 <= p < s.len() && is_word(s[p]) {
        word_end(s, p + 1)
    } else {
        p
    }
}

/// Start of the run of whitespace that ends at `e` and does not reach
/// below `lo`.
pub open spec fn ws_start_back(s: Seq<char>, lo: int, e: int) -> int
    decreases e - lo,
{
    if lo < e && e <= s.len() && is_ws(s[e - 1]) {
        ws_start_back(s, lo, e - 1)
    } else {
        e
    }
}

pub proof fn lemma_ws_end(s: Seq<char>, p: int)
    requires
        0 <= p <= s.len(),
    ensures
        p <= ws_end(s, p) <= s.len(),
        forall|i: int| p <= i < ws_end(s, p) ==> is_ws(#[trigger] s[i]),
        ws_end(s, p) < s.len() ==> !is_ws(s[ws_end(s, p)]),
    decreases s.len() - p,
{
    if p < s.len() && is_ws(s[p]) {
        lemma_ws_end(s, p + 1);
    }
}

pub proof fn lemma_nonws_end(s: Seq<char>, p: int)
    requires
        0 <= p <= s.len(),
    ensures
        p <= nonws_end(s, p) <= s.len(),
        forall|i: int| p <= i < nonws_end(s, p) ==> !is_ws(#[trigger] s[i]),
        nonws_end(s, p) < s.len() ==> is_ws(s[nonws_end(s, p)]),
    decreases s.len() - p,
{
    if p < s.len() && !is_ws(s[p]) {
        lemma_nonws_end(s, p + 1);
    }
}

pub proof fn lemma_word_end(s: Seq<char>, p: int)
    requires
        0 <= p <= s.len(),
    ensures
        p <= word_end(s, p) <= s.len(),
        forall|i: int| p <= i < word_end(s, p) ==> is_word(#[trigger] s[i]),
        word_end(s, p) < s.len() ==> !is_word(s[word_end(s, p)]),
    decreases s.len() - p,
{
    if p < s.len() && is_word(s[p]) {
        lemma_word_end(s, p + 1);
    }
}

pub proof fn lemma_ws_start_back(s: Seq<char>, lo: int, e: int)
    requires
        0 <= lo <= e <= s.len(),
    ensures
        lo <= ws_start_back(s, lo, e) <= e,
        forall|i: int| ws_start_back(s, lo, e) <= i < e ==> is_ws(#[trigger] s[i]),
        ws_start_back(s, lo, e) > lo ==> !is_ws(s[ws_start_back(s, lo, e) - 1]),
    decreases e - lo,
{
    if lo < e && is_ws(s[e - 1]) {
        lemma_ws_start_back(s, lo, e - 1);
    }
}

/// Executable form of [`ws_end`].
pub fn skip_ws(s: &[char], p: usize) -> (r: usize)
    requires
        p <= s.len(),
    ensures
        r as int == ws_end(s@, p as int),
        p <= r <= s.len(),
{
    let mut i = p;
    while i < s.len() && is_whitespace(s[i])
        invariant
            p <= i <= s.len(),
            ws_end(s@, i as int) == ws_end(s@, p as int),
        decreases s.len() - i,
    {
        i += 1;
    }
    i
}

/// Executable form of [`nonws_end`].
pub fn skip_nonws(s: &[char], p: usize) -> (r: usize)
    requires
        p <= s.len(),
    ensures
        r as int == nonws_end(s@, p as int),
        p <= r <= s.len(),
{
    let mut i = p;
    while i < s.len() && !is_whitespace(s[i])
        invariant
            p <= i <= s.len(),
            nonws_end(s@, i as int) == nonws_end(s@, p as int),
        decreases s.len() - i,
    {
        i += 1;
    }
    i
}

/// Executable form of [`word_end`].
pub fn skip_word(s: &[char], p: usize) -> (r: usize)
    requires
        p <= s.len(),
    ensures
        r as int == word_end(s@, p as int),
        p <= r <= s.len(),
{
    let mut i = p;
    while i < s.len() && is_word_char(s[i])
        invariant
            p <= i <= s.len(),
            word_end(s@, i as int) == word_end(s@, p as int),
        decreases s.len() - i,
    {
        i += 1;
    }
    i
}

/// Executable form of [`ws_start_back`].
pub fn back_ws(s: &[char], lo: usize, e: usize) -> (r: usize)
    requires
        lo <= e <= s.len(),
    ensures
        r as int == ws_start_back(s@, lo as int, e as int),
        lo <= r <= e,
{
    let mut i = e;
    while i > lo && is_whitespace(s[i - 1])
        invariant
            lo <= i <= e,
            e <= s.len(),
            ws_start_back(s@, lo as int, i as int) == ws_start_back(s@, lo as int, e as int),
        decreases i - lo,
    {
        i -= 1;
    }
    i
}

/// `s` with leading and trailing whitespace removed (`str::trim`).
pub open spec fn trim(s: Seq<char>) -> Seq<char> {
    let a = ws_end(s, 0);
    s.subrange(a, ws_start_back(s, a, s.len() as int))
}


/// Appends `c` to `s` (`String::push`).
#[verifier::external_body]
pub(crate) fn push_char(s: &mut String, c: char)
    ensures
        final(s)@ == old(s)@.push(c),
{
    s.push(c);
}

/// The string made of `v[a..b]`.
pub fn string_of(v: &[char], a: usize, b: usize) -> (r: String)
    requires
        a <= b <= v.len(),
    ensures
        r@ == v@.subrange(a as int, b as int),
{
    let mut r = String::new();
    let mut i = a;
    while i < b
        invariant
            a <= i <= b <= v.len(),
            r@ == v@.subrange(a as int, i as int),
        decreases b - i,
    {
        push_char(&mut r, v[i]);
        assert(v@.subrange(a as int, i + 1) == v@.subrange(a as int, i as int).push(v@[i as int]));
        i += 1;
    }
    r
}

/// The string made of all of `v`.
pub fn string_of_all(v: &[char]) -> (r: String)
    ensures
        r@ == v@,
{
    let r = string_of(v, 0, v.len());
    assert(v@.subrange(0, v@.len() as int) == v@);
    r
}

/// Appends all of `t` to `s`.
pub fn push_chars(s: &mut String, t: &[char])
    ensures
        final(s)@ == old(s)@ + t@,
{
    let mut i: usize = 0;
    while i < t.len()
        invariant
            i <= t.len(),
            s@ == old(s)@ + t@.subrange(0, i as int),
        decreases t.len() - i,
    {
        push_char(s, t[i]);
        assert(t@.subrange(0, i + 1) == t@.subrange(0, i as int).push(t@[i as int]));
        i += 1;
    }
    assert(t@.subrange(0, t@.len() as int) == t@);
}

/// Appends the string slice `t` to `s`.
pub fn push_str(s: &mut String, t: &str)
    ensures
        final(s)@ == old(s)@ + t@,
{
    let v = chars_of(t);
    push_chars(s, v.as_slice());
}

/// What `str::to_lowercase` computes for `s`.
pub uninterp spec fn unicode_lowercase(s: Seq<char>) -> Seq<char>;

/// Every character of `s` is ASCII.
pub open spec fn is_ascii_text(s: Seq<char>) -> bool {
    forall|i: int| 0 <= i < s.len() ==> (#[trigger] s[i] as u32) < 128
}

/// `c` with `A`–`Z` mapped to `a`–`z`.
pub open spec fn ascii_lower_char(c: char) -> char {
    if 'A' <= c && c <= 'Z' {
        ((c as u32) + 32) as char
    } else {
        c
    }
}

/// `s` with `A`–`Z` mapped to `a`–`z`, every other character kept.
pub open spec fn ascii_lower(s: Seq<char>) -> Seq<char> {
    s.map_values(|c: char| ascii_lower_char(c))
}

/// The lowercase form of `s` as `str::to_lowercase` computes it: for ASCII
/// text the ASCII letters lowered, for other text the Unicode mapping.
pub open spec fn lowercase(s: Seq<char>) -> Seq<char> {
    if is_ascii_text(s) {
        ascii_lower(s)
    } else {
        unicode_lowercase(s)
    }
}

/// Calls `str::to_lowercase`. The result is named; for ASCII text it is
/// stated too (Unicode lowercases `A`–`Z` to `a`–`z` and keeps every other
/// ASCII character). The Unicode case tables behind other characters are
/// not stated.
#[verifier::external_body]
pub(crate) fn to_lower(s: &str) -> (r: String)
    ensures
        r@ == unicode_lowercase(s@),
        is_ascii_text(s@) ==> r@ == ascii_lower(s@),
{
    s.to_lowercase()
}

/// End of `s[..e]` once the trailing copies of `c` are removed.
pub open spec fn trim_end_char(s: Seq<char>, e: int, c: char) -> int
    decreases e,
{
    if 0 < e <= s.len() && s[e - 1] == c {
        trim_end_char(s, e - 1, c)
    } else {
        e
    }
}

/// Length of `s` once trailing `'\n'` and then trailing `'\r'` characters
/// are removed (`trim_end_matches('\n').trim_end_matches('\r')`).
pub open spec fn strip_newline_len(s: Seq<char>) -> int {
    trim_end_char(s, trim_end_char(s, s.len() as int, '\n'), '\r')
}

/// `s` without its trailing line break.
pub open spec fn strip_newline(s: Seq<char>) -> Seq<char> {
    s.subrange(0, strip_newline_len(s))
}

pub proof fn lemma_trim_end_char(s: Seq<char>, e: int, c: char)
    requires
        0 <= e <= s.len(),
    ensures
        0 <= trim_end_char(s, e, c) <= e,
        forall|i: int| trim_end_char(s, e, c) <= i < e ==> #[trigger] s[i] == c,
        trim_end_char(s, e, c) > 0 ==> s[trim_end_char(s, e, c) - 1] != c,
    decreases e,
{
    if 0 < e && s[e - 1] == c {
        lemma_trim_end_char(s, e - 1, c);
    }
}

/// Executable form of [`trim_end_char`].
pub fn trim_end_char_exec(s: &[char], e: usize, c: char) -> (r: usize)
    requires
        e <= s.len(),
    ensures
        r as int == trim_end_char(s@, e as int, c),
        r <= e,
{
    let mut i = e;
    while i > 0 && s[i - 1] == c
        invariant
            i <= e <= s.len(),
            trim_end_char(s@, i as int, c) == trim_end_char(s@, e as int, c),
        decreases i,
    {
        i -= 1;
    }
    i
}

/// Executable form of [`strip_newline_len`].
pub fn strip_newline_end(s: &[char]) -> (r: usize)
    ensures
        r as int == strip_newline_len(s@),
        r <= s.len(),
{
    let a = trim_end_char_exec(s, s.len(), '\n');
    trim_end_char_exec(s, a, '\r')
}

/// Bounds `(a, b)` of `trim(s[lo..hi])` inside `s`.
pub fn trim_bounds(s: &[char], lo: usize, hi: usize) -> (r: (usize, usize))
    requires
        lo <= hi <= s.len(),
    ensures
        lo <= r.0 <= r.1 <= hi,
        s@.subrange(r.0 as int, r.1 as int) == trim(s@.subrange(lo as int, hi as int)),
{
    let ghost t = s@.subrange(lo as int, hi as int);
    let a = skip_ws_upto(s, lo, hi);
    let b = back_ws(s, a, hi);
    proof {
        lemma_ws_start_back_sub(s@, lo as int, hi as int, a as int, hi as int);
        assert(s@.subrange(a as int, b as int) == t.subrange(a - lo, b - lo));
    }
    (a, b)
}

/// End of the whitespace run starting at `p` but not beyond `hi`.
pub fn skip_ws_upto(s: &[char], p: usize, hi: usize) -> (r: usize)
    requires
        p <= hi <= s.len(),
    ensures
        r as int == p + ws_end(s@.subrange(p as int, hi as int), 0) ,
        p <= r <= hi,
{
    let ghost t = s@.subrange(p as int, hi as int);
    let mut i = p;
    while i < hi && is_whitespace(s[i])
        invariant
            p <= i <= hi <= s.len(),
            t == s@.subrange(p as int, hi as int),
            ws_end(t, i - p) == ws_end(t, 0),
        decreases hi - i,
    {
        i += 1;
    }
    i
}

pub proof fn lemma_ws_start_back_sub(s: Seq<char>, lo: int, hi: int, a: int, e: int)
    requires
        0 <= lo <= a <= e <= hi <= s.len(),
    ensures
        lo + ws_start_back(s.subrange(lo, hi), a - lo, e - lo) == ws_start_back(s, a, e),
    decreases e - a,
{
    if a < e && is_ws(s[e - 1]) {
        assert(s.subrange(lo, hi)[e - lo - 1] == s[e - 1]);
        lemma_ws_start_back_sub(s, lo, hi, a, e - 1);
    } else if a < e {
        assert(s.subrange(lo, hi)[e - lo - 1] == s[e - 1]);
    }
}

/// `trim` of a string slice, as a new string.
pub fn trim_string(s: &str) -> (r: String)
    ensures
        r@ == trim(s@),
{
    let v = chars_of(s);
    let (a, b) = trim_bounds(v.as_slice(), 0, v.len());
    assert(v@.subrange(0, v@.len() as int) == v@);
    string_of(v.as_slice(), a, b)
}

/// The decimal digit for `d` (`0..=9`).
pub open spec fn digit_char(d: nat) -> char {
    ((d + 48) as u32) as char
}

/// `n` written in decimal, without leading zeros.
pub open spec fn decimal(n: nat) -> Seq<char>
    decreases n,
{
    if n < 10 {
        seq![digit_char(n)]
    } else {
        decimal(n / 10).push(digit_char(n % 10))
    }
}

fn digit(d: u32) -> (c: char)
    requires
        d < 10,
    ensures
        c == digit_char(d as nat),
{
    match d {
        0 => '0',
        1 => '1',
        2 => '2',
        3 => '3',
        4 => '4',
        5 => '5',
        6 => '6',
        7 => '7',
        8 => '8',
        _ => '9',
    }
}

/// `n` written in decimal.
pub fn decimal_string(n: u32) -> (r: String)
    ensures
        r@ == decimal(n as nat),
{
    // digits, least significant first
    let mut digits: Vec<char> = Vec::new();
    let mut m = n;
    let ghost mut rest: Seq<char> = seq![];
    while m >= 10
        invariant
            m <= n,
            decimal(n as nat) == decimal(m as nat) + rest,
            digits@.reverse() == rest,
        decreases m,
    {
        let c = digit(m % 10);
        assert(decimal(m as nat) == decimal((m / 10) as nat).push(c));
        let ghost old_digits = digits@;
        digits.push(c);
        assert(digits@.reverse() == seq![c] + old_digits.reverse());
        assert(decimal((m / 10) as nat).push(c) + rest == decimal((m / 10) as nat) + (seq![c] + rest));
        proof {
            rest = seq![c] + rest;
        }
        m = m / 10;
    }
    let c = digit(m);
    let ghost old_digits = digits@;
    digits.push(c);
    assert(digits@.reverse() == seq![c] + old_digits.reverse());
    assert(decimal(m as nat) == seq![c]);
    assert(digits@.reverse() == decimal(n as nat));
    let mut r = String::new();
    let mut k = digits.len();
    while k > 0
        invariant
            k <= digits@.len(),
            r@ == digits@.reverse().subrange(0, (digits@.len() - k) as int),
        decreases k,
    {
        k -= 1;
        push_char(&mut r, digits[k]);
        assert(digits@.reverse().subrange(0, (digits@.len() - k) as int) == digits@.reverse().subrange(
            0,
            (digits@.len() - k - 1) as int,
        ).push(digits@[k as int]));
    }
    assert(digits@.reverse().subrange(0, digits@.len() as int) == digits@.reverse());
    r
}

} // verus!
