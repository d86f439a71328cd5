//! Character classes and string helpers used across the library.

use vstd::prelude::*;
use vstd::utf8::*;
use vstd::string::StringExecFns;

verus! {

/// Unicode general category `Cc`: U+0000..U+001F and U+007F..U+009F.
pub open spec fn spec_is_control(c: char) -> bool {
    (c as u32) <= 0x1f || (0x7f <= (c as u32) && (c as u32) <= 0x9f)
}

/// `char::is_control`: true exactly for the `Cc` code points.
pub fn is_control(c: char) -> (b: bool)
    ensures
        b == spec_is_control(c),
{
    let u = c as u32;
    u <= 0x1f || (0x7f <= u && u <= 0x9f)
}

/// The Unicode `White_Space` property.
pub open spec fn spec_is_whitespace(c: char) -> bool {
    let u = c as u32;
    ||| 0x09 <= u <= 0x0d
    ||| u == 0x20
    ||| u == 0x85
    ||| u == 0xa0
    ||| u == 0x1680
    ||| 0x2000 <= u <= 0x200a
    ||| u == 0x2028
    ||| u == 0x2029
    ||| u == 0x202f
    ||| u == 0x205f
    ||| u == 0x3000
}

/// `char::is_whitespace`: true exactly for the `White_Space` code points.
pub fn is_whitespace(c: char) -> (b: bool)
    ensures
        b == spec_is_whitespace(c),
{
    let u = c as u32;
    (0x09 <= u && u <= 0x0d) || u == 0x20 || u == 0x85 || u == 0xa0 || u == 0x1680 || (0x2000
        <= u && u <= 0x200a) || u == 0x2028 || u == 0x2029 || u == 0x202f || u == 0x205f || u
        == 0x3000
}

/// What `char::is_alphanumeric` answers for a character (Unicode `Alphabetic` or `Numeric`).
pub uninterp spec fn char_is_alphanumeric(c: char) -> bool;

/// Whether `char::is_alphanumeric` accepts `c`. No white-space character is
/// `Alphabetic` or `Numeric`, so the answer is never true of white space.
pub open spec fn spec_is_alphanumeric(c: char) -> bool {
    char_is_alphanumeric(c) && !spec_is_whitespace(c)
}

/// Calls `char::is_alphanumeric`. The answer is named, not stated; what is
/// stated is that it is false for the `White_Space` code points (those are
/// control or separator characters, neither `Alphabetic` nor `Numeric`).
#[verifier::external_body]
pub fn is_alphanumeric(c: char) -> (b: bool)
    ensures
        b == char_is_alphanumeric(c),
        b ==> !spec_is_whitespace(c),
{
    c.is_alphanumeric()
}

/// What `str::to_lowercase` returns for a string (full Unicode lowercase mapping).
pub uninterp spec fn lowercase(s: Seq<char>) -> Seq<char>;

/// Calls `str::to_lowercase`; the result is named, not stated.
#[verifier::external_body]
pub fn to_lowercase(s: &str) -> (r: String)
    ensures
        r@ == lowercase(s@),
{
    s.to_lowercase()
}

/// Calls `std::str::from_utf8`: succeeds exactly on well-formed UTF-8 and
/// then yields the decoded characters.
#[verifier::external_body]
pub fn str_from_utf8(bytes: &[u8]) -> (r: Option<&str>)
    ensures
        r is Some <==> valid_utf8(bytes@),
        r matches Some(s) ==> s@ == decode_utf8(bytes@),
{
    std::str::from_utf8(bytes).ok()
}

/// Builds a `String` from characters with `String::from_iter`.
#[verifier::external_body]
pub fn string_from_chars(chars: &[char]) -> (s: String)
    ensures
        s@ == chars@,
{
    String::from_iter(chars)
}

/// Collects the characters of a string slice.
pub fn chars_of(s: &str) -> (v: Vec<char>)
    ensures
        v@ == s@,
{
    let mut v: Vec<char> = Vec::new();
    for c in it: s.chars()
        invariant
            v@ == it.seq().take(it.index() as int),
    {
        v.push(c);
    }
    v
}

/// The separators that break JSONL records are turned into `'\n'`.
pub open spec fn normalize_char(c: char) -> char {
    if c == '\u{0085}' || c == '\u{2028}' || c == '\u{2029}' {
        '\n'
    } else {
        c
    }
}

/// Every NEL, LINE SEPARATOR and PARAGRAPH SEPARATOR replaced by `'\n'`.
pub open spec fn spec_normalize_line_separators(s: Seq<char>) -> Seq<char> {
    s.map_values(|c: char| normalize_char(c))
}

/// Replaces U+0085, U+2028 and U+2029 by `'\n'`, keeping every other character.
pub fn normalize_line_separators(text: &str) -> (r: String)
    ensures
        r@ == spec_normalize_line_separators(text@),
{
    let chars = chars_of(text);
    let mut out: Vec<char> = Vec::new();
    for i in 0..chars.len()
        invariant
            chars@ == text@,
            out@ == spec_normalize_line_separators(chars@.take(i as int)),
    {
        let c = chars[i];
        let n = if c == '\u{0085}' || c == '\u{2028}' || c == '\u{2029}' {
            '\n'
        } else {
            c
        };
        out.push(n);
        assert(chars@.take(i + 1) == chars@.take(i as int).push(c));
    }
    assert(chars@.take(chars@.len() as int) == chars@);
    string_from_chars(out.as_slice())
}

/// `s` without its trailing white space.
pub open spec fn spec_trim_end(s: Seq<char>) -> Seq<char>
    decreases s.len(),
{
    if s.len() > 0 && spec_is_whitespace(s.last()) {
        spec_trim_end(s.drop_last())
    } else {
        s
    }
}

/// `s` without its leading white space.
pub open spec fn spec_trim_start(s: Seq<char>) -> Seq<char>
    decreases s.len(),
{
    if s.len() > 0 && spec_is_whitespace(s[0]) {
        spec_trim_start(s.drop_first())
    } else {
        s
    }
}

/// `s` without leading or trailing white space.
pub open spec fn spec_trim(s: Seq<char>) -> Seq<char> {
    spec_trim_start(spec_trim_end(s))
}

/// `spec_trim_end` keeps a prefix.
pub proof fn lemma_trim_end_prefix(s: Seq<char>)
    ensures
        spec_trim_end(s).len() <= s.len(),
        spec_trim_end(s) == s.take(spec_trim_end(s).len() as int),
    decreases s.len(),
{
    if s.len() > 0 && spec_is_whitespace(s.last()) {
        lemma_trim_end_prefix(s.drop_last());
        assert(s.drop_last().take(spec_trim_end(s).len() as int) == s.take(
            spec_trim_end(s).len() as int,
        ));
    } else {
        assert(s.take(s.len() as int) == s);
    }
}

/// `spec_trim_start` keeps a suffix.
pub proof fn lemma_trim_start_suffix(s: Seq<char>)
    ensures
        spec_trim_start(s).len() <= s.len(),
        spec_trim_start(s) == s.skip(s.len() - spec_trim_start(s).len()),
    decreases s.len(),
{
    if s.len() > 0 && spec_is_whitespace(s[0]) {
        lemma_trim_start_suffix(s.drop_first());
        assert(s.drop_first().skip(s.len() - 1 - spec_trim_start(s).len()) == s.skip(
            s.len() - spec_trim_start(s).len(),
        ));
    } else {
        assert(s.skip(0) == s);
    }
}

/// What `spec_trim_end` leaves is empty or ends in a character that is not
/// white space.
pub proof fn lemma_trim_end_last(s: Seq<char>)
    ensures
        spec_trim_end(s).len() > 0 ==> !spec_is_whitespace(spec_trim_end(s).last()),
    decreases s.len(),
{
    if s.len() > 0 && spec_is_whitespace(s.last()) {
        lemma_trim_end_last(s.drop_last());
    }
}

/// What `spec_trim_start` leaves is empty or begins with a character that is
/// not white space.
pub proof fn lemma_trim_start_first(s: Seq<char>)
    ensures
        spec_trim_start(s).len() > 0 ==> !spec_is_whitespace(spec_trim_start(s)[0]),
    decreases s.len(),
{
    if s.len() > 0 && spec_is_whitespace(s[0]) {
        lemma_trim_start_first(s.drop_first());
    }
}

/// A trimmed text is empty or begins and ends with characters that are not
/// white space, so trimming it again changes nothing.
pub proof fn lemma_trim_ends(s: Seq<char>)
    ensures
        spec_trim(s).len() > 0 ==> !spec_is_whitespace(spec_trim(s)[0]) && !spec_is_whitespace(spec_trim(s).last()),
        spec_trim(spec_trim(s)) == spec_trim(s),
{
    let e = spec_trim_end(s);
    let r = spec_trim_start(e);
    lemma_trim_end_last(s);
    lemma_trim_start_first(e);
    lemma_trim_start_suffix(e);
    if r.len() > 0 {
        assert(r.last() == e.last());
        assert(spec_trim_end(r) == r);
        assert(spec_trim_start(r) == r);
    } else {
        assert(spec_trim_end(r) == r);
    }
}

/// Characters of `s` with trailing white space removed.
pub fn trim_end_chars(s: &[char]) -> (r: Vec<char>)
    ensures
        r@ == spec_trim_end(s@),
{
    let mut end = s.len();
    assert(s@.take(end as int) == s@);
    while end > 0 && is_whitespace(s[end - 1])
        invariant
            end <= s@.len(),
            spec_trim_end(s@.take(end as int)) == spec_trim_end(s@),
        decreases end,
    {
        assert(s@.take(end as int).drop_last() == s@.take(end - 1));
        end = end - 1;
    }
    let mut out: Vec<char> = Vec::new();
    for i in 0..end
        invariant
            end <= s@.len(),
            out@ == s@.take(i as int),
    {
        out.push(s[i]);
        assert(s@.take(i + 1) == s@.take(i as int).push(s@[i as int]));
    }
    out
}

/// Characters of `s` with leading and trailing white space removed.
pub fn trim_chars(s: &[char]) -> (r: Vec<char>)
    ensures
        r@ == spec_trim(s@),
{
    let t = trim_end_chars(s);
    let mut start: usize = 0;
    assert(t@.skip(0) == t@);
    while start < t.len() && is_whitespace(t[start])
        invariant
            start <= t@.len(),
            spec_trim_start(t@.skip(start as int)) == spec_trim_start(t@),
        decreases t@.len() - start,
    {
        assert(t@.skip(start as int).drop_first() == t@.skip(start + 1));
        start = start + 1;
    }
    let mut out: Vec<char> = Vec::new();
    let mut i: usize = start;
    while i < t.len()
        invariant
            start <= i <= t@.len(),
            out@ == t@.subrange(start as int, i as int),
        decreases t@.len() - i,
    {
        out.push(t[i]);
        assert(t@.subrange(start as int, i + 1) == t@.subrange(start as int, i as int).push(
            t@[i as int],
        ));
        i = i + 1;
    }
    assert(out@ == t@.skip(start as int));
    out
}

} // verus!
verus! {

/// The concatenation of three string slices.
pub fn concat3(a: &str, b: &str, c: &str) -> (r: String)
    ensures
        r@ == a@ + b@ + c@,
{
    let mut r = String::from_str(a);
    r.append(b);
    r.append(c);
    r
}

} // verus!
verus! {

/// The ASCII digit for `d` in `0..10`.
pub open spec fn digit_char(d: int) -> char {
    seq!['0', '1', '2', '3', '4', '5', '6', '7', '8', '9'][d]
}

/// Decimal digits of `n`, most significant first, without leading zeros.
pub open spec fn spec_nat_decimal(n: nat) -> Seq<char>
    decreases n,
{
    if n < 10 {
        seq![digit_char(n as int)]
    } else {
        spec_nat_decimal(n / 10).push(digit_char((n % 10) as int))
    }
}

/// `v` written in decimal, with a leading `-` when negative (as `Display` does).
pub open spec fn spec_i64_decimal(v: i64) -> Seq<char> {
    if v < 0 {
        seq!['-'] + spec_nat_decimal((-v) as nat)
    } else {
        spec_nat_decimal(v as nat)
    }
}

fn digit(d: u64) -> (c: char)
    requires
        d < 10,
    ensures
        c == digit_char(d as int),
{
    match d {
        0 => '0',
        1 => '1',
        2 => '2',
        3 => '3',
        4 => '4',
        5 => '5',
        6 => '6',
        7 => '7',
        8 => '8',
        _ => '9',
    }
}

/// Decimal digits of `n`.
pub fn nat_decimal(n: u64) -> (r: Vec<char>)
    ensures
        r@ == spec_nat_decimal(n as nat),
    decreases n,
{
    if n < 10 {
        let mut r: Vec<char> = Vec::new();
        r.push(digit(n));
        r
    } else {
        let mut r = nat_decimal(n / 10);
        r.push(digit(n % 10));
        r
    }
}

/// `v` in decimal, as `i64`'s `Display` writes it.
pub fn i64_decimal(v: i64) -> (r: Vec<char>)
    ensures
        r@ == spec_i64_decimal(v),
{
    if v < 0 {
        let magnitude: u64 = (0i128 - (v as i128)) as u64;
        let digits = nat_decimal(magnitude);
        let mut r: Vec<char> = Vec::new();
        r.push('-');
        let mut i: usize = 0;
        while i < digits.len()
            invariant
                i <= digits@.len(),
                r@ == seq!['-'] + digits@.take(i as int),
            decreases digits@.len() - i,
        {
            r.push(digits[i]);
            assert(digits@.take(i + 1) == digits@.take(i as int).push(digits@[i as int]));
            i = i + 1;
        }
        assert(digits@.take(digits@.len() as int) == digits@);
        r
    } else {
        nat_decimal(v as u64)
    }
}

/// Whether `c` is an ASCII digit.
pub open spec fn is_ascii_digit(c: char) -> bool {
    '0' <= c && c <= '9'
}

/// Value of a string of ASCII digits.
pub open spec fn digits_value(s: Seq<char>) -> int
    decreases s.len(),
{
    if s.len() == 0 {
        0
    } else {
        digits_value(s.drop_last()) * 10 + ((s.last() as u32) - ('0' as u32))
    }
}

/// Parses a non-empty string of ASCII digits as an `i64`; `None` when it
/// is empty, holds another character, or exceeds `i64::MAX`.
pub fn parse_i64_digits(s: &[char]) -> (r: Option<i64>)
    ensures
        match r {
            Some(v) => s@.len() > 0 && (forall|i: int| 0 <= i < s@.len() ==> is_ascii_digit(#[trigger] s@[i]))
                && digits_value(s@) == v,
            None => s@.len() == 0 || (exists|i: int| 0 <= i < s@.len() && !is_ascii_digit(#[trigger] s@[i]))
                || digits_value(s@) > i64::MAX,
        },
{
    if s.len() == 0 {
        return None;
    }
    let mut value: i64 = 0;
    for i in 0..s.len()
        invariant
            forall|j: int| 0 <= j < i ==> is_ascii_digit(#[trigger] s@[j]),
            value == digits_value(s@.take(i as int)),
            value >= 0,
    {
        let c = s[i];
        assert(s@.take(i + 1).drop_last() == s@.take(i as int));
        if !('0' <= c && c <= '9') {
            return None;
        }
        let d = ((c as u32) - ('0' as u32)) as i64;
        if value > (i64::MAX - d) / 10 {
            proof {
                lemma_digits_value_grows(s@, i as int + 1);
            }
            return None;
        }
        assert(0 <= value * 10 + d <= i64::MAX) by (nonlinear_arith)
            requires
                0 <= value <= (i64::MAX - d) / 10,
                0 <= d <= 9,
        ;
        value = value * 10 + d;
    }
    assert(s@.take(s@.len() as int) == s@);
    Some(value)
}

proof fn lemma_digits_value_grows(s: Seq<char>, k: int)
    requires
        0 <= k <= s.len(),
        forall|j: int| 0 <= j < k ==> is_ascii_digit(#[trigger] s[j]),
    ensures
        (forall|j: int| 0 <= j < s.len() ==> is_ascii_digit(#[trigger] s[j])) ==> digits_value(s)
            >= digits_value(s.take(k)),
    decreases s.len() - k,
{
    if k < s.len() && (forall|j: int| 0 <= j < s.len() ==> is_ascii_digit(#[trigger] s[j])) {
        lemma_digits_value_grows(s, k + 1);
        lemma_digits_value_prefix(s, k);
    } else if k == s.len() {
        assert(s.take(k) == s);
    }
}

proof fn lemma_digits_value_prefix(s: Seq<char>, k: int)
    requires
        0 <= k < s.len(),
        forall|j: int| 0 <= j < s.len() ==> is_ascii_digit(#[trigger] s[j]),
    ensures
        digits_value(s.take(k + 1)) >= digits_value(s.take(k)),
        digits_value(s.take(k)) >= 0,
    decreases k,
{
    assert(s.take(k + 1).drop_last() == s.take(k));
    assert(is_ascii_digit(s[k]));
    if k > 0 {
        lemma_digits_value_prefix(s, k - 1);
    }
    assert(digits_value(s.take(k)) * 10 >= digits_value(s.take(k))) by (nonlinear_arith)
        requires digits_value(s.take(k)) >= 0;
}

} // verus!
verus! {

/// Lexicographic order on characters by code point, as `str`'s `Ord` compares.
pub open spec fn lex_le(a: Seq<char>, b: Seq<char>) -> bool
    decreases a.len(),
{
    if a.len() == 0 {
        true
    } else if b.len() == 0 {
        false
    } else if a[0] != b[0] {
        a[0] < b[0]
    } else {
        lex_le(a.drop_first(), b.drop_first())
    }
}

/// Any two strings are ordered one way or the other.
pub proof fn lemma_lex_total(a: Seq<char>, b: Seq<char>)
    ensures
        lex_le(a, b) || lex_le(b, a),
    decreases a.len(),
{
    if a.len() > 0 && b.len() > 0 && a[0] == b[0] {
        lemma_lex_total(a.drop_first(), b.drop_first());
    }
}

/// The order is transitive.
pub proof fn lemma_lex_transitive(a: Seq<char>, b: Seq<char>, c: Seq<char>)
    requires
        lex_le(a, b),
        lex_le(b, c),
    ensures
        lex_le(a, c),
    decreases a.len(),
{
    if a.len() > 0 && b.len() > 0 && c.len() > 0 && a[0] == b[0] && b[0] == c[0] {
        lemma_lex_transitive(a.drop_first(), b.drop_first(), c.drop_first());
    }
}

/// Compares two character strings (see `lex_le`).
pub fn lex_le_chars(a: &[char], b: &[char]) -> (r: bool)
    ensures
        r == lex_le(a@, b@),
{
    let mut i: usize = 0;
    assert(a@.skip(0) == a@);
    assert(b@.skip(0) == b@);
    while i < a.len()
        invariant
            i <= a@.len(),
            i <= b@.len() || i == 0,
            a@.take(i as int) == b@.take(i as int),
            lex_le(a@, b@) == lex_le(a@.skip(i as int), b@.skip(i as int)),
        decreases a@.len() - i,
    {
        if i >= b.len() {
            return false;
        }
        if a[i] != b[i] {
            return a[i] < b[i];
        }
        assert(a@.skip(i as int).drop_first() == a@.skip(i + 1));
        assert(b@.skip(i as int).drop_first() == b@.skip(i + 1));
        assert(a@.take(i + 1) == a@.take(i as int).push(a@[i as int]));
        assert(b@.take(i + 1) == b@.take(i as int).push(b@[i as int]));
        i = i + 1;
    }
    true
}

} // verus!
verus! {

/// `x` appended to `d` unless it is empty.
pub open spec fn push_nonempty(d: Seq<Seq<char>>, x: Seq<char>) -> Seq<Seq<char>> {
    if x.len() > 0 {
        d.push(x)
    } else {
        d
    }
}

/// Splitting at `/`: the finished pieces, trimmed with blank ones dropped,
/// and the unfinished last piece.
pub open spec fn segment_fold(s: Seq<char>) -> (Seq<Seq<char>>, Seq<char>)
    decreases s.len(),
{
    if s.len() == 0 {
        (seq![], seq![])
    } else {
        let prev = segment_fold(s.drop_last());
        if s.last() == '/' {
            (push_nonempty(prev.0, spec_trim(prev.1)), seq![])
        } else {
            (prev.0, prev.1.push(s.last()))
        }
    }
}

/// The `/`-separated pieces of `s`, each trimmed, with the blank ones dropped.
pub open spec fn path_segments(s: Seq<char>) -> Seq<Seq<char>> {
    push_nonempty(segment_fold(s).0, spec_trim(segment_fold(s).1))
}

/// The pieces joined with `/` between them.
pub open spec fn join_slash(parts: Seq<Seq<char>>) -> Seq<char>
    decreases parts.len(),
{
    if parts.len() == 0 {
        seq![]
    } else if parts.len() == 1 {
        parts[0]
    } else {
        join_slash(parts.drop_last()) + seq!['/'] + parts.last()
    }
}

/// The trimmed, non-blank `/`-separated pieces of `s`.
pub fn segments_of(s: &str) -> (r: Vec<Vec<char>>)
    ensures
        r@.map_values(|v: Vec<char>| v@) == path_segments(s@),
{
    let chars = chars_of(s);
    let mut done: Vec<Vec<char>> = Vec::new();
    let mut cur: Vec<char> = Vec::new();
    for i in 0..chars.len()
        invariant
            chars@ == s@,
            done@.map_values(|v: Vec<char>| v@) == segment_fold(chars@.take(i as int)).0,
            cur@ == segment_fold(chars@.take(i as int)).1,
    {
        let c = chars[i];
        assert(chars@.take(i + 1).drop_last() == chars@.take(i as int));
        if c == '/' {
            let piece = trim_chars(cur.as_slice());
            if piece.len() > 0 {
                let ghost before = done@;
                done.push(piece);
                assert(done@.map_values(|v: Vec<char>| v@) == before.map_values(|v: Vec<char>| v@).push(piece@));
            }
            cur = Vec::new();
        } else {
            cur.push(c);
        }
    }
    assert(chars@.take(chars@.len() as int) == chars@);
    let piece = trim_chars(cur.as_slice());
    if piece.len() > 0 {
        let ghost before = done@;
        done.push(piece);
        assert(done@.map_values(|v: Vec<char>| v@) == before.map_values(|v: Vec<char>| v@).push(piece@));
    }
    done
}

/// The pieces joined with `/`.
pub fn join_slash_chars(parts: &[Vec<char>]) -> (r: Vec<char>)
    ensures
        r@ == join_slash(parts@.map_values(|v: Vec<char>| v@)),
{
    let ghost pv = parts@.map_values(|v: Vec<char>| v@);
    let mut out: Vec<char> = Vec::new();
    for i in 0..parts.len()
        invariant
            pv == parts@.map_values(|v: Vec<char>| v@),
            out@ == join_slash(pv.take(i as int)),
    {
        assert(pv.take(i + 1).drop_last() == pv.take(i as int));
        if i > 0 {
            out.push('/');
        }
        let mut piece = parts[i].clone();
        assert(piece@ == pv[i as int]);
        out.append(&mut piece);
        if i == 0 {
            assert(out@ == pv.take(1)[0]);
        }
    }
    assert(pv.take(pv.len() as int) == pv);
    out
}

/// A path piece as the splitting leaves it: not empty, no `/`, trimmed.
pub open spec fn good_segment(g: Seq<char>) -> bool {
    g.len() > 0 && !g.contains('/') && spec_trim(g) == g
}

/// Trimming keeps a text free of `/`.
pub proof fn lemma_trim_no_slash(x: Seq<char>)
    requires
        !x.contains('/'),
    ensures
        !spec_trim(x).contains('/'),
{
    let e = spec_trim_end(x);
    lemma_trim_end_prefix(x);
    lemma_trim_start_suffix(e);
    let t = spec_trim(x);
    if t.contains('/') {
        let i = choose|i: int| 0 <= i < t.len() && t[i] == '/';
        let k = e.len() - t.len() + i;
        assert(t[i] == e[k]);
        assert(e[k] == x[k]);
    }
}

proof fn lemma_fold_append_no_slash(x: Seq<char>, g: Seq<char>)
    requires
        !g.contains('/'),
    ensures
        segment_fold(x + g) == (segment_fold(x).0, segment_fold(x).1 + g),
    decreases g.len(),
{
    if g.len() == 0 {
        assert(x + g == x);
        assert(segment_fold(x).1 + g == segment_fold(x).1);
    } else {
        let g2 = g.drop_last();
        assert(!g2.contains('/')) by {
            if g2.contains('/') {
                let i = choose|i: int| 0 <= i < g2.len() && g2[i] == '/';
                assert(g[i] == '/');
            }
        }
        lemma_fold_append_no_slash(x, g2);
        assert((x + g).drop_last() == x + g2);
        assert((x + g).last() == g.last());
        assert(g.last() != '/') by {
            assert(g[g.len() - 1] == g.last());
        }
        assert(segment_fold(x).1 + g == (segment_fold(x).1 + g2).push(g.last()));
    }
}

proof fn lemma_fold_join(segs: Seq<Seq<char>>)
    requires
        segs.len() >= 1,
        forall|i: int| 0 <= i < segs.len() ==> good_segment(#[trigger] segs[i]),
    ensures
        segment_fold(join_slash(segs)) == (segs.drop_last(), segs.last()),
    decreases segs.len(),
{
    let g = segs.last();
    assert(good_segment(segs[segs.len() - 1]));
    if segs.len() == 1 {
        lemma_fold_append_no_slash(seq![], g);
        assert(seq![] + g == g);
        assert(segs.drop_last() == Seq::<Seq<char>>::empty());
    } else {
        let init = segs.drop_last();
        assert forall|i: int| 0 <= i < init.len() implies good_segment(#[trigger] init[i]) by {
            assert(init[i] == segs[i]);
        }
        lemma_fold_join(init);
        let j = join_slash(init);
        assert(good_segment(init[init.len() - 1]));
        let js = j.push('/');
        assert(js.drop_last() == j);
        assert(segment_fold(js) == (init.drop_last().push(init.last()), Seq::<char>::empty()));
        assert(init.drop_last().push(init.last()) == init);
        assert(join_slash(segs) == js + g);
        lemma_fold_append_no_slash(js, g);
        assert(Seq::<char>::empty() + g == g);
    }
}

/// Splitting joined pieces gives the pieces back.
pub proof fn lemma_segments_of_join(segs: Seq<Seq<char>>)
    requires
        segs.len() >= 1,
        forall|i: int| 0 <= i < segs.len() ==> good_segment(#[trigger] segs[i]),
    ensures
        path_segments(join_slash(segs)) == segs,
{
    lemma_fold_join(segs);
    assert(good_segment(segs[segs.len() - 1]));
    assert(segs.drop_last().push(segs.last()) == segs);
}

proof fn lemma_fold_segments_good(s: Seq<char>)
    ensures
        forall|i: int| 0 <= i < segment_fold(s).0.len() ==> good_segment(#[trigger] segment_fold(s).0[i]),
        !segment_fold(s).1.contains('/'),
    decreases s.len(),
{
    if s.len() > 0 {
        lemma_fold_segments_good(s.drop_last());
        let prev = segment_fold(s.drop_last());
        if s.last() == '/' {
            let t = spec_trim(prev.1);
            lemma_trim_no_slash(prev.1);
            lemma_trim_ends(prev.1);
            let d = push_nonempty(prev.0, t);
            assert forall|i: int| 0 <= i < d.len() implies good_segment(#[trigger] d[i]) by {
                if i < prev.0.len() {
                    assert(d[i] == prev.0[i]);
                }
            }
            assert(!Seq::<char>::empty().contains('/'));
        } else {
            let c = prev.1.push(s.last());
            if c.contains('/') {
                let i = choose|i: int| 0 <= i < c.len() && c[i] == '/';
                if i < prev.1.len() {
                    assert(prev.1[i] == '/');
                }
            }
        }
    }
}

/// Every piece of a split path is not empty, free of `/`, and trimmed.
pub proof fn lemma_path_segments_good(s: Seq<char>)
    ensures
        forall|i: int| 0 <= i < path_segments(s).len() ==> good_segment(#[trigger] path_segments(s)[i]),
{
    lemma_fold_segments_good(s);
    let f = segment_fold(s);
    let t = spec_trim(f.1);
    lemma_trim_no_slash(f.1);
    lemma_trim_ends(f.1);
    let d = push_nonempty(f.0, t);
    assert forall|i: int| 0 <= i < d.len() implies good_segment(#[trigger] d[i]) by {
        if i < f.0.len() {
            assert(d[i] == f.0[i]);
        }
    }
}

/// Whether `s` begins with `prefix`.
pub open spec fn starts_with(s: Seq<char>, prefix: Seq<char>) -> bool {
    prefix.len() <= s.len() && s.take(prefix.len() as int) == prefix
}

/// Whether a character string begins with `prefix`.
pub fn starts_with_chars(s: &[char], prefix: &[char]) -> (b: bool)
    ensures
        b == starts_with(s@, prefix@),
{
    if prefix.len() > s.len() {
        return false;
    }
    for i in 0..prefix.len()
        invariant
            prefix@.len() <= s@.len(),
            forall|j: int| 0 <= j < i ==> s@[j] == prefix@[j],
    {
        if s[i] != prefix[i] {
            assert(s@.take(prefix@.len() as int)[i as int] != prefix@[i as int]);
            return false;
        }
    }
    assert(s@.take(prefix@.len() as int) =~= prefix@);
    true
}

/// ASCII letters folded to lower case; other characters unchanged.
pub open spec fn ascii_lower(c: char) -> char {
    if 'A' <= c && c <= 'Z' {
        ((c as u32) + 32) as char
    } else {
        c
    }
}

/// `str::eq_ignore_ascii_case`: equal up to ASCII letter case.
pub open spec fn eq_ignore_ascii_case(a: Seq<char>, b: Seq<char>) -> bool {
    a.len() == b.len() && forall|i: int| 0 <= i < a.len() ==> ascii_lower(#[trigger] a[i]) == ascii_lower(b[i])
}

fn ascii_lower_char(c: char) -> (r: char)
    ensures
        r == ascii_lower(c),
{
    if 'A' <= c && c <= 'Z' {
        ((c as u32 + 32) as u8) as char
    } else {
        c
    }
}

/// Whether two strings are equal up to ASCII letter case.
pub fn eq_ignore_ascii_case_chars(a: &[char], b: &[char]) -> (r: bool)
    ensures
        r == eq_ignore_ascii_case(a@, b@),
{
    if a.len() != b.len() {
        return false;
    }
    for i in 0..a.len()
        invariant
            a@.len() == b@.len(),
            forall|j: int| 0 <= j < i ==> ascii_lower(#[trigger] a@[j]) == ascii_lower(b@[j]),
    {
        if ascii_lower_char(a[i]) != ascii_lower_char(b[i]) {
            return false;
        }
    }
    true
}

} // verus!
verus! {

/// Whether `pat` occurs in `s` starting at index `i`.
pub open spec fn occurs_at(s: Seq<char>, pat: Seq<char>, i: int) -> bool {
    0 <= i && i + pat.len() <= s.len() && s.subrange(i, i + pat.len()) == pat
}

/// The largest start index `<= i` of an occurrence of `pat` in `s`, or -1.
pub open spec fn last_occurrence_from(s: Seq<char>, pat: Seq<char>, i: int) -> int
    decreases i + 1,
{
    if i < 0 {
        -1
    } else if occurs_at(s, pat, i) {
        i
    } else {
        last_occurrence_from(s, pat, i - 1)
    }
}

/// Start of the last occurrence of `pat` in `s`, or -1.
pub open spec fn last_occurrence(s: Seq<char>, pat: Seq<char>) -> int {
    last_occurrence_from(s, pat, s.len() - pat.len())
}

/// Whether `pat` occurs in `s` at index `i`.
pub fn occurs_at_chars(s: &[char], pat: &[char], i: usize) -> (b: bool)
    ensures
        b == occurs_at(s@, pat@, i as int),
{
    if i > s.len() || pat.len() > s.len() - i {
        return false;
    }
    for j in 0..pat.len()
        invariant
            i + pat@.len() <= s@.len(),
            s@.len() == s.len(),
            forall|k: int| 0 <= k < j ==> s@[i + k] == pat@[k],
    {
        if s[i + j] != pat[j] {
            assert(s@.subrange(i as int, i + pat@.len())[j as int] != pat@[j as int]);
            return false;
        }
    }
    assert(s@.subrange(i as int, i + pat@.len()) =~= pat@);
    true
}

/// Start of the last occurrence of `pat` in `s`.
pub fn last_occurrence_chars(s: &[char], pat: &[char]) -> (r: Option<usize>)
    ensures
        match r {
            Some(i) => last_occurrence(s@, pat@) == i && i + pat@.len() <= s@.len(),
            None => last_occurrence(s@, pat@) < 0,
        },
{
    if pat.len() > s.len() {
        return None;
    }
    let mut i: usize = s.len() - pat.len();
    loop
        invariant
            i <= s@.len() - pat@.len(),
            last_occurrence(s@, pat@) == last_occurrence_from(s@, pat@, i as int),
        decreases i,
    {
        if occurs_at_chars(s, pat, i) {
            return Some(i);
        }
        if i == 0 {
            assert(last_occurrence_from(s@, pat@, -1) == -1);
            return None;
        }
        i = i - 1;
    }
}

/// Whether every character of `s` is an ASCII digit.
pub open spec fn all_ascii_digits(s: Seq<char>) -> bool {
    forall|i: int| 0 <= i < s.len() ==> is_ascii_digit(#[trigger] s[i])
}

/// Whether every character is an ASCII digit.
pub fn all_digits(s: &[char]) -> (b: bool)
    ensures
        b == all_ascii_digits(s@),
{
    for i in 0..s.len()
        invariant
            forall|j: int| 0 <= j < i ==> is_ascii_digit(#[trigger] s@[j]),
    {
        if !('0' <= s[i] && s[i] <= '9') {
            return false;
        }
    }
    true
}

/// Characters `from..` of `s`.
pub fn skip_chars(s: &[char], from: usize) -> (r: Vec<char>)
    requires
        from <= s@.len(),
    ensures
        r@ == s@.skip(from as int),
{
    let mut out: Vec<char> = Vec::new();
    let mut i = from;
    while i < s.len()
        invariant
            from <= i <= s@.len(),
            out@ == s@.subrange(from as int, i as int),
        decreases s@.len() - i,
    {
        out.push(s[i]);
        assert(s@.subrange(from as int, i + 1) == s@.subrange(from as int, i as int).push(s@[i as int]));
        i = i + 1;
    }
    out
}

} // verus!
