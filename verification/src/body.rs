//! Apple Notes body blobs: gzip-wrapped protobuf messages whose longest
//! readable length-delimited field is the note text.

use vstd::prelude::*;
use vstd::utf8::*;

use crate::text::{
    spec_is_alphanumeric, chars_of, is_alphanumeric, is_control, spec_is_control,
    spec_normalize_line_separators, spec_trim, spec_trim_end, str_from_utf8, string_from_chars,
    trim_chars, trim_end_chars, normalize_char, lemma_trim_end_prefix, lemma_trim_start_suffix, is_whitespace, spec_is_whitespace,
    lemma_trim_end_last, lemma_trim_ends, spec_trim_start,
};

verus! {

/// Largest decoded body that is accepted (16 MiB).
pub const MAX_DECODED_BODY_BYTES: usize = 16777216;

/// Deepest nesting of length-delimited messages that is walked.
pub const MAX_RECURSION_DEPTH: usize = 8;

/// Number of collected candidates after which a walk stops.
pub const MAX_CANDIDATES: usize = 256;

/// Base-128 varint decoding from byte `start + i` on, with the low bits
/// decoded so far in `acc`: each byte adds its low seven bits at bit `7 * i`;
/// a byte with a clear high bit ends the varint; at most ten bytes are read.
pub open spec fn spec_varint_from(m: Seq<u8>, start: int, i: nat, acc: u64) -> Option<(u64, int)>
    decreases 10 - i,
{
    if i >= 10 || start < 0 || start + i >= m.len() {
        None
    } else {
        let b = m[start + i];
        let acc2 = acc | (((b & 0x7f) as u64) << ((7 * i) as u64));
        if b & 0x80 == 0 {
            Some((acc2, start + i + 1))
        } else {
            spec_varint_from(m, start, i + 1, acc2)
        }
    }
}

/// The varint that starts at `start`: its value and the index just past it.
pub open spec fn spec_read_varint(m: Seq<u8>, start: int) -> Option<(u64, int)> {
    spec_varint_from(m, start, 0, 0)
}

/// A varint ends after its first byte and within the message.
pub proof fn lemma_varint_bounds(m: Seq<u8>, start: int, i: nat, acc: u64)
    ensures
        spec_varint_from(m, start, i, acc) matches Some((_, end)) ==> start + i < end <= m.len()
            && end <= start + 10,
    decreases 10 - i,
{
    if !(i >= 10 || start < 0 || start + i >= m.len()) {
        let b = m[start + i];
        let acc2 = acc | (((b & 0x7f) as u64) << ((7 * i) as u64));
        if b & 0x80 != 0 {
            lemma_varint_bounds(m, start, i + 1, acc2);
        }
    }
}

/// Reads the base-128 varint at `start`, returning its value and the index
/// just past it, or `None` when the message ends first or it runs past ten bytes.
pub fn read_varint(message: &[u8], start: usize) -> (r: Option<(u64, usize)>)
    ensures
        match r {
            Some((v, e)) => spec_read_varint(message@, start as int) == Some((v, e as int)),
            None => spec_read_varint(message@, start as int) is None,
        },
{
    let mut value: u64 = 0;
    let mut shift: u64 = 0;
    let mut cursor: usize = start;
    let ghost mut i: nat = 0;
    while cursor < message.len() && shift < 64
        invariant
            cursor == start + i,
            shift == 7 * i,
            i <= 10,
            spec_varint_from(message@, start as int, i, value) == spec_read_varint(
                message@,
                start as int,
            ),
        decreases message@.len() - cursor,
    {
        let byte = message[cursor];
        cursor = cursor + 1;
        value = value | (((byte & 0x7f) as u64) << shift);
        if byte & 0x80 == 0 {
            return Some((value, cursor));
        }
        shift = shift + 7;
        proof {
            i = i + 1;
        }
    }
    None
}


/// Whether a character counts as printable: tab, CR, LF, or not a control code.
pub open spec fn is_printable(c: char) -> bool {
    c == '\n' || c == '\r' || c == '\t' || !spec_is_control(c)
}

/// Number of printable characters in `t`.
pub open spec fn count_printable(t: Seq<char>) -> int
    decreases t.len(),
{
    if t.len() == 0 {
        0
    } else {
        count_printable(t.drop_last()) + if is_printable(t.last()) {
            1int
        } else {
            0int
        }
    }
}

/// Splitting `t` at `'\n'`: the completed lines, each with trailing white
/// space removed and followed by `'\n'`, and the unfinished last line.
pub open spec fn line_fold(t: Seq<char>) -> (Seq<char>, Seq<char>)
    decreases t.len(),
{
    if t.len() == 0 {
        (seq![], seq![])
    } else {
        let prev = line_fold(t.drop_last());
        if t.last() == '\n' {
            (prev.0 + spec_trim_end(prev.1).push('\n'), seq![])
        } else {
            (prev.0, prev.1.push(t.last()))
        }
    }
}

/// `t` with trailing white space removed from every line.
pub open spec fn spec_strip_line_ends(t: Seq<char>) -> Seq<char> {
    line_fold(t).0 + spec_trim_end(line_fold(t).1)
}

/// The text a length-delimited chunk contributes, if any: it must be UTF-8
/// of at least three characters with an alphanumeric one and at least 85%
/// printable characters; line separators become `'\n'`, line ends and the
/// whole text are trimmed, and an empty result counts as none.
pub open spec fn spec_text_candidate(chunk: Seq<u8>) -> Option<Seq<char>> {
    if !valid_utf8(chunk) {
        None
    } else {
        let t = decode_utf8(chunk);
        if t.len() < 3 || !(exists|i: int| 0 <= i < t.len() && spec_is_alphanumeric(#[trigger] t[i])) {
            None
        } else if count_printable(t) * 100 / (t.len() as int) < 85 {
            None
        } else {
            let cleaned = spec_trim(spec_strip_line_ends(spec_normalize_line_separators(t)));
            if cleaned.len() == 0 {
                None
            } else {
                Some(cleaned)
            }
        }
    }
}

/// Removes trailing white space from every `'\n'`-separated line.
fn strip_line_ends(t: &[char]) -> (r: Vec<char>)
    ensures
        r@ == spec_strip_line_ends(t@),
{
    let mut done: Vec<char> = Vec::new();
    let mut cur: Vec<char> = Vec::new();
    for i in 0..t.len()
        invariant
            (done@, cur@) == line_fold(t@.take(i as int)),
    {
        let c = t[i];
        assert(t@.take(i + 1).drop_last() == t@.take(i as int));
        if c == '\n' {
            let mut trimmed = trim_end_chars(cur.as_slice());
            done.append(&mut trimmed);
            done.push('\n');
            cur = Vec::new();
        } else {
            cur.push(c);
        }
    }
    assert(t@.take(t@.len() as int) == t@);
    let mut last = trim_end_chars(cur.as_slice());
    done.append(&mut last);
    done
}

/// The cleaned text of a chunk when it reads as note text (see `spec_text_candidate`).
pub fn text_candidate(chunk: &[u8]) -> (r: Option<String>)
    ensures
        match r {
            Some(s) => spec_text_candidate(chunk@) == Some(s@),
            None => spec_text_candidate(chunk@) is None,
        },
{
    let text = match str_from_utf8(chunk) {
        Some(text) => text,
        None => return None,
    };
    let t = chars_of(text);
    if t.len() < 3 {
        return None;
    }
    let mut has_alnum = false;
    let mut printable: usize = 0;
    for i in 0..t.len()
        invariant
            printable == count_printable(t@.take(i as int)),
            printable <= i,
            has_alnum <==> exists|j: int| 0 <= j < i && spec_is_alphanumeric(#[trigger] t@[j]),
    {
        let c = t[i];
        assert(t@.take(i + 1).drop_last() == t@.take(i as int));
        if is_alphanumeric(c) {
            has_alnum = true;
        }
        if c == '\n' || c == '\r' || c == '\t' || !is_control(c) {
            printable = printable + 1;
        }
    }
    assert(t@.take(t@.len() as int) == t@);
    if !has_alnum {
        return None;
    }
    let total = t.len();
    if (printable as u128) * 100 / (total as u128) < 85 {
        return None;
    }
    let mut normalized: Vec<char> = Vec::new();
    for i in 0..t.len()
        invariant
            normalized@ == spec_normalize_line_separators(t@.take(i as int)),
    {
        let c = t[i];
        let n = if c == '\u{0085}' || c == '\u{2028}' || c == '\u{2029}' {
            '\n'
        } else {
            c
        };
        normalized.push(n);
        assert(t@.take(i + 1) == t@.take(i as int).push(c));
    }
    let stripped = strip_line_ends(normalized.as_slice());
    let cleaned = trim_chars(stripped.as_slice());
    if cleaned.len() == 0 {
        None
    } else {
        Some(string_from_chars(cleaned.as_slice()))
    }
}


/// The views of a list of strings.
pub open spec fn views(v: Seq<String>) -> Seq<Seq<char>> {
    v.map_values(|s: String| s@)
}

/// Candidates collected from message `m` at nesting `depth`, appended to
/// `acc`: nothing is walked past `MAX_RECURSION_DEPTH` or once
/// `MAX_CANDIDATES` candidates are held.
pub open spec fn spec_walk_message(m: Seq<u8>, depth: int, acc: Seq<Seq<char>>) -> Seq<
    Seq<char>,
>
    decreases m.len(), m.len() + 1,
{
    if depth > MAX_RECURSION_DEPTH || acc.len() >= MAX_CANDIDATES {
        acc
    } else {
        spec_walk_fields(m, 0, depth, acc)
    }
}

/// Candidates collected from the fields of `m` from index `cursor` on.
/// Each field starts with a non-zero varint key whose low three bits give
/// its wire type: 0 (a varint), 1 (eight bytes) and 5 (four bytes) are
/// skipped; 2 (a varint length, then that many bytes) offers its bytes as a
/// text candidate and is walked as a nested message; any malformed field,
/// zero key, other wire type or field running past the end stops the walk.
/// The walk also stops right after a candidate that brings the count to
/// `MAX_CANDIDATES`.
pub open spec fn spec_walk_fields(m: Seq<u8>, cursor: int, depth: int, acc: Seq<Seq<char>>) -> Seq<
    Seq<char>,
>
    decreases m.len(), m.len() - cursor,
{
    if cursor < 0 || cursor >= m.len() {
        acc
    } else {
        match spec_read_varint(m, cursor) {
            None => acc,
            Some((key, after_key)) => {
                proof {
                    lemma_varint_bounds(m, cursor, 0, 0);
                }
                if key == 0 {
                    acc
                } else if key & 7 == 0 {
                    match spec_read_varint(m, after_key) {
                        None => acc,
                        Some((_, next)) => {
                            proof {
                                lemma_varint_bounds(m, after_key, 0, 0);
                            }
                            spec_walk_fields(m, next, depth, acc)
                        },
                    }
                } else if key & 7 == 1 {
                    if after_key + 8 < m.len() {
                        spec_walk_fields(m, after_key + 8, depth, acc)
                    } else {
                        acc
                    }
                } else if key & 7 == 2 {
                    match spec_read_varint(m, after_key) {
                        None => acc,
                        Some((len, after_len)) => {
                            proof {
                                lemma_varint_bounds(m, after_key, 0, 0);
                            }
                            let end = after_len + ((len as usize) as int);
                            if end > usize::MAX || end > m.len() {
                                acc
                            } else {
                                let chunk = m.subrange(after_len, end);
                                match spec_text_candidate(chunk) {
                                    Some(t) => {
                                        if acc.len() + 1 >= MAX_CANDIDATES {
                                            acc.push(t)
                                        } else {
                                            let acc2 = spec_walk_message(chunk, depth + 1, acc.push(t));
                                            spec_walk_fields(m, end, depth, acc2)
                                        }
                                    },
                                    None => {
                                        let acc2 = spec_walk_message(chunk, depth + 1, acc);
                                        spec_walk_fields(m, end, depth, acc2)
                                    },
                                }
                            }
                        },
                    }
                } else if key & 7 == 5 {
                    if after_key + 4 < m.len() {
                        spec_walk_fields(m, after_key + 4, depth, acc)
                    } else {
                        acc
                    }
                } else {
                    acc
                }
            },
        }
    }
}

/// Walks `message` at nesting `depth`, appending every text candidate
/// (see `spec_walk_message`).
pub fn collect_text_fields(message: &[u8], depth: usize, candidates: &mut Vec<String>)
    ensures
        views(final(candidates)@) == spec_walk_message(message@, depth as int, views(old(candidates)@)),
    decreases message@.len(),
{
    if depth > MAX_RECURSION_DEPTH || candidates.len() >= MAX_CANDIDATES {
        return ;
    }
    let ghost target = spec_walk_message(message@, depth as int, views(old(candidates)@));
    let mut cursor: usize = 0;
    while cursor < message.len()
        invariant
            cursor <= message@.len(),
            depth <= MAX_RECURSION_DEPTH,
            target == spec_walk_message(message@, depth as int, views(old(candidates)@)),
            spec_walk_fields(message@, cursor as int, depth as int, views(candidates@)) == target,
        decreases message@.len() - cursor,
    {
        let ghost m = message@;
        let ghost before = views(candidates@);
        let (key, after_key) = match read_varint(message, cursor) {
            Some(pair) => pair,
            None => {
                assert(spec_walk_fields(m, cursor as int, depth as int, before) == before);
                return ;
            },
        };
        proof {
            lemma_varint_bounds(m, cursor as int, 0, 0);
        }
        if key == 0 {
            assert(spec_walk_fields(m, cursor as int, depth as int, before) == before);
            return ;
        }
        let wire = key & 7;
        if wire == 0 {
            let (_, after_value) = match read_varint(message, after_key) {
                Some(pair) => pair,
                None => return ,
            };
            proof {
                lemma_varint_bounds(m, after_key as int, 0, 0);
            }
            cursor = after_value;
        } else if wire == 1 {
            cursor = after_key.saturating_add(8);
        } else if wire == 2 {
            let (len, after_len) = match read_varint(message, after_key) {
                Some(pair) => pair,
                None => return ,
            };
            proof {
                lemma_varint_bounds(m, after_key as int, 0, 0);
            }
            let len = #[verifier::truncate] (len as usize);
            let end = match after_len.checked_add(len) {
                Some(end) => end,
                None => return ,
            };
            if end > message.len() {
                return ;
            }
            let chunk = &message[after_len..end];
            match text_candidate(chunk) {
                Some(text) => {
                    candidates.push(text);
                    proof {
                        assert(views(candidates@) == before.push(spec_text_candidate(chunk@)->0));
                    }
                    if candidates.len() >= MAX_CANDIDATES {
                        return ;
                    }
                },
                None => {},
            }
            collect_text_fields(chunk, depth + 1, candidates);
            cursor = end;
        } else if wire == 5 {
            cursor = after_key.saturating_add(4);
        } else {
            return ;
        }
        if cursor > message.len() {
            return ;
        }
    }
}


/// Bytes that UTF-8 takes for one character.
pub open spec fn utf8_width(c: char) -> int {
    if (c as u32) <= 0x7f {
        1
    } else if (c as u32) <= 0x7ff {
        2
    } else if (c as u32) <= 0xffff {
        3
    } else {
        4
    }
}

/// Bytes that UTF-8 takes for `t`.
pub open spec fn utf8_len(t: Seq<char>) -> int
    decreases t.len(),
{
    if t.len() == 0 {
        0
    } else {
        utf8_width(t[0]) + utf8_len(t.drop_first())
    }
}

/// `utf8_len` is the length of vstd's UTF-8 encoding.
pub proof fn lemma_utf8_len(t: Seq<char>)
    ensures
        encode_utf8(t).len() == utf8_len(t),
    decreases t.len(),
{
    if t.len() > 0 {
        lemma_utf8_len(t.drop_first());
        vstd::utf8::char_is_scalar(t[0]);
    }
}

/// Ranking of a candidate: its UTF-8 length, plus 1000 when it holds a line
/// break and 500 when it holds any white space.
pub open spec fn spec_text_score(t: Seq<char>) -> int {
    encode_utf8(t).len() as int + (if t.contains('\n') {
        1000int
    } else {
        0int
    }) + (if exists|i: int| 0 <= i < t.len() && spec_is_whitespace(#[trigger] t[i]) {
        500int
    } else {
        0int
    })
}

/// The highest-ranked candidate, the last one among equals (as
/// `Iterator::max_by_key` picks); `None` for no candidates.
pub open spec fn spec_best_candidate(cs: Seq<Seq<char>>) -> Option<Seq<char>>
    decreases cs.len(),
{
    if cs.len() == 0 {
        None
    } else {
        match spec_best_candidate(cs.drop_last()) {
            None => Some(cs.last()),
            Some(b) => if spec_text_score(cs.last()) >= spec_text_score(b) {
                Some(cs.last())
            } else {
                Some(b)
            },
        }
    }
}

/// The text of a decoded protobuf message: its best candidate.
pub open spec fn spec_extract_text(message: Seq<u8>) -> Option<Seq<char>> {
    spec_best_candidate(spec_walk_message(message, 0, seq![]))
}

/// Ranks a candidate (see `spec_text_score`).
pub fn text_score(text: &str) -> (score: u128)
    ensures
        score == spec_text_score(text@),
{
    let chars = chars_of(text);
    let mut has_newline = false;
    let mut has_space = false;
    for i in 0..chars.len()
        invariant
            chars@ == text@,
            has_newline <==> exists|j: int| 0 <= j < i && chars@[j] == '\n',
            has_space <==> exists|j: int| 0 <= j < i && spec_is_whitespace(#[trigger] chars@[j]),
    {
        let c = chars[i];
        if c == '\n' {
            has_newline = true;
        }
        if is_whitespace(c) {
            has_space = true;
        }
    }
    proof {
        if has_newline {
            let j = choose|j: int| 0 <= j < chars@.len() && chars@[j] == '\n';
            assert(text@[j] == '\n');
        }
        if text@.contains('\n') {
            let j = choose|j: int| 0 <= j < text@.len() && text@[j] == '\n';
            assert(chars@[j] == '\n');
        }
    }
    let mut bytes: u128 = 0;
    let mut k: usize = chars.len();
    assert(chars@.skip(k as int) == Seq::<char>::empty());
    while k > 0
        invariant
            k <= chars@.len(),
            chars@.len() == chars.len(),
            bytes == utf8_len(chars@.skip(k as int)),
            bytes <= 4 * (chars@.len() - k),
        decreases k,
    {
        let c = chars[k - 1];
        let u = c as u32;
        let w: u128 = if u <= 0x7f {
            1
        } else if u <= 0x7ff {
            2
        } else if u <= 0xffff {
            3
        } else {
            4
        };
        assert(chars@.skip(k - 1).drop_first() == chars@.skip(k as int));
        bytes = bytes + w;
        k = k - 1;
    }
    assert(chars@.skip(0) == chars@);
    proof {
        lemma_utf8_len(text@);
    }
    let mut score = bytes;
    if has_newline {
        score = score + 1000;
    }
    if has_space {
        score = score + 500;
    }
    score
}

/// The best text candidate of a decoded protobuf message.
pub fn extract_protobuf_text(message: &[u8]) -> (r: Option<String>)
    ensures
        match r {
            Some(s) => spec_extract_text(message@) == Some(s@),
            None => spec_extract_text(message@) is None,
        },
{
    let mut candidates: Vec<String> = Vec::new();
    assert(views(candidates@) =~= Seq::<Seq<char>>::empty());
    collect_text_fields(message, 0, &mut candidates);
    let ghost cs = views(candidates@);
    let mut best: Option<usize> = None;
    let mut best_score: u128 = 0;
    for i in 0..candidates.len()
        invariant
            cs == views(candidates@),
            match best {
                Some(b) => b < i && spec_best_candidate(cs.take(i as int)) == Some(cs[b as int])
                    && best_score == spec_text_score(cs[b as int]),
                None => i == 0,
            },
    {
        let score = text_score(candidates[i].as_str());
        assert(cs.take(i + 1).drop_last() == cs.take(i as int));
        match best {
            None => {
                best = Some(i);
                best_score = score;
            },
            Some(_) => {
                if score >= best_score {
                    best = Some(i);
                    best_score = score;
                }
            },
        }
    }
    assert(cs.take(cs.len() as int) == cs);
    match best {
        Some(b) => {
            assert(cs[b as int] == candidates@[b as int]@);
            Some(candidates[b].clone())
        },
        None => None,
    }
}

/// What reading at most `limit` bytes of the decompressed first gzip member of
/// `blob` yields with `flate2::read::GzDecoder`; `None` when decoding fails.
pub uninterp spec fn gzip_decoded_prefix(blob: Seq<u8>, limit: nat) -> Option<Seq<u8>>;

/// Decompresses the first gzip member of `blob` with `flate2::read::GzDecoder`,
/// reading at most `limit` decompressed bytes (`Read::take`). The outcome is
/// the named `gzip_decoded_prefix`; the byte bound is the documented one of `take`.
#[verifier::external_body]
fn gunzip_at_most(blob: &[u8], limit: u64) -> (r: Result<Vec<u8>, std::io::Error>)
    ensures
        r is Ok <==> gzip_decoded_prefix(blob@, limit as nat) is Some,
        r matches Ok(v) ==> v@ == gzip_decoded_prefix(blob@, limit as nat)->0 && v@.len() <= limit,
{
    let mut decoded = Vec::new();
    let mut decoder = std::io::Read::take(flate2::read::GzDecoder::new(blob), limit);
    std::io::Read::read_to_end(&mut decoder, &mut decoded)?;
    Ok(decoded)
}

/// Builds the `InvalidData` I/O error that reports an oversized body.
#[verifier::external_body]
fn body_too_large_error() -> std::io::Error {
    std::io::Error::new(std::io::ErrorKind::InvalidData, "decoded note body exceeds size limit")
}

/// Declares `std::io::Error`, which decoding failures carry.
#[verifier::external_type_specification]
#[verifier::external_body]
pub struct ExIoError(std::io::Error);

/// Decodes a `ZICNOTEDATA.ZDATA` blob: gunzips at most
/// `MAX_DECODED_BODY_BYTES + 1` bytes, refuses a body over the limit, and
/// returns the best text candidate of the protobuf message.
pub fn decode_note_body(blob: &[u8]) -> (r: Result<Option<String>, std::io::Error>)
    ensures
        ({
            let decoded = gzip_decoded_prefix(blob@, (MAX_DECODED_BODY_BYTES + 1) as nat);
            match r {
                Ok(Some(s)) => decoded is Some && decoded->0.len() <= MAX_DECODED_BODY_BYTES
                    && spec_extract_text(decoded->0) == Some(s@),
                Ok(None) => decoded is Some && decoded->0.len() <= MAX_DECODED_BODY_BYTES
                    && spec_extract_text(decoded->0) is None,
                Err(_) => decoded is None || decoded->0.len() > MAX_DECODED_BODY_BYTES,
            }
        }),
{
    let decoded = gunzip_at_most(blob, (MAX_DECODED_BODY_BYTES + 1) as u64)?;
    if decoded.len() > MAX_DECODED_BODY_BYTES {
        return Err(body_too_large_error());
    }
    Ok(extract_protobuf_text(decoded.as_slice()))
}


/// Count bound for a walk from nesting `depth`: a level that pushes one
/// candidate after its nested walk filled the list goes one past the limit.
pub proof fn lemma_walk_message_bound(m: Seq<u8>, depth: int, acc: Seq<Seq<char>>)
    requires
        depth >= 0,
    ensures
        spec_walk_message(m, depth, acc).len() <= acc.len() || spec_walk_message(m, depth, acc).len()
            <= MAX_CANDIDATES + MAX_RECURSION_DEPTH - depth,
    decreases m.len(), m.len() + 1,
{
    if !(depth > MAX_RECURSION_DEPTH || acc.len() >= MAX_CANDIDATES) {
        lemma_walk_fields_bound(m, 0, depth, acc);
    }
}

/// Count bound for the fields of one message at nesting `depth`.
pub proof fn lemma_walk_fields_bound(m: Seq<u8>, cursor: int, depth: int, acc: Seq<Seq<char>>)
    requires
        0 <= depth <= MAX_RECURSION_DEPTH,
        acc.len() <= MAX_CANDIDATES + MAX_RECURSION_DEPTH - depth - 1,
    ensures
        spec_walk_fields(m, cursor, depth, acc).len() <= MAX_CANDIDATES + MAX_RECURSION_DEPTH - depth,
    decreases m.len(), m.len() - cursor,
{
    if !(cursor < 0 || cursor >= m.len()) {
        match spec_read_varint(m, cursor) {
            None => {},
            Some((key, after_key)) => {
                lemma_varint_bounds(m, cursor, 0, 0);
                if key == 0 {
                } else if key & 7 == 0 {
                    match spec_read_varint(m, after_key) {
                        None => {},
                        Some((_, next)) => {
                            lemma_varint_bounds(m, after_key, 0, 0);
                            lemma_walk_fields_bound(m, next, depth, acc);
                        },
                    }
                } else if key & 7 == 1 {
                    if after_key + 8 < m.len() {
                        lemma_walk_fields_bound(m, after_key + 8, depth, acc);
                    }
                } else if key & 7 == 2 {
                    match spec_read_varint(m, after_key) {
                        None => {},
                        Some((len, after_len)) => {
                            lemma_varint_bounds(m, after_key, 0, 0);
                            let end = after_len + ((len as usize) as int);
                            if !(end > usize::MAX || end > m.len()) {
                                let chunk = m.subrange(after_len, end);
                                match spec_text_candidate(chunk) {
                                    Some(t) => {
                                        if acc.len() + 1 < MAX_CANDIDATES {
                                            lemma_walk_message_bound(chunk, depth + 1, acc.push(t));
                                            let acc2 = spec_walk_message(chunk, depth + 1, acc.push(t));
                                            lemma_walk_fields_bound(m, end, depth, acc2);
                                        }
                                    },
                                    None => {
                                        lemma_walk_message_bound(chunk, depth + 1, acc);
                                        let acc2 = spec_walk_message(chunk, depth + 1, acc);
                                        lemma_walk_fields_bound(m, end, depth, acc2);
                                    },
                                }
                            }
                        },
                    }
                } else if key & 7 == 5 {
                    if after_key + 4 < m.len() {
                        lemma_walk_fields_bound(m, after_key + 4, depth, acc);
                    }
                }
            },
        }
    }
}

/// A body walk collects at most `MAX_CANDIDATES + MAX_RECURSION_DEPTH`
/// candidates: the walk stops at `MAX_CANDIDATES`, but each enclosing level
/// may add one more after its nested walk returns.
pub proof fn law_candidate_count_bounded(message: Seq<u8>)
    ensures
        spec_walk_message(message, 0, seq![]).len() <= MAX_CANDIDATES + MAX_RECURSION_DEPTH,
{
    lemma_walk_message_bound(message, 0, seq![]);
}

/// The chosen body text is one of the candidates and none ranks higher;
/// there is a choice exactly when there is a candidate.
pub proof fn law_best_candidate_is_maximal(cs: Seq<Seq<char>>)
    ensures
        spec_best_candidate(cs) is Some <==> cs.len() > 0,
        spec_best_candidate(cs) matches Some(b) ==> cs.contains(b) && forall|i: int|
            0 <= i < cs.len() ==> spec_text_score(#[trigger] cs[i]) <= spec_text_score(b),
    decreases cs.len(),
{
    if cs.len() > 0 {
        law_best_candidate_is_maximal(cs.drop_last());
        let b = spec_best_candidate(cs).unwrap();
        assert forall|i: int| 0 <= i < cs.len() implies spec_text_score(#[trigger] cs[i])
            <= spec_text_score(b) by {
            if i < cs.len() - 1 {
                assert(cs[i] == cs.drop_last()[i]);
            }
        }
        if b != cs.last() {
            let j = choose|j: int| 0 <= j < cs.drop_last().len() && cs.drop_last()[j] == b;
            assert(cs[j] == b);
        } else {
            assert(cs[cs.len() - 1] == b);
        }
    }
}


/// No NEL, LINE SEPARATOR or PARAGRAPH SEPARATOR occurs in `t`.
pub open spec fn free_of_separators(t: Seq<char>) -> bool {
    forall|i: int| 0 <= i < t.len() ==> normalize_char(#[trigger] t[i]) == t[i]
}

/// A non-empty text free of line separators.
pub open spec fn is_clean_text(t: Seq<char>) -> bool {
    t.len() > 0 && free_of_separators(t)
}

/// Every text in `cs` is clean.
pub open spec fn all_clean(cs: Seq<Seq<char>>) -> bool {
    forall|i: int| 0 <= i < cs.len() ==> is_clean_text(#[trigger] cs[i])
}

proof fn lemma_line_fold_free(t: Seq<char>)
    requires
        free_of_separators(t),
    ensures
        free_of_separators(line_fold(t).0),
        free_of_separators(line_fold(t).1),
    decreases t.len(),
{
    if t.len() > 0 {
        assert(free_of_separators(t.drop_last())) by {
            assert forall|i: int| 0 <= i < t.drop_last().len() implies normalize_char(
                #[trigger] t.drop_last()[i],
            ) == t.drop_last()[i] by {
                assert(t.drop_last()[i] == t[i]);
            }
        }
        lemma_line_fold_free(t.drop_last());
        let prev = line_fold(t.drop_last());
        lemma_trim_end_prefix(prev.1);
        assert(normalize_char(t[t.len() - 1]) == t[t.len() - 1]);
        if t.last() == '\n' {
            let te = spec_trim_end(prev.1);
            assert forall|i: int| 0 <= i < te.len() implies normalize_char(#[trigger] te[i])
                == te[i] by {
                assert(te[i] == prev.1[i]);
            }
            let d = prev.0 + te.push('\n');
            assert forall|i: int| 0 <= i < d.len() implies normalize_char(#[trigger] d[i])
                == d[i] by {
                if i < prev.0.len() {
                    assert(d[i] == prev.0[i]);
                } else if i < prev.0.len() + te.len() {
                    assert(d[i] == te[i - prev.0.len()]);
                }
            }
        } else {
            let c = prev.1.push(t.last());
            assert forall|i: int| 0 <= i < c.len() implies normalize_char(#[trigger] c[i])
                == c[i] by {
                if i < prev.1.len() {
                    assert(c[i] == prev.1[i]);
                }
            }
        }
    }
}

/// A chunk's text candidate is non-empty and free of line separators.
pub proof fn lemma_text_candidate_clean(chunk: Seq<u8>)
    ensures
        spec_text_candidate(chunk) matches Some(t) ==> is_clean_text(t),
{
    if let Some(t) = spec_text_candidate(chunk) {
        let n = spec_normalize_line_separators(decode_utf8(chunk));
        assert(free_of_separators(n));
        lemma_line_fold_free(n);
        let f = line_fold(n);
        lemma_trim_end_prefix(f.1);
        let st = spec_strip_line_ends(n);
        assert forall|i: int| 0 <= i < st.len() implies normalize_char(#[trigger] st[i])
            == st[i] by {
            if i < f.0.len() {
                assert(st[i] == f.0[i]);
            } else {
                assert(st[i] == f.1[i - f.0.len()]);
            }
        }
        let te = spec_trim_end(st);
        lemma_trim_end_prefix(st);
        lemma_trim_start_suffix(te);
        assert forall|i: int| 0 <= i < t.len() implies normalize_char(#[trigger] t[i]) == t[i] by {
            assert(t[i] == te[te.len() - t.len() + i]);
            assert(te[te.len() - t.len() + i] == st[te.len() - t.len() + i]);
        }
    }
}

/// Walks keep every collected text clean.
pub proof fn lemma_walk_message_clean(m: Seq<u8>, depth: int, acc: Seq<Seq<char>>)
    requires
        all_clean(acc),
    ensures
        all_clean(spec_walk_message(m, depth, acc)),
    decreases m.len(), m.len() + 1,
{
    if !(depth > MAX_RECURSION_DEPTH || acc.len() >= MAX_CANDIDATES) {
        lemma_walk_fields_clean(m, 0, depth, acc);
    }
}

/// Field walks keep every collected text clean.
pub proof fn lemma_walk_fields_clean(m: Seq<u8>, cursor: int, depth: int, acc: Seq<Seq<char>>)
    requires
        all_clean(acc),
    ensures
        all_clean(spec_walk_fields(m, cursor, depth, acc)),
    decreases m.len(), m.len() - cursor,
{
    if !(cursor < 0 || cursor >= m.len()) {
        match spec_read_varint(m, cursor) {
            None => {},
            Some((key, after_key)) => {
                lemma_varint_bounds(m, cursor, 0, 0);
                if key == 0 {
                } else if key & 7 == 0 {
                    match spec_read_varint(m, after_key) {
                        None => {},
                        Some((_, next)) => {
                            lemma_varint_bounds(m, after_key, 0, 0);
                            lemma_walk_fields_clean(m, next, depth, acc);
                        },
                    }
                } else if key & 7 == 1 {
                    if after_key + 8 < m.len() {
                        lemma_walk_fields_clean(m, after_key + 8, depth, acc);
                    }
                } else if key & 7 == 2 {
                    match spec_read_varint(m, after_key) {
                        None => {},
                        Some((len, after_len)) => {
                            lemma_varint_bounds(m, after_key, 0, 0);
                            let end = after_len + ((len as usize) as int);
                            if !(end > usize::MAX || end > m.len()) {
                                let chunk = m.subrange(after_len, end);
                                match spec_text_candidate(chunk) {
                                    Some(t) => {
                                        lemma_text_candidate_clean(chunk);
                                        let pushed = acc.push(t);
                                        assert(all_clean(pushed)) by {
                                            assert forall|i: int| 0 <= i < pushed.len() implies is_clean_text(
                                                #[trigger] pushed[i],
                                            ) by {
                                                if i < acc.len() {
                                                    assert(pushed[i] == acc[i]);
                                                }
                                            }
                                        }
                                        if acc.len() + 1 < MAX_CANDIDATES {
                                            lemma_walk_message_clean(chunk, depth + 1, pushed);
                                            let acc2 = spec_walk_message(chunk, depth + 1, pushed);
                                            lemma_walk_fields_clean(m, end, depth, acc2);
                                        }
                                    },
                                    None => {
                                        lemma_walk_message_clean(chunk, depth + 1, acc);
                                        let acc2 = spec_walk_message(chunk, depth + 1, acc);
                                        lemma_walk_fields_clean(m, end, depth, acc2);
                                    },
                                }
                            }
                        },
                    }
                } else if key & 7 == 5 {
                    if after_key + 4 < m.len() {
                        lemma_walk_fields_clean(m, after_key + 4, depth, acc);
                    }
                }
            },
        }
    }
}

/// Extracted body text is never empty and never holds U+0085, U+2028 or
/// U+2029, so it is safe to store one body per JSONL line.
pub proof fn law_extracted_text_is_clean(message: Seq<u8>)
    ensures
        spec_extract_text(message) matches Some(t) ==> is_clean_text(t),
{
    let cs = spec_walk_message(message, 0, seq![]);
    lemma_walk_message_clean(message, 0, seq![]);
    law_best_candidate_is_maximal(cs);
    if let Some(b) = spec_best_candidate(cs) {
        let j = choose|j: int| 0 <= j < cs.len() && cs[j] == b;
        assert(is_clean_text(cs[j]));
    }
}

/// Whether `i` is the last index of a highest-ranked text of `cs`.
pub open spec fn is_last_best(cs: Seq<Seq<char>>, i: int) -> bool {
    &&& 0 <= i < cs.len()
    &&& forall|j: int| 0 <= j < cs.len() ==> spec_text_score(#[trigger] cs[j]) <= spec_text_score(cs[i])
    &&& forall|j: int| i < j < cs.len() ==> spec_text_score(#[trigger] cs[j]) < spec_text_score(cs[i])
}

/// Law: the chosen text is absent exactly when there is no candidate, and
/// otherwise it is the candidate at the last index with the highest rank.
pub proof fn law_best_candidate_is_last_maximal(cs: Seq<Seq<char>>)
    ensures
        spec_best_candidate(cs) is None <==> cs.len() == 0,
        spec_best_candidate(cs) matches Some(b) ==> exists|i: int| #[trigger] is_last_best(cs, i) && cs[i] == b,
    decreases cs.len(),
{
    if cs.len() > 0 {
        let prev = cs.drop_last();
        law_best_candidate_is_last_maximal(prev);
        let n = cs.len() - 1;
        match spec_best_candidate(prev) {
            None => {
                assert(is_last_best(cs, n));
            },
            Some(b) => {
                let i = choose|i: int| #[trigger] is_last_best(prev, i) && prev[i] == b;
                if spec_text_score(cs.last()) >= spec_text_score(b) {
                    assert forall|j: int| 0 <= j < cs.len() implies spec_text_score(#[trigger] cs[j])
                        <= spec_text_score(cs[n]) by {
                        if j < n {
                            assert(cs[j] == prev[j]);
                        }
                    }
                    assert(is_last_best(cs, n));
                } else {
                    assert forall|j: int| 0 <= j < cs.len() implies spec_text_score(#[trigger] cs[j])
                        <= spec_text_score(cs[i]) by {
                        if j < n {
                            assert(cs[j] == prev[j]);
                        }
                    }
                    assert forall|j: int| i < j < cs.len() implies spec_text_score(#[trigger] cs[j])
                        < spec_text_score(cs[i]) by {
                        if j < n {
                            assert(cs[j] == prev[j]);
                        }
                    }
                    assert(cs[i] == prev[i]);
                    assert(is_last_best(cs, i));
                }
            },
        }
    }
}

/// Whether `t` holds a white-space character.
pub open spec fn has_white_space(t: Seq<char>) -> bool {
    exists|i: int| 0 <= i < t.len() && spec_is_whitespace(#[trigger] t[i])
}

proof fn lemma_line_break_is_white_space(t: Seq<char>)
    requires
        t.contains('\n'),
    ensures
        has_white_space(t),
{
    let i = choose|i: int| 0 <= i < t.len() && t[i] == '\n';
    assert(spec_is_whitespace(t[i]));
}

/// Law of candidate ranking. A text without white space ranks by its UTF-8
/// length in bytes; between texts alike in having a line break and in
/// having white space, the rank difference is the byte-length difference;
/// a text with a line break outranks one with white space but no line break
/// exactly when that one is less than 1000 bytes longer, and one with no
/// white space at all exactly when that one is less than 1500 bytes longer;
/// a text with white space but no line break outranks one without white
/// space exactly when that one is less than 500 bytes longer.
pub proof fn law_text_score_ranking(a: Seq<char>, b: Seq<char>)
    ensures
        !has_white_space(a) ==> spec_text_score(a) == encode_utf8(a).len(),
        a.contains('\n') == b.contains('\n') && has_white_space(a) == has_white_space(b) ==> spec_text_score(a)
            - spec_text_score(b) == encode_utf8(a).len() - encode_utf8(b).len(),
        a.contains('\n') && !b.contains('\n') && has_white_space(b) ==> (spec_text_score(a) > spec_text_score(b)
            <==> encode_utf8(b).len() < encode_utf8(a).len() + 1000),
        a.contains('\n') && !has_white_space(b) ==> (spec_text_score(a) > spec_text_score(b) <==> encode_utf8(b).len()
            < encode_utf8(a).len() + 1500),
        has_white_space(a) && !a.contains('\n') && !has_white_space(b) ==> (spec_text_score(a) > spec_text_score(b)
            <==> encode_utf8(b).len() < encode_utf8(a).len() + 500),
{
    if a.contains('\n') {
        lemma_line_break_is_white_space(a);
    }
    if b.contains('\n') {
        lemma_line_break_is_white_space(b);
    }
}

/// Law of the chosen body text: when a candidate has a line break and the
/// chosen text has none, the chosen text is at least 1000 bytes longer.
pub proof fn law_line_break_text_wins(cs: Seq<Seq<char>>, a: Seq<char>)
    requires
        cs.contains(a),
        a.contains('\n'),
    ensures
        spec_best_candidate(cs) matches Some(b) ==> (!b.contains('\n') ==> encode_utf8(b).len() >= encode_utf8(a).len()
            + 1000),
{
    law_best_candidate_is_maximal(cs);
    let i = choose|i: int| 0 <= i < cs.len() && cs[i] == a;
    if let Some(b) = spec_best_candidate(cs) {
        assert(spec_text_score(cs[i]) <= spec_text_score(b));
        law_text_score_ranking(a, b);
    }
}

/// Law: the body text of a decoded message is absent exactly when its walk
/// collects no candidate, and otherwise it is the last highest-ranked one.
pub proof fn law_extracted_text_is_last_best_candidate(message: Seq<u8>)
    ensures
        ({
            let cs = spec_walk_message(message, 0, seq![]);
            &&& spec_extract_text(message) is None <==> cs.len() == 0
            &&& spec_extract_text(message) matches Some(b) ==> exists|i: int| #[trigger] is_last_best(cs, i) && cs[i] == b
        }),
{
    law_best_candidate_is_last_maximal(spec_walk_message(message, 0, seq![]));
}

/// Whether `t` is the text candidate of some byte range lying inside `m`.
pub open spec fn text_of_range(m: Seq<u8>, t: Seq<char>) -> bool {
    exists|a: int, b: int| 0 <= a <= b <= m.len() && #[trigger] spec_text_candidate(m.subrange(a, b)) == Some(t)
}

/// Whether `r` is `acc` followed by texts that are each the text candidate
/// of some byte range lying inside `m`.
pub open spec fn grows_from(m: Seq<u8>, acc: Seq<Seq<char>>, r: Seq<Seq<char>>) -> bool {
    &&& acc.len() <= r.len()
    &&& r.take(acc.len() as int) == acc
    &&& forall|i: int| acc.len() <= i < r.len() ==> text_of_range(m, #[trigger] r[i])
}

proof fn lemma_grows_refl(m: Seq<u8>, acc: Seq<Seq<char>>)
    ensures
        grows_from(m, acc, acc),
{
    assert(acc.take(acc.len() as int) == acc);
}

proof fn lemma_grows_trans(m: Seq<u8>, a: Seq<Seq<char>>, b: Seq<Seq<char>>, c: Seq<Seq<char>>)
    requires
        grows_from(m, a, b),
        grows_from(m, b, c),
    ensures
        grows_from(m, a, c),
{
    assert(c.take(a.len() as int) =~= c.take(b.len() as int).take(a.len() as int));
    assert(c.take(a.len() as int) =~= b.take(a.len() as int));
    assert(b.take(a.len() as int) =~= a);
    assert forall|i: int| a.len() <= i < c.len() implies text_of_range(m, #[trigger] c[i]) by {
        if i < b.len() {
            assert(c[i] == c.take(b.len() as int)[i]);
            assert(c[i] == b[i]);
        }
    }
}

proof fn lemma_grows_push(m: Seq<u8>, acc: Seq<Seq<char>>, x: int, y: int, t: Seq<char>)
    requires
        0 <= x <= y <= m.len(),
        spec_text_candidate(m.subrange(x, y)) == Some(t),
    ensures
        grows_from(m, acc, acc.push(t)),
{
    assert(acc.push(t).take(acc.len() as int) == acc);
    assert(text_of_range(m, t));
    assert(acc.push(t)[acc.len() as int] == t);
}

proof fn lemma_grows_lift(m: Seq<u8>, off: int, end: int, acc: Seq<Seq<char>>, r: Seq<Seq<char>>)
    requires
        0 <= off <= end <= m.len(),
        grows_from(m.subrange(off, end), acc, r),
    ensures
        grows_from(m, acc, r),
{
    let c = m.subrange(off, end);
    assert forall|i: int| acc.len() <= i < r.len() implies text_of_range(m, #[trigger] r[i]) by {
        assert(text_of_range(c, r[i]));
        let (x, y) = choose|x: int, y: int|
            0 <= x <= y <= c.len() && #[trigger] spec_text_candidate(c.subrange(x, y)) == Some(r[i]);
        assert(c.subrange(x, y) == m.subrange(off + x, off + y));
        assert(spec_text_candidate(m.subrange(off + x, off + y)) == Some(r[i]));
    }
}

/// A walk of a message only appends texts of byte ranges inside it.
pub proof fn lemma_walk_message_grows(m: Seq<u8>, depth: int, acc: Seq<Seq<char>>)
    ensures
        grows_from(m, acc, spec_walk_message(m, depth, acc)),
    decreases m.len(), m.len() + 1,
{
    if depth > MAX_RECURSION_DEPTH || acc.len() >= MAX_CANDIDATES {
        lemma_grows_refl(m, acc);
    } else {
        lemma_walk_fields_grows(m, 0, depth, acc);
    }
}

/// A field walk only appends texts of byte ranges inside the message.
pub proof fn lemma_walk_fields_grows(m: Seq<u8>, cursor: int, depth: int, acc: Seq<Seq<char>>)
    ensures
        grows_from(m, acc, spec_walk_fields(m, cursor, depth, acc)),
    decreases m.len(), m.len() - cursor,
{
    lemma_grows_refl(m, acc);
    if !(cursor < 0 || cursor >= m.len()) {
        match spec_read_varint(m, cursor) {
            None => {},
            Some((key, after_key)) => {
                lemma_varint_bounds(m, cursor, 0, 0);
                if key == 0 {
                } else if key & 7 == 0 {
                    match spec_read_varint(m, after_key) {
                        None => {},
                        Some((_, next)) => {
                            lemma_varint_bounds(m, after_key, 0, 0);
                            lemma_walk_fields_grows(m, next, depth, acc);
                        },
                    }
                } else if key & 7 == 1 {
                    if after_key + 8 < m.len() {
                        lemma_walk_fields_grows(m, after_key + 8, depth, acc);
                    }
                } else if key & 7 == 2 {
                    match spec_read_varint(m, after_key) {
                        None => {},
                        Some((len, after_len)) => {
                            lemma_varint_bounds(m, after_key, 0, 0);
                            let end = after_len + ((len as usize) as int);
                            if !(end > usize::MAX || end > m.len()) {
                                let chunk = m.subrange(after_len, end);
                                match spec_text_candidate(chunk) {
                                    Some(t) => {
                                        let pushed = acc.push(t);
                                        lemma_grows_push(m, acc, after_len, end, t);
                                        if acc.len() + 1 < MAX_CANDIDATES {
                                            lemma_walk_message_grows(chunk, depth + 1, pushed);
                                            let acc2 = spec_walk_message(chunk, depth + 1, pushed);
                                            lemma_grows_lift(m, after_len, end, pushed, acc2);
                                            lemma_walk_fields_grows(m, end, depth, acc2);
                                            lemma_grows_trans(m, pushed, acc2, spec_walk_fields(m, end, depth, acc2));
                                            lemma_grows_trans(m, acc, pushed, spec_walk_fields(m, end, depth, acc2));
                                        }
                                    },
                                    None => {
                                        lemma_walk_message_grows(chunk, depth + 1, acc);
                                        let acc2 = spec_walk_message(chunk, depth + 1, acc);
                                        lemma_grows_lift(m, after_len, end, acc, acc2);
                                        lemma_walk_fields_grows(m, end, depth, acc2);
                                        lemma_grows_trans(m, acc, acc2, spec_walk_fields(m, end, depth, acc2));
                                    },
                                }
                            }
                        },
                    }
                } else if key & 7 == 5 {
                    if after_key + 4 < m.len() {
                        lemma_walk_fields_grows(m, after_key + 4, depth, acc);
                    }
                }
            },
        }
    }
}

/// Law of the body walk (`collect_text_fields`): the old candidate list is
/// kept as a prefix; nothing changes past `MAX_RECURSION_DEPTH` or with a
/// full list, so no walk goes deeper than one level past the limit; a list
/// that was not full ends with at most `MAX_CANDIDATES + MAX_RECURSION_DEPTH`
/// texts; and every added text is the text candidate of a byte range that
/// lies inside the message, so nothing outside it is read.
pub proof fn law_collect_text_fields(message: Seq<u8>, depth: int, acc: Seq<Seq<char>>)
    requires
        depth >= 0,
    ensures
        ({
            let r = spec_walk_message(message, depth, acc);
            &&& grows_from(message, acc, r)
            &&& (depth > MAX_RECURSION_DEPTH || acc.len() >= MAX_CANDIDATES) ==> r == acc
            &&& acc.len() < MAX_CANDIDATES ==> r.len() <= MAX_CANDIDATES + MAX_RECURSION_DEPTH
        }),
{
    lemma_walk_message_grows(message, depth, acc);
    lemma_walk_message_bound(message, depth, acc);
}

/// Law: a varint is missing exactly when none of its first ten bytes that
/// lie inside the message has its high bit clear.
pub proof fn law_varint_missing_exactly_without_end_byte(m: Seq<u8>, start: int)
    requires
        start >= 0,
    ensures
        spec_read_varint(m, start) is None <==> forall|k: int|
            0 <= k < 10 && start + k < m.len() ==> #[trigger] m[start + k] & 0x80 != 0,
{
    lemma_varint_none_from(m, start, 0, 0);
}

proof fn lemma_varint_none_from(m: Seq<u8>, start: int, i: nat, acc: u64)
    requires
        start >= 0,
    ensures
        spec_varint_from(m, start, i, acc) is None <==> forall|k: int|
            i <= k < 10 && start + k < m.len() ==> #[trigger] m[start + k] & 0x80 != 0,
    decreases 10 - i,
{
    if !(i >= 10 || start + i >= m.len()) {
        let b = m[start + i];
        let acc2 = acc | (((b & 0x7f) as u64) << ((7 * i) as u64));
        if b & 0x80 != 0 {
            lemma_varint_none_from(m, start, i + 1, acc2);
            assert forall|k: int| i <= k < 10 && start + k < m.len() && (forall|k2: int|
                i + 1 <= k2 < 10 && start + k2 < m.len() ==> #[trigger] m[start + k2] & 0x80 != 0)
                implies #[trigger] m[start + k] & 0x80 != 0 by {
                if k > i {
                }
            }
        }
    }
}

/// The base-128 encoding of `v`: seven bits per byte, low bits first, the
/// high bit set on every byte but the last.
pub open spec fn leb128(v: u64) -> Seq<u8>
    decreases v,
{
    if v < 128 {
        seq![v as u8]
    } else {
        proof {
            assert(v >> 7u64 < v) by (bit_vector)
                requires
                    v >= 128,
            ;
        }
        seq![((v & 0x7f) | 0x80) as u8] + leb128(v >> 7u64)
    }
}

proof fn lemma_leb128_len(v: u64)
    ensures
        1 <= leb128(v).len(),
    decreases v,
{
    if v >= 128 {
        assert(v >> 7u64 < v) by (bit_vector)
            requires
                v >= 128,
        ;
        lemma_leb128_len(v >> 7u64);
    }
}

proof fn lemma_varint_decodes(m: Seq<u8>, start: int, i: nat, v: u64, acc: u64)
    requires
        start >= 0,
        i <= 9,
        acc == v & !(u64::MAX << ((7 * i) as u64)),
        start + i + leb128(v >> ((7 * i) as u64)).len() <= m.len(),
        m.subrange(start + i, start + i + leb128(v >> ((7 * i) as u64)).len()) == leb128(v >> ((7 * i) as u64)),
    ensures
        spec_varint_from(m, start, i, acc) == Some((v, start + i + leb128(v >> ((7 * i) as u64)).len())),
    decreases 10 - i,
{
    let s = (7 * i) as u64;
    let w = v >> s;
    let e = leb128(w);
    lemma_leb128_len(w);
    assert(s <= 63);
    let b = m[start + i];
    assert(b == e[0]);
    if w < 128 {
        assert(e == seq![w as u8]);
        assert(b == w as u8);
        assert((b & 0x80) == 0 && ((b & 0x7f) as u64) == w) by (bit_vector)
            requires
                b == w as u8,
                w < 128,
        ;
        assert((acc | (w << s)) == v) by (bit_vector)
            requires
                acc == v & !(u64::MAX << s),
                w == v >> s,
                w < 128,
                s <= 63,
        ;
    } else {
        assert(s <= 56) by (bit_vector)
            requires
                w == v >> s,
                w >= 128,
                s <= 63,
        ;
        let w2 = w >> 7u64;
        assert(e == seq![((w & 0x7f) | 0x80) as u8] + leb128(w2));
        assert(b == ((w & 0x7f) | 0x80) as u8);
        assert((b & 0x80) != 0 && ((b & 0x7f) as u64) == (w & 0x7f)) by (bit_vector)
            requires
                b == ((w & 0x7f) | 0x80) as u8,
        ;
        let acc2 = acc | ((w & 0x7f) << s);
        let s2 = (7 * (i + 1)) as u64;
        assert(s2 == s + 7);
        assert(acc2 == v & !(u64::MAX << s2) && w2 == v >> s2) by (bit_vector)
            requires
                acc == v & !(u64::MAX << s),
                acc2 == acc | ((w & 0x7f) << s),
                w == v >> s,
                w2 == w >> 7u64,
                s2 == s + 7,
                s <= 56,
        ;
        lemma_leb128_len(w2);
        assert(m.subrange(start + i + 1, start + i + 1 + leb128(w2).len()) == leb128(w2)) by {
            assert forall|k: int| 0 <= k < leb128(w2).len() implies m.subrange(start + i + 1, start + i + 1
                + leb128(w2).len())[k] == leb128(w2)[k] by {
                assert(m[start + i + 1 + k] == e[1 + k]);
            }
        }
        if i + 1 > 9 {
            assert(false) by (bit_vector)
                requires
                    s == 63u64,
                    s <= 56,
            ;
        }
        lemma_varint_decodes(m, start, i + 1, v, acc2);
    }
}

/// Law: reading a varint decodes any base-128 encoding back to its value
/// and the index just past it, whatever comes before or after it.
pub proof fn law_varint_round_trip(p: Seq<u8>, v: u64, q: Seq<u8>)
    ensures
        spec_read_varint(p + leb128(v) + q, p.len() as int) == Some((v, (p.len() + leb128(v).len()) as int)),
{
    let m = p + leb128(v) + q;
    let start = p.len() as int;
    assert(v >> 0u64 == v) by (bit_vector);
    assert(0u64 == v & !(u64::MAX << 0u64)) by (bit_vector);
    assert(m.subrange(start, start + leb128(v).len()) =~= leb128(v));
    lemma_varint_decodes(m, start, 0, v, 0);
}

/// Whether `t` holds a character that is not white space.
pub open spec fn has_non_space(t: Seq<char>) -> bool {
    exists|i: int| 0 <= i < t.len() && !spec_is_whitespace(#[trigger] t[i])
}

/// Whether no line of `t` ends in white space: each `'\n'` follows another
/// `'\n'` or a character that is not white space.
pub open spec fn line_ends_clean(t: Seq<char>) -> bool {
    forall|i: int| 0 < i < t.len() && #[trigger] t[i] == '\n' ==> t[i - 1] == '\n' || !spec_is_whitespace(t[i - 1])
}

proof fn lemma_has_non_space_concat(a: Seq<char>, b: Seq<char>)
    ensures
        has_non_space(a + b) <==> has_non_space(a) || has_non_space(b),
{
    if has_non_space(a + b) {
        let i = choose|i: int| 0 <= i < (a + b).len() && !spec_is_whitespace(#[trigger] (a + b)[i]);
        if i < a.len() {
            assert(a[i] == (a + b)[i]);
        } else {
            assert(b[i - a.len()] == (a + b)[i]);
        }
    }
    if has_non_space(a) {
        let i = choose|i: int| 0 <= i < a.len() && !spec_is_whitespace(#[trigger] a[i]);
        assert((a + b)[i] == a[i]);
    }
    if has_non_space(b) {
        let i = choose|i: int| 0 <= i < b.len() && !spec_is_whitespace(#[trigger] b[i]);
        assert((a + b)[a.len() + i] == b[i]);
    }
}

proof fn lemma_trim_end_keeps_non_space(x: Seq<char>)
    ensures
        has_non_space(spec_trim_end(x)) <==> has_non_space(x),
    decreases x.len(),
{
    if x.len() > 0 && spec_is_whitespace(x.last()) {
        lemma_trim_end_keeps_non_space(x.drop_last());
        lemma_has_non_space_concat(x.drop_last(), seq![x.last()]);
        assert(x.drop_last() + seq![x.last()] == x);
        assert(!has_non_space(seq![x.last()]));
    }
}

proof fn lemma_trim_start_keeps_non_space(x: Seq<char>)
    ensures
        has_non_space(spec_trim_start(x)) <==> has_non_space(x),
    decreases x.len(),
{
    if x.len() > 0 && spec_is_whitespace(x[0]) {
        lemma_trim_start_keeps_non_space(x.drop_first());
        lemma_has_non_space_concat(seq![x[0]], x.drop_first());
        assert(seq![x[0]] + x.drop_first() == x);
        assert(!has_non_space(seq![x[0]]));
    }
}

proof fn lemma_line_fold_shape(t: Seq<char>)
    ensures
        has_non_space(line_fold(t).0) || has_non_space(line_fold(t).1) <==> has_non_space(t),
        line_ends_clean(line_fold(t).0),
        line_fold(t).0.len() > 0 ==> line_fold(t).0.last() == '\n',
        !line_fold(t).1.contains('\n'),
    decreases t.len(),
{
    if t.len() > 0 {
        let prev = line_fold(t.drop_last());
        lemma_line_fold_shape(t.drop_last());
        lemma_has_non_space_concat(t.drop_last(), seq![t.last()]);
        assert(t.drop_last() + seq![t.last()] == t);
        if t.last() == '\n' {
            let te = spec_trim_end(prev.1);
            lemma_trim_end_keeps_non_space(prev.1);
            lemma_trim_end_last(prev.1);
            lemma_trim_end_prefix(prev.1);
            let d = prev.0 + te.push('\n');
            lemma_has_non_space_concat(prev.0, te.push('\n'));
            lemma_has_non_space_concat(te, seq!['\n']);
            assert(te.push('\n') == te + seq!['\n']);
            assert(!has_non_space(seq!['\n']));
            assert(!has_non_space(seq![t.last()]));
            assert(!has_non_space(Seq::<char>::empty()));
            assert(line_ends_clean(d)) by {
                assert forall|i: int| 0 < i < d.len() && #[trigger] d[i] == '\n' implies d[i - 1] == '\n'
                    || !spec_is_whitespace(d[i - 1]) by {
                    if i < prev.0.len() {
                        assert(d[i] == prev.0[i] && d[i - 1] == prev.0[i - 1]);
                    } else if i < prev.0.len() + te.len() {
                        assert(d[i] == te[i - prev.0.len()]);
                        assert(te[i - prev.0.len()] == prev.1[i - prev.0.len()]);
                        assert(prev.1.contains('\n'));
                    } else {
                        if te.len() > 0 {
                            assert(d[i - 1] == te.last());
                        } else {
                            assert(d[i - 1] == prev.0.last());
                        }
                    }
                }
            }
        } else {
            let c = prev.1.push(t.last());
            lemma_has_non_space_concat(prev.1, seq![t.last()]);
            assert(c == prev.1 + seq![t.last()]);
            if c.contains('\n') {
                let i = choose|i: int| 0 <= i < c.len() && c[i] == '\n';
                if i < prev.1.len() {
                    assert(prev.1[i] == '\n');
                }
            }
        }
    }
}

proof fn lemma_line_ends_clean_sub(x: Seq<char>, a: int, b: int)
    requires
        line_ends_clean(x),
        0 <= a <= b <= x.len(),
    ensures
        line_ends_clean(x.subrange(a, b)),
{
    let y = x.subrange(a, b);
    assert forall|i: int| 0 < i < y.len() && #[trigger] y[i] == '\n' implies y[i - 1] == '\n' || !spec_is_whitespace(y[i - 1]) by {
        assert(y[i] == x[a + i] && y[i - 1] == x[a + i - 1]);
    }
}

proof fn lemma_normalize_keeps_non_space(t: Seq<char>)
    ensures
        has_non_space(spec_normalize_line_separators(t)) <==> has_non_space(t),
{
    let n = spec_normalize_line_separators(t);
    if has_non_space(n) {
        let i = choose|i: int| 0 <= i < n.len() && !spec_is_whitespace(#[trigger] n[i]);
        assert(n[i] == normalize_char(t[i]));
    }
    if has_non_space(t) {
        let i = choose|i: int| 0 <= i < t.len() && !spec_is_whitespace(#[trigger] t[i]);
        assert(n[i] == normalize_char(t[i]));
    }
}

/// Law of `text_candidate`: a chunk gives text exactly when it is UTF-8 of
/// at least three characters, with an alphanumeric one, and at least 85%
/// printable (an alphanumeric character is never white space, so the
/// cleaned text is never empty); the text is then
/// not empty, trimmed, free of NEL, LINE SEPARATOR and PARAGRAPH
/// SEPARATOR, and none of its lines ends in white space.
pub proof fn law_text_candidate(chunk: Seq<u8>)
    ensures
        spec_text_candidate(chunk) is Some <==> {
            &&& valid_utf8(chunk)
            &&& decode_utf8(chunk).len() >= 3
            &&& exists|i: int| 0 <= i < decode_utf8(chunk).len() && spec_is_alphanumeric(#[trigger] decode_utf8(chunk)[i])
            &&& count_printable(decode_utf8(chunk)) * 100 / (decode_utf8(chunk).len() as int) >= 85
        },
        spec_text_candidate(chunk) matches Some(s) ==> {
            &&& s.len() > 0
            &&& spec_trim(s) == s
            &&& free_of_separators(s)
            &&& line_ends_clean(s)
        },
{
    if valid_utf8(chunk) {
        let t = decode_utf8(chunk);
        if exists|i: int| 0 <= i < t.len() && spec_is_alphanumeric(#[trigger] t[i]) {
            let i = choose|i: int| 0 <= i < t.len() && spec_is_alphanumeric(#[trigger] t[i]);
            assert(!spec_is_whitespace(t[i]));
            assert(has_non_space(t));
        }
        let n = spec_normalize_line_separators(t);
        let f = line_fold(n);
        let st = spec_strip_line_ends(n);
        lemma_normalize_keeps_non_space(t);
        lemma_line_fold_shape(n);
        lemma_trim_end_keeps_non_space(f.1);
        lemma_has_non_space_concat(f.0, spec_trim_end(f.1));
        let te = spec_trim_end(st);
        let cleaned = spec_trim_start(te);
        lemma_trim_end_keeps_non_space(st);
        lemma_trim_start_keeps_non_space(te);
        lemma_trim_ends(st);
        if cleaned.len() == 0 {
            assert(!has_non_space(cleaned));
        } else {
            assert(has_non_space(cleaned)) by {
                assert(!spec_is_whitespace(cleaned[0]));
            }
        }
        lemma_text_candidate_clean(chunk);
        lemma_trim_end_prefix(f.1);
        assert(line_ends_clean(st)) by {
            let tf = spec_trim_end(f.1);
            assert forall|i: int| 0 < i < st.len() && #[trigger] st[i] == '\n' implies st[i - 1] == '\n'
                || !spec_is_whitespace(st[i - 1]) by {
                if i < f.0.len() {
                    assert(st[i] == f.0[i] && st[i - 1] == f.0[i - 1]);
                } else {
                    assert(st[i] == tf[i - f.0.len()]);
                    assert(tf[i - f.0.len()] == f.1[i - f.0.len()]);
                    assert(f.1.contains('\n'));
                }
            }
        }
        lemma_trim_end_prefix(st);
        lemma_trim_start_suffix(te);
        assert(te == st.subrange(0, te.len() as int));
        lemma_line_ends_clean_sub(st, 0, te.len() as int);
        assert(cleaned == te.subrange(te.len() - cleaned.len(), te.len() as int));
        lemma_line_ends_clean_sub(te, te.len() - cleaned.len(), te.len() as int);
    }
}

} // verus!
