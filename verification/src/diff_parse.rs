//! Parsing of a `--unified=0` unified diff stream into per-path added-line
//! ranges.
//!
//! Hunk headers carry the new-side line count; the parser consumes exactly
//! that many body lines, which keeps structural headers (`diff --git`, `+++`,
//! binary markers) from being mistaken for hunk content and lets malformed
//! bodies fail closed instead of silently mis-attributing lines.
use vstd::prelude::*;

use crate::changed_lines::ChangedLines;
use crate::git_stream::{
    byte_lines, c_style_unquote, exceeded_message, line_end, line_text, read_text_line_bounded,
    lemma_line_end_bounds, unquote_spec, LineReader, StreamError, StreamErrorKind, UnquotedPath,
    MAX_DIFF_LINE_BYTES,
};
use crate::text::{
    chars_eq, chars_of, extend_chars, extend_str, is_ws, is_ws_exec, parse_usize,
    parse_usize_chars, push_decimal, slice_chars, starts_with, string_of, utf8_decode,
};

verus! {

/// `str::trim_end_matches(['\n', '\r'])`.
pub open spec fn strip_line_end(s: Seq<char>) -> Seq<char>
    decreases s.len(),
{
    if s.len() > 0 && (s.last() == '\n' || s.last() == '\r') {
        strip_line_end(s.drop_last())
    } else {
        s
    }
}

/// `str::split` on whitespace runs, keeping empty pieces.
pub open spec fn ws_pieces(s: Seq<char>) -> Seq<Seq<char>>
    decreases s.len(),
{
    if s.len() == 0 {
        seq![Seq::<char>::empty()]
    } else {
        let rest = ws_pieces(s.drop_last());
        if is_ws(s.last()) {
            rest.push(Seq::<char>::empty())
        } else {
            rest.update(rest.len() - 1, rest.last().push(s.last()))
        }
    }
}

/// The first non-empty whitespace-separated word that starts with `+`.
pub open spec fn first_plus_word(ws: Seq<Seq<char>>) -> Option<Seq<char>>
    decreases ws.len(),
{
    if ws.len() == 0 {
        None
    } else if ws[0].len() > 0 && ws[0][0] == '+' {
        Some(ws[0])
    } else {
        first_plus_word(ws.drop_first())
    }
}

/// `str::trim_start_matches('+')`.
pub open spec fn strip_plus(s: Seq<char>) -> Seq<char>
    decreases s.len(),
{
    if s.len() > 0 && s[0] == '+' {
        strip_plus(s.drop_first())
    } else {
        s
    }
}

/// Position of the first `c` in `s`.
pub open spec fn first_index_of(s: Seq<char>, c: char) -> Option<int> {
    if exists|i: int| 0 <= i < s.len() && s[i] == c {
        Some(choose|i: int| 0 <= i < s.len() && s[i] == c && forall|j: int| 0 <= j < i ==> s[j] != c)
    } else {
        None
    }
}

/// The new-side start and count of a `@@ -a,b +c,d @@` header; a missing
/// count means one line.
pub open spec fn hunk_header(line: Seq<char>) -> Option<(usize, usize)> {
    match first_plus_word(ws_pieces(line)) {
        None => None,
        Some(word) => {
            let spec = strip_plus(word);
            let (start, count) = match first_index_of(spec, ',') {
                Some(k) => (spec.take(k), spec.skip(k + 1)),
                None => (spec, Seq::<char>::empty()),
            };
            match parse_usize(start) {
                None => None,
                Some(a) => if count.len() == 0 {
                    Some((a, 1usize))
                } else {
                    match parse_usize(count) {
                        None => None,
                        Some(b) => Some((a, b)),
                    }
                },
            }
        },
    }
}

/// At most the first `n` characters (`{:.n}` formatting).
pub open spec fn clip(s: Seq<char>, n: nat) -> Seq<char> {
    if s.len() <= n {
        s
    } else {
        s.take(n as int)
    }
}

/// The path named by a `+++ ` target token: `/dev/null` names none; a single
/// trailing tab is Git's marker and not part of the path; quoted tokens are
/// decoded and must be UTF-8.
pub open spec fn diff_target(token: Seq<char>) -> Result<Option<Seq<char>>, Seq<char>> {
    if token == "/dev/null"@ {
        Ok(None)
    } else {
        let t = if token.len() > 0 && token.last() == '\t' {
            token.drop_last()
        } else {
            token
        };
        match unquote_spec(t) {
            Ok(None) => Ok(Some(t)),
            Ok(Some(bytes)) => if vstd::utf8::valid_utf8(bytes) {
                Ok(Some(vstd::utf8::decode_utf8(bytes)))
            } else {
                Err("quoted path is not UTF-8"@)
            },
            Err(reason) => Err(reason),
        }
    }
}

/// Abstract parser state: the recorded (path, line) pairs, the current
/// target path, the next new-side line of the active hunk, and how many
/// new-side body lines the active hunk still owns.
pub struct DiffState {
    pub added: Set<(Seq<char>, int)>,
    pub path: Option<Seq<char>>,
    pub cursor: Option<usize>,
    pub remaining: nat,
}

pub open spec fn initial_diff_state() -> DiffState {
    DiffState { added: Set::empty(), path: None, cursor: None, remaining: 0 }
}

pub open spec fn advance(st: DiffState, c: usize) -> DiffState {
    DiffState {
        cursor: Some(
            if c == usize::MAX {
                c
            } else {
                (c + 1) as usize
            },
        ),
        remaining: (st.remaining - 1) as nat,
        ..st
    }
}

/// One body line of an active hunk at new-side line `c`.
pub open spec fn body_step(st: DiffState, line: Seq<char>, c: usize) -> Result<DiffState, Seq<char>> {
    if line.len() == 0 || line[0] == ' ' {
        Ok(advance(st, c))
    } else if line[0] == '\\' || line[0] == '-' {
        Ok(st)
    } else if line[0] == '+' {
        let st2 = match st.path {
            Some(p) => DiffState { added: st.added.insert((p, c as int)), ..st },
            None => st,
        };
        Ok(advance(st2, c))
    } else {
        Err("malformed hunk body line: "@ + clip(line, 80))
    }
}

/// A line outside any active hunk: only `+++ ` file headers matter.
pub open spec fn target_step(st: DiffState, line: Seq<char>) -> Result<DiffState, Seq<char>> {
    if "+++ "@.is_prefix_of(line) {
        match diff_target(line.skip(4)) {
            Ok(p) => Ok(DiffState { path: p, ..st }),
            Err(e) => Err(e),
        }
    } else {
        Ok(st)
    }
}

/// One (already line-end-stripped) line of the diff.
pub open spec fn diff_step(st: DiffState, line: Seq<char>) -> Result<DiffState, Seq<char>> {
    if "@@"@.is_prefix_of(line) {
        match hunk_header(line) {
            Some((start, count)) => Ok(DiffState { cursor: Some(start), remaining: count as nat, ..st }),
            None => Err("malformed hunk header: "@ + clip(line, 120)),
        }
    } else if st.remaining == 0 {
        target_step(DiffState { cursor: None, ..st }, line)
    } else {
        match st.cursor {
            Some(c) => body_step(st, line, c),
            None => target_step(st, line),
        }
    }
}

/// The whole parse over raw stream lines: each line must fit the bound and be
/// UTF-8; the first failure, of reading or of parsing, wins.
pub open spec fn diff_run(st: DiffState, raw: Seq<Seq<u8>>, max_bytes: usize) -> Result<
    DiffState,
    Seq<char>,
>
    decreases raw.len(),
{
    if raw.len() == 0 {
        Ok(st)
    } else if raw[0].len() > max_bytes {
        Err(exceeded_message(max_bytes))
    } else {
        match line_text(raw[0]) {
            None => Err("streamed line is not valid UTF-8"@),
            Some(text) => match diff_step(st, strip_line_end(text)) {
                Ok(next) => diff_run(next, raw.drop_first(), max_bytes),
                Err(e) => Err(e),
            },
        }
    }
}

pub open spec fn line_set(c: ChangedLines) -> Set<(Seq<char>, int)> {
    Set::new(|x: (Seq<char>, int)| c.has_line(x.0, x.1))
}

proof fn lemma_ws_pieces_nonempty(s: Seq<char>)
    ensures
        ws_pieces(s).len() >= 1,
    decreases s.len(),
{
    if s.len() > 0 {
        lemma_ws_pieces_nonempty(s.drop_last());
    }
}

/// Splits on whitespace characters, keeping empty pieces.
fn ws_split(s: &[char]) -> (r: Vec<Vec<char>>)
    ensures
        crate::text::seqs_view(r@) == ws_pieces(s@),
{
    let mut r: Vec<Vec<char>> = Vec::new();
    let mut cur: Vec<char> = Vec::new();
    let mut i: usize = 0;
    assert(s@.take(0) =~= Seq::<char>::empty());
    while i < s.len()
        invariant
            i <= s.len(),
            crate::text::seqs_view(r@).push(cur@) == ws_pieces(s@.take(i as int)),
        decreases s.len() - i,
    {
        let c = s[i];
        let ghost prev_r = crate::text::seqs_view(r@);
        let ghost prev_cur = cur@;
        proof {
            let t = s@.take(i as int + 1);
            assert(t.drop_last() == s@.take(i as int));
            assert(t.last() == c);
        }
        if is_ws_exec(c) {
            r.push(cur);
            cur = Vec::new();
            assert(crate::text::seqs_view(r@) =~= prev_r.push(prev_cur));
        } else {
            cur.push(c);
        }
        i = i + 1;
        assert(crate::text::seqs_view(r@).push(cur@) =~= ws_pieces(s@.take(i as int)));
    }
    r.push(cur);
    assert(s@.take(s.len() as int) == s@);
    r
}

fn strip_plus_exec(s: &[char]) -> (r: Vec<char>)
    ensures
        r@ == strip_plus(s@),
{
    let mut i: usize = 0;
    assert(s@.skip(0) == s@);
    while i < s.len() && s[i] == '+'
        invariant
            i <= s.len(),
            strip_plus(s@) == strip_plus(s@.skip(i as int)),
        decreases s.len() - i,
    {
        assert(s@.skip(i as int).drop_first() == s@.skip(i + 1));
        i = i + 1;
    }
    assert(s@.skip(i as int) == s@.subrange(i as int, s.len() as int));
    slice_chars(s, i, s.len())
}

/// Parses the new-side start and count out of a `@@ -a,b +c,d @@ context`
/// header. Malformed numbers fail closed: silently skipping a header would
/// mis-attribute every following line.
pub fn parse_hunk_header(header: &[char]) -> (r: Result<(usize, usize), StreamError>)
    ensures
        match r {
            Ok(v) => hunk_header(header@) == Some(v),
            Err(e) => hunk_header(header@) is None && e.kind == StreamErrorKind::InvalidData
                && e.message@ == "malformed hunk header: "@ + clip(header@, 120),
        },
{
    let words = ws_split(header);
    let ghost ws = crate::text::seqs_view(words@);
    let mut k: usize = 0;
    assert(ws.skip(0) == ws);
    while k < words.len() && !(words[k].len() > 0 && words[k][0] == '+')
        invariant
            k <= words@.len(),
            ws == crate::text::seqs_view(words@),
            first_plus_word(ws) == first_plus_word(ws.skip(k as int)),
        decreases words.len() - k,
    {
        assert(ws.skip(k as int).drop_first() == ws.skip(k + 1));
        k = k + 1;
    }
    if k == words.len() {
        assert(ws.skip(k as int).len() == 0);
        return Err(malformed_header(header));
    }
    assert(ws.skip(k as int)[0] == words@[k as int]@);
    let spec = strip_plus_exec(words[k].as_slice());
    let mut comma: usize = 0;
    while comma < spec.len() && spec[comma] != ','
        invariant
            comma <= spec.len(),
            forall|j: int| 0 <= j < comma ==> spec@[j] != ',',
        decreases spec.len() - comma,
    {
        comma = comma + 1;
    }
    let (start, count) = if comma < spec.len() {
        proof {
            let fi = first_index_of(spec@, ',');
            assert(spec@[comma as int] == ',');
            let c = choose|i: int|
                0 <= i < spec@.len() && spec@[i] == ',' && forall|j: int| 0 <= j < i ==> spec@[j] != ',';
            if c < comma {
            } else if c > comma {
                assert(spec@[comma as int] != ',');
            }
            assert(fi == Some(comma as int));
        }
        (slice_chars(spec.as_slice(), 0, comma), slice_chars(spec.as_slice(), comma + 1, spec.len()))
    } else {
        assert(first_index_of(spec@, ',') is None);
        assert(spec@.subrange(0, spec@.len() as int) == spec@);
        (slice_chars(spec.as_slice(), 0, spec.len()), Vec::new())
    };
    assert(spec@.take(comma as int) == spec@.subrange(0, comma as int));
    let a = match parse_usize_chars(start.as_slice()) {
        Some(a) => a,
        None => return Err(malformed_header(header)),
    };
    if count.len() == 0 {
        assert(count@.len() == 0);
        return Ok((a, 1));
    }
    match parse_usize_chars(count.as_slice()) {
        Some(b) => Ok((a, b)),
        None => Err(malformed_header(header)),
    }
}

fn clip_exec(s: &[char], n: usize) -> (r: Vec<char>)
    ensures
        r@ == clip(s@, n as nat),
{
    if s.len() <= n {
        slice_chars(s, 0, s.len())
    } else {
        slice_chars(s, 0, n)
    }
}

fn malformed_header(header: &[char]) -> (e: StreamError)
    ensures
        e.kind == StreamErrorKind::InvalidData,
        e.message@ == "malformed hunk header: "@ + clip(header@, 120),
{
    let mut m = chars_of("malformed hunk header: ");
    let c = clip_exec(header, 120);
    extend_chars(&mut m, c.as_slice());
    StreamError::invalid_data(m)
}

/// Resolves a `+++ ` target token into a tracked path.
pub fn parse_diff_target(token: &[char]) -> (r: Result<Option<String>, StreamError>)
    ensures
        match r {
            Ok(p) => diff_target(token@) == Ok::<Option<Seq<char>>, Seq<char>>(
                match p {
                    Some(s) => Some(s@),
                    None => None,
                },
            ),
            Err(e) => e.kind == StreamErrorKind::InvalidData && diff_target(token@) == Err::<
                Option<Seq<char>>,
                Seq<char>,
            >(e.message@),
        },
{
    let dev_null = chars_of("/dev/null");
    if chars_eq(token, dev_null.as_slice()) {
        return Ok(None);
    }
    let t = if token.len() > 0 && token[token.len() - 1] == '\t' {
        slice_chars(token, 0, token.len() - 1)
    } else {
        slice_chars(token, 0, token.len())
    };
    assert(token@.subrange(0, token@.len() as int) == token@);
    let ts = string_of(t.as_slice());
    match c_style_unquote(ts.as_str()) {
        Ok(UnquotedPath::Verbatim) => Ok(Some(ts)),
        Ok(UnquotedPath::Decoded(bytes)) => match utf8_decode(bytes.as_slice()) {
            Some(s) => Ok(Some(s)),
            None => Err(StreamError::invalid_data(chars_of("quoted path is not UTF-8"))),
        },
        Err(reason) => Err(StreamError::invalid_data(chars_of(reason.as_str()))),
    }
}

/// Exec form of the parser state.
#[derive(Debug)]
pub struct DiffCursor {
    pub changed: ChangedLines,
    pub path: Option<String>,
    pub cursor: Option<usize>,
    pub remaining: usize,
}

pub open spec fn cursor_state(c: DiffCursor) -> DiffState {
    DiffState {
        added: line_set(c.changed),
        path: match c.path {
            Some(p) => Some(p@),
            None => None,
        },
        cursor: c.cursor,
        remaining: c.remaining as nat,
    }
}

proof fn lemma_insert_set(old_c: ChangedLines, new_c: ChangedLines, p: Seq<char>, l: int)
    requires
        forall|q: Seq<char>, m: int|
            #[trigger] new_c.has_line(q, m) == (old_c.has_line(q, m) || (q == p && m == l)),
    ensures
        line_set(new_c) == line_set(old_c).insert((p, l)),
{
    assert(line_set(new_c) =~= line_set(old_c).insert((p, l)));
}

/// Applies one stripped line to the exec state.
fn diff_step_exec(st: &mut DiffCursor, line: &[char]) -> (r: Result<(), StreamError>)
    requires
        old(st).changed.wf(),
    ensures
        final(st).changed.wf(),
        match r {
            Ok(()) => diff_step(cursor_state(*old(st)), line@) == Ok::<DiffState, Seq<char>>(
                cursor_state(*final(st)),
            ),
            Err(e) => e.kind == StreamErrorKind::InvalidData && diff_step(
                cursor_state(*old(st)),
                line@,
            ) == Err::<DiffState, Seq<char>>(e.message@),
        },
{
    let at_at = chars_of("@@");
    if starts_with(line, at_at.as_slice()) {
        match parse_hunk_header(line) {
            Ok((start, count)) => {
                st.cursor = Some(start);
                st.remaining = count;
                return Ok(());
            },
            Err(e) => return Err(e),
        }
    }
    if st.remaining == 0 {
        st.cursor = None;
    } else if let Some(new_line) = st.cursor {
        let first = if line.len() > 0 { Some(line[0]) } else { None };
        let advance_cursor = match first {
            None => true,
            Some(c) => {
                if c == ' ' {
                    true
                } else if c == '\\' || c == '-' {
                    false
                } else if c == '+' {
                    match &st.path {
                        Some(p) => {
                            let ghost before = st.changed;
                            st.changed.insert(p.as_str(), new_line);
                            proof {
                                lemma_insert_set(before, st.changed, p@, new_line as int);
                            }
                        },
                        None => {},
                    }
                    true
                } else {
                    let mut m = chars_of("malformed hunk body line: ");
                    let c = clip_exec(line, 80);
                    extend_chars(&mut m, c.as_slice());
                    return Err(StreamError::invalid_data(m));
                }
            },
        };
        if advance_cursor {
            st.cursor = Some(if new_line == usize::MAX { new_line } else { new_line + 1 });
            st.remaining = st.remaining - 1;
        }
        return Ok(());
    }
    let plus = chars_of("+++ ");
    assert(plus@.len() == 4) by {
        reveal_strlit("+++ ");
    }
    if starts_with(line, plus.as_slice()) {
        let token = slice_chars(line, 4, line.len());
        assert(token@ == line@.skip(4));
        match parse_diff_target(token.as_slice()) {
            Ok(p) => {
                st.path = p;
            },
            Err(e) => return Err(e),
        }
    }
    Ok(())
}

fn strip_line_end_exec(s: &[char]) -> (r: Vec<char>)
    ensures
        r@ == strip_line_end(s@),
{
    let mut n = s.len();
    assert(s@.take(s.len() as int) == s@);
    while n > 0 && (s[n - 1] == '\n' || s[n - 1] == '\r')
        invariant
            n <= s.len(),
            strip_line_end(s@) == strip_line_end(s@.take(n as int)),
        decreases n,
    {
        assert(s@.take(n as int).drop_last() == s@.take(n - 1));
        n = n - 1;
    }
    assert(s@.take(n as int) == s@.subrange(0, n as int));
    slice_chars(s, 0, n)
}

proof fn lemma_byte_lines_unfold(b: Seq<u8>)
    requires
        b.len() > 0,
    ensures
        byte_lines(b) == seq![b.take(line_end(b))] + byte_lines(b.skip(line_end(b))),
{
    lemma_line_end_bounds(b);
}

/// Parses a unified diff with lines of at most `max_line_bytes` bytes.
pub fn parse_changed_lines_bounded(input: &[u8], max_line_bytes: usize) -> (r: Result<
    ChangedLines,
    StreamError,
>)
    ensures
        match diff_run(initial_diff_state(), byte_lines(input@), max_line_bytes) {
            Ok(st) => r matches Ok(c) && c.wf() && line_set(c) == st.added,
            Err(m) => r matches Err(e) && e.message@ == m && e.kind == StreamErrorKind::InvalidData,
        },
{
    let mut bytes: Vec<u8> = Vec::new();
    let mut k: usize = 0;
    while k < input.len()
        invariant
            k <= input.len(),
            bytes@ == input@.take(k as int),
        decreases input.len() - k,
    {
        bytes.push(input[k]);
        k = k + 1;
        assert(bytes@ == input@.take(k as int));
    }
    assert(input@.take(input.len() as int) == input@);
    let mut reader = LineReader::new(bytes);
    let mut st = DiffCursor { changed: ChangedLines::new(), path: None, cursor: None, remaining: 0 };
    assert(line_set(st.changed) =~= Set::<(Seq<char>, int)>::empty());
    let mut text = String::new();
    let mut scratch: Vec<u8> = Vec::new();
    loop
        invariant
            reader.wf(),
            st.changed.wf(),
            diff_run(initial_diff_state(), byte_lines(input@), max_line_bytes) == diff_run(
                cursor_state(st),
                byte_lines(reader.remaining()),
                max_line_bytes,
            ),
        decreases reader.remaining().len(),
    {
        let ghost rem = reader.remaining();
        let read = read_text_line_bounded(&mut reader, &mut text, &mut scratch, max_line_bytes);
        proof {
            if rem.len() > 0 {
                lemma_byte_lines_unfold(rem);
                lemma_line_end_bounds(rem);
                assert(byte_lines(rem)[0] == rem.take(line_end(rem)));
                assert(byte_lines(rem).drop_first() == byte_lines(rem.skip(line_end(rem))));
            } else {
                lemma_line_end_bounds(rem);
            }
        }
        match read {
            Err(e) => {
                proof {
                    lemma_line_end_bounds(rem);
                    if line_end(rem) > max_line_bytes {
                        assert(rem.take(line_end(rem)).len() > max_line_bytes);
                    }
                }
                return Err(e);
            },
            Ok(n) => {
                if n == 0 {
                    return Ok(st.changed);
                }
                let cs = chars_of(text.as_str());
                let line = strip_line_end_exec(cs.as_slice());
                match diff_step_exec(&mut st, line.as_slice()) {
                    Ok(()) => {},
                    Err(e) => return Err(e),
                }
            },
        }
    }
}

/// Parses a unified diff with lines of at most [`MAX_DIFF_LINE_BYTES`] bytes.
pub fn parse_changed_lines(input: &[u8]) -> (r: Result<ChangedLines, StreamError>)
    ensures
        match diff_run(initial_diff_state(), byte_lines(input@), MAX_DIFF_LINE_BYTES) {
            Ok(st) => r matches Ok(c) && c.wf() && line_set(c) == st.added,
            Err(m) => r matches Err(e) && e.message@ == m && e.kind == StreamErrorKind::InvalidData,
        },
{
    parse_changed_lines_bounded(input, MAX_DIFF_LINE_BYTES)
}

} // verus!
