//! Bounded line reading over Git output and Git's C-style path quoting.
use vstd::prelude::*;

use crate::text::{chars_of, extend_str, string_of};

verus! {

/// Upper bound for one unified-diff body line.
pub const MAX_DIFF_LINE_BYTES: usize = 16777216;

/// Upper bound for one `git log` metadata or path line.
pub const MAX_LOG_LINE_BYTES: usize = 65536;

/// Upper bound for one `--name-only` path line.
pub const MAX_PATH_LINE_BYTES: usize = 8192;

/// Error kinds of the streamed readers and parsers.
#[derive(Debug, Clone, Copy, Eq, PartialEq, Structural)]
pub enum StreamErrorKind {
    /// The stream holds data the reader refuses (oversized, not UTF-8, malformed).
    InvalidData,
}

#[derive(Debug, Clone, Eq, PartialEq)]
pub struct StreamError {
    pub kind: StreamErrorKind,
    pub message: String,
}

impl StreamError {
    pub fn invalid_data(message: Vec<char>) -> (e: StreamError)
        ensures
            e.kind == StreamErrorKind::InvalidData,
            e.message@ == message@,
    {
        StreamError { kind: StreamErrorKind::InvalidData, message: string_of(message.as_slice()) }
    }

    /// The error's category.
    pub fn kind(&self) -> (k: StreamErrorKind)
        ensures
            k == self.kind,
    {
        self.kind
    }

    /// The human-readable reason.
    pub fn to_string(&self) -> (s: String)
        ensures
            s@ == self.message@,
    {
        self.message.clone()
    }
}

/// The refusal of a line longer than `max_bytes`.
pub open spec fn exceeded_message(max_bytes: usize) -> Seq<char> {
    "streamed line exceeded "@ + crate::text::decimal(max_bytes as nat) + " bytes"@
}

/// Index just past the first `\n` of `b`, or `b.len()` when there is none.
pub open spec fn line_end(b: Seq<u8>) -> int
    decreases b.len(),
{
    if b.len() == 0 {
        0
    } else if b[0] == 10 {
        1
    } else {
        1 + line_end(b.drop_first())
    }
}

/// The lines of a byte stream, each including its `\n` when it has one.
pub open spec fn byte_lines(b: Seq<u8>) -> Seq<Seq<u8>>
    decreases b.len(),
{
    if b.len() == 0 {
        Seq::empty()
    } else {
        let e = line_end(b);
        if 0 < e <= b.len() {
            seq![b.take(e)] + byte_lines(b.skip(e))
        } else {
            Seq::empty()
        }
    }
}

pub proof fn lemma_line_end_bounds(b: Seq<u8>)
    ensures
        b.len() > 0 ==> 0 < line_end(b) <= b.len(),
        b.len() == 0 ==> line_end(b) == 0,
        forall|i: int| 0 <= i < line_end(b) - 1 ==> b[i] != 10,
        line_end(b) < b.len() || (b.len() > 0 && line_end(b) == b.len()) ==> (b[line_end(b) - 1]
            == 10 || line_end(b) == b.len()),
    decreases b.len(),
{
    if b.len() > 0 && b[0] != 10 {
        lemma_line_end_bounds(b.drop_first());
        assert forall|i: int| 0 <= i < line_end(b) - 1 implies b[i] != 10 by {
            if i > 0 {
                assert(b[i] == b.drop_first()[i - 1]);
            }
        }
    }
}

/// A forward-only reader over an in-memory byte stream.
#[derive(Debug)]
pub struct LineReader {
    bytes: Vec<u8>,
    pos: usize,
}

impl LineReader {
    pub closed spec fn remaining(&self) -> Seq<u8> {
        self.bytes@.skip(self.pos as int)
    }

    pub closed spec fn wf(&self) -> bool {
        self.pos <= self.bytes@.len()
    }

    /// What remains fits in memory.
    pub proof fn lemma_remaining_fits(&self)
        requires
            self.wf(),
        ensures
            self.remaining().len() <= usize::MAX,
    {
        assert(self.bytes@.len() == self.bytes.len());
    }

    pub fn new(bytes: Vec<u8>) -> (r: LineReader)
        ensures
            r.wf(),
            r.remaining() == bytes@,
    {
        let r = LineReader { bytes, pos: 0 };
        assert(r.bytes@.skip(0) == r.bytes@);
        r
    }

    /// Reads the next line, including its `\n`, into `line`, refusing a line
    /// longer than `max_bytes`. `Ok(0)` marks the end of the stream.
    pub fn read_line_bounded(&mut self, line: &mut Vec<u8>, max_bytes: usize) -> (r: Result<
        usize,
        StreamError,
    >)
        requires
            old(self).wf(),
        ensures
            final(self).wf(),
            match r {
                Ok(n) => {
                    &&& n == line_end(old(self).remaining())
                    &&& final(line)@ == old(self).remaining().take(n as int)
                    &&& final(self).remaining() == old(self).remaining().skip(n as int)
                    &&& n <= max_bytes
                },
                Err(e) => {
                    &&& e.kind == StreamErrorKind::InvalidData
                    &&& line_end(old(self).remaining()) > max_bytes
                    &&& e.message@ == exceeded_message(max_bytes)
                },
            },
    {
        line.clear();
        let ghost rem = self.remaining();
        let start = self.pos;
        let mut i = self.pos;
        let mut found = false;
        while i < self.bytes.len() && !found
            invariant
                start == self.pos,
                self.pos <= i <= self.bytes@.len(),
                rem == self.bytes@.skip(start as int),
                found ==> line_end(rem) == i - start,
                !found ==> line_end(rem) == (i - start) + line_end(self.bytes@.skip(i as int)),
            decreases self.bytes.len() - i,
        {
            if self.bytes[i] == 10u8 {
                assert(line_end(self.bytes@.skip(i as int)) == 1);
                found = true;
            } else {
                assert(self.bytes@.skip(i as int).drop_first() == self.bytes@.skip(i + 1));
            }
            i = i + 1;
        }
        proof {
            if !found {
                assert(self.bytes@.skip(i as int).len() == 0);
            }
        }
        let n = i - start;
        if n > max_bytes {
            let mut m = chars_of("streamed line exceeded ");
            crate::text::push_decimal(&mut m, max_bytes);
            extend_str(&mut m, " bytes");
            return Err(StreamError::invalid_data(m));
        }
        let mut k = start;
        while k < i
            invariant
                start <= k <= i <= self.bytes@.len(),
                line@ == self.bytes@.subrange(start as int, k as int),
            decreases i - k,
        {
            line.push(self.bytes[k]);
            k = k + 1;
        }
        self.pos = i;
        assert(line@ == rem.take(n as int));
        assert(self.remaining() == rem.skip(n as int));
        Ok(n)
    }
}

} // verus!

verus! {

/// The text of one streamed line: its bytes must be valid UTF-8.
pub open spec fn line_text(bytes: Seq<u8>) -> Option<Seq<char>> {
    if vstd::utf8::valid_utf8(bytes) {
        Some(vstd::utf8::decode_utf8(bytes))
    } else {
        None
    }
}

/// Reads one bounded UTF-8 text line, including its `\n`. `Ok(0)` marks the
/// end of the stream.
pub fn read_text_line_bounded(
    reader: &mut LineReader,
    text: &mut String,
    scratch: &mut Vec<u8>,
    max_bytes: usize,
) -> (r: Result<usize, StreamError>)
    requires
        old(reader).wf(),
    ensures
        final(reader).wf(),
        match r {
            Ok(n) => {
                let line = old(reader).remaining().take(n as int);
                &&& n == line_end(old(reader).remaining())
                &&& n <= max_bytes
                &&& final(reader).remaining() == old(reader).remaining().skip(n as int)
                &&& line_text(line) == Some(final(text)@)
            },
            Err(e) => {
                let n = line_end(old(reader).remaining());
                &&& e.kind == StreamErrorKind::InvalidData
                &&& ((n > max_bytes && e.message@ == exceeded_message(max_bytes)) || (n <= max_bytes
                    && line_text(old(reader).remaining().take(n)) is None && e.message@
                    == "streamed line is not valid UTF-8"@))
            },
        },
{
    let read = match reader.read_line_bounded(scratch, max_bytes) {
        Ok(n) => n,
        Err(e) => return Err(e),
    };
    match crate::text::utf8_decode(scratch.as_slice()) {
        Some(s) => {
            *text = s;
            Ok(read)
        },
        None => Err(StreamError::invalid_data(chars_of("streamed line is not valid UTF-8"))),
    }
}

/// Outcome of [`c_style_unquote`].
#[derive(Debug, Clone, Eq, PartialEq)]
pub enum UnquotedPath {
    /// The token was not C-quoted; it is used verbatim.
    Verbatim,
    /// The token was quoted and decoded successfully into raw path bytes.
    Decoded(Vec<u8>),
}

/// The byte of a single-character escape (`\"`, `\\`, `\a b f n r t v`).
pub open spec fn simple_escape(c: char) -> Option<u8> {
    if c == '"' {
        Some(34u8)
    } else if c == '\\' {
        Some(92u8)
    } else if c == 'a' {
        Some(7u8)
    } else if c == 'b' {
        Some(8u8)
    } else if c == 'f' {
        Some(12u8)
    } else if c == 'n' {
        Some(10u8)
    } else if c == 'r' {
        Some(13u8)
    } else if c == 't' {
        Some(9u8)
    } else if c == 'v' {
        Some(11u8)
    } else {
        None
    }
}

pub open spec fn is_octal(c: char) -> bool {
    48 <= (c as u32) <= 55
}

pub open spec fn octal_value(c: char) -> nat {
    ((c as u32) - 48) as nat
}

pub open spec fn prepend_bytes(b: Seq<u8>, r: Result<Seq<u8>, Seq<char>>) -> Result<
    Seq<u8>,
    Seq<char>,
> {
    match r {
        Ok(rest) => Ok(b + rest),
        Err(e) => Err(e),
    }
}

/// Decoding of the body of a quoted path: left to right, the first failure wins.
pub open spec fn unquote_body(s: Seq<char>) -> Result<Seq<u8>, Seq<char>>
    decreases s.len(),
{
    if s.len() == 0 {
        Ok(Seq::empty())
    } else if s[0] == '"' {
        Err("quoted path contains a raw double quote"@)
    } else if s[0] != '\\' {
        prepend_bytes(vstd::utf8::encode_utf8(seq![s[0]]), unquote_body(s.skip(1)))
    } else if s.len() < 2 {
        Err("quoted path ends with a dangling backslash"@)
    } else if simple_escape(s[1]) is Some {
        prepend_bytes(seq![simple_escape(s[1])->0], unquote_body(s.skip(2)))
    } else if is_octal(s[1]) {
        if s.len() < 3 {
            Err("quoted path octal escape is truncated"@)
        } else if !is_octal(s[2]) {
            Err("quoted path octal escape has a non-octal digit"@)
        } else if s.len() < 4 {
            Err("quoted path octal escape is truncated"@)
        } else if !is_octal(s[3]) {
            Err("quoted path octal escape has a non-octal digit"@)
        } else if octal_value(s[1]) * 64 + octal_value(s[2]) * 8 + octal_value(s[3]) > 255 {
            Err("quoted path octal escape exceeds one byte"@)
        } else {
            prepend_bytes(
                seq![(octal_value(s[1]) * 64 + octal_value(s[2]) * 8 + octal_value(s[3])) as u8],
                unquote_body(s.skip(4)),
            )
        }
    } else {
        Err("quoted path uses unsupported escape `\\"@ + seq![s[1]] + "`"@)
    }
}

/// Git's C-style quoting of a path token: `Ok(None)` for an unquoted token.
pub open spec fn unquote_spec(token: Seq<char>) -> Result<Option<Seq<u8>>, Seq<char>> {
    if token.len() == 0 || token[0] != '"' {
        Ok(None)
    } else if token.len() < 2 || token.last() != '"' {
        Err("quoted path is missing its closing quote"@)
    } else {
        match unquote_body(token.subrange(1, token.len() - 1)) {
            Ok(b) => Ok(Some(b)),
            Err(e) => Err(e),
        }
    }
}

fn octal_digit(c: char) -> (r: Option<u32>)
    ensures
        r is Some <==> is_octal(c),
        r matches Some(v) ==> v == octal_value(c) && v < 8,
{
    let u = c as u32;
    if 48 <= u && u <= 55 {
        Some(u - 48)
    } else {
        None
    }
}

fn simple_escape_exec(c: char) -> (r: Option<u8>)
    ensures
        r == simple_escape(c),
{
    if c == '"' {
        Some(34u8)
    } else if c == '\\' {
        Some(92u8)
    } else if c == 'a' {
        Some(7u8)
    } else if c == 'b' {
        Some(8u8)
    } else if c == 'f' {
        Some(12u8)
    } else if c == 'n' {
        Some(10u8)
    } else if c == 'r' {
        Some(13u8)
    } else if c == 't' {
        Some(9u8)
    } else if c == 'v' {
        Some(11u8)
    } else {
        None
    }
}

/// Decodes a Git C-style quoted path token (`"..."` with `\"`, `\\`,
/// `\a b f n r t v`, and three-digit octal escapes). Returns
/// [`UnquotedPath::Verbatim`] when the token does not start with a quote, and
/// an error when it is quoted but malformed.
pub fn c_style_unquote(token: &str) -> (r: Result<UnquotedPath, String>)
    ensures
        match r {
            Ok(UnquotedPath::Verbatim) => unquote_spec(token@) == Ok::<
                Option<Seq<u8>>,
                Seq<char>,
            >(None),
            Ok(UnquotedPath::Decoded(b)) => unquote_spec(token@) == Ok::<
                Option<Seq<u8>>,
                Seq<char>,
            >(Some(b@)),
            Err(e) => unquote_spec(token@) == Err::<Option<Seq<u8>>, Seq<char>>(e@),
        },
{
    let t = chars_of(token);
    if t.len() == 0 || t[0] != '"' {
        return Ok(UnquotedPath::Verbatim);
    }
    if t.len() < 2 || t[t.len() - 1] != '"' {
        return Err(string_of(chars_of("quoted path is missing its closing quote").as_slice()));
    }
    let end = t.len() - 1;
    let ghost body = t@.subrange(1, end as int);
    let mut bytes: Vec<u8> = Vec::new();
    let mut i: usize = 1;
    while i < end
        invariant
            1 <= i <= end,
            end == t@.len() - 1,
            t@ == token@,
            t@.len() >= 2,
            t@[0] == '"',
            t@.last() == '"',
            body == t@.subrange(1, end as int),
            unquote_body(body) == prepend_bytes(bytes@, unquote_body(t@.subrange(i as int, end as int))),
        decreases end - i,
    {
        let ghost s = t@.subrange(i as int, end as int);
        let c = t[i];
        assert(s[0] == c);
        if c == '"' {
            assert(unquote_body(s) == Err::<Seq<u8>, Seq<char>>("quoted path contains a raw double quote"@));
            assert(unquote_body(body) == Err::<Seq<u8>, Seq<char>>("quoted path contains a raw double quote"@));
            assert(token@ == t@);
            return Err(string_of(chars_of("quoted path contains a raw double quote").as_slice()));
        } else if c != '\\' {
            let enc = crate::text::utf8_encode_char(c);
            assert(s.skip(1) == t@.subrange(i + 1, end as int));
            let ghost before = bytes@;
            let mut k: usize = 0;
            while k < enc.len()
                invariant
                    k <= enc.len(),
                    bytes@ == before + enc@.take(k as int),
                decreases enc.len() - k,
            {
                bytes.push(enc[k]);
                k = k + 1;
                assert(bytes@ == before + enc@.take(k as int));
            }
            assert(enc@.take(enc.len() as int) == enc@);
            i = i + 1;
            assert(before + (enc@ + unquote_body(t@.subrange(i as int, end as int))->Ok_0) == bytes@ + unquote_body(t@.subrange(i as int, end as int))->Ok_0);
        } else {
            if i + 1 >= end {
                assert(s.len() < 2);
                assert(unquote_body(s) == Err::<Seq<u8>, Seq<char>>("quoted path ends with a dangling backslash"@));
                assert(unquote_body(body) == Err::<Seq<u8>, Seq<char>>("quoted path ends with a dangling backslash"@));
                assert(token@ == t@);
                return Err(
                    string_of(chars_of("quoted path ends with a dangling backslash").as_slice()),
                );
            }
            let e = t[i + 1];
            assert(s[1] == e);
            match simple_escape_exec(e) {
                Some(b) => {
                    assert(s.skip(2) == t@.subrange(i + 2, end as int));
                    let ghost before = bytes@;
                    bytes.push(b);
                    i = i + 2;
                    assert(before + (seq![b] + unquote_body(t@.subrange(i as int, end as int))->Ok_0) == bytes@ + unquote_body(t@.subrange(i as int, end as int))->Ok_0);
                },
                None => {
                    match octal_digit(e) {
                        Some(d1) => {
                            if i + 2 >= end {
                                return Err(
                                    string_of(
                                        chars_of("quoted path octal escape is truncated").as_slice(),
                                    ),
                                );
                            }
                            assert(s[2] == t@[i + 2]);
                            let d2 = match octal_digit(t[i + 2]) {
                                Some(d) => d,
                                None => {
                                    return Err(
                                        string_of(
                                            chars_of(
                                                "quoted path octal escape has a non-octal digit",
                                            ).as_slice(),
                                        ),
                                    );
                                },
                            };
                            if i + 3 >= end {
                                return Err(
                                    string_of(
                                        chars_of("quoted path octal escape is truncated").as_slice(),
                                    ),
                                );
                            }
                            assert(s[3] == t@[i + 3]);
                            let d3 = match octal_digit(t[i + 3]) {
                                Some(d) => d,
                                None => {
                                    return Err(
                                        string_of(
                                            chars_of(
                                                "quoted path octal escape has a non-octal digit",
                                            ).as_slice(),
                                        ),
                                    );
                                },
                            };
                            let value = d1 * 64 + d2 * 8 + d3;
                            if value > 255 {
                                return Err(
                                    string_of(
                                        chars_of(
                                            "quoted path octal escape exceeds one byte",
                                        ).as_slice(),
                                    ),
                                );
                            }
                            assert(s.skip(4) == t@.subrange(i + 4, end as int));
                            let ghost before = bytes@;
                            bytes.push(value as u8);
                            i = i + 4;
                            assert(before + (seq![value as u8] + unquote_body(t@.subrange(i as int, end as int))->Ok_0) == bytes@ + unquote_body(t@.subrange(i as int, end as int))->Ok_0);
                        },
                        None => {
                            let mut m = chars_of("quoted path uses unsupported escape `\\");
                            m.push(e);
                            extend_str(&mut m, "`");
                            assert(m@ == "quoted path uses unsupported escape `\\"@ + seq![s[1]] + "`"@);
                            assert(unquote_body(body) == Err::<Seq<u8>, Seq<char>>(m@));
                            assert(token@ == t@);
                            return Err(string_of(m.as_slice()));
                        },
                    }
                },
            }
        }
    }
    assert(t@.subrange(end as int, end as int).len() == 0);
    Ok(UnquotedPath::Decoded(bytes))
}

} // verus!
