//! The paths that `git diff --name-only` lists, one per line, each decoded
//! from Git's C-style quoting where it is quoted.
use vstd::prelude::*;

use crate::git_stream::{
    byte_lines, c_style_unquote, exceeded_message, lemma_line_end_bounds, line_end, line_text,
    read_text_line_bounded, unquote_spec, LineReader, StreamError, StreamErrorKind, UnquotedPath,
    MAX_PATH_LINE_BYTES,
};
use crate::text::{chars_of, slice_chars, string_of, utf8_decode};
use crate::validate::strings_view;

verus! {

/// The text without its trailing line-feed and carriage-return characters.
pub open spec fn trim_line_breaks(s: Seq<char>) -> Seq<char>
    decreases s.len(),
{
    if s.len() > 0 && (s.last() == '\n' || s.last() == '\r') {
        trim_line_breaks(s.drop_last())
    } else {
        s
    }
}

/// The path one non-empty line names: the line itself when it is not
/// quoted, else its decoded bytes, which must be UTF-8.
pub open spec fn decoded_path(line: Seq<char>) -> Result<Seq<char>, Seq<char>> {
    match unquote_spec(line) {
        Ok(None) => Ok(line),
        Ok(Some(bytes)) => if vstd::utf8::valid_utf8(bytes) {
            Ok(vstd::utf8::decode_utf8(bytes))
        } else {
            Err("quoted path is not UTF-8"@)
        },
        Err(reason) => Err(reason),
    }
}

/// The paths of the lines in order, blank lines skipped; the first line
/// that is too long, not UTF-8 or badly quoted fails the whole stream.
pub open spec fn path_lines(lines: Seq<Seq<u8>>, max: usize) -> Result<Seq<Seq<char>>, Seq<char>>
    decreases lines.len(),
{
    if lines.len() == 0 {
        Ok(Seq::empty())
    } else if lines[0].len() > max {
        Err(exceeded_message(max))
    } else {
        match line_text(lines[0]) {
            None => Err("streamed line is not valid UTF-8"@),
            Some(t) => {
                let l = trim_line_breaks(t);
                if l.len() == 0 {
                    path_lines(lines.drop_first(), max)
                } else {
                    match decoded_path(l) {
                        Err(m) => Err(m),
                        Ok(p) => match path_lines(lines.drop_first(), max) {
                            Ok(ps) => Ok(seq![p] + ps),
                            Err(e) => Err(e),
                        },
                    }
                }
            },
        }
    }
}

pub(crate) fn trim_line_breaks_exec(s: &[char]) -> (r: Vec<char>)
    ensures
        r@ == trim_line_breaks(s@),
{
    let mut n = s.len();
    assert(s@.take(n as int) =~= s@);
    while n > 0 && (s[n - 1] == '\n' || s[n - 1] == '\r')
        invariant
            n <= s@.len(),
            trim_line_breaks(s@) == trim_line_breaks(s@.take(n as int)),
        decreases n,
    {
        assert(s@.take(n as int).drop_last() =~= s@.take(n - 1));
        n = n - 1;
    }
    let r = slice_chars(s, 0, n);
    assert(r@ =~= s@.take(n as int));
    r
}

/// Decodes one non-empty path line (see [`decoded_path`]).
pub fn decode_git_path_line(line: &str) -> (r: Result<String, String>)
    ensures
        match r {
            Ok(p) => decoded_path(line@) == Ok::<Seq<char>, Seq<char>>(p@),
            Err(m) => decoded_path(line@) == Err::<Seq<char>, Seq<char>>(m@),
        },
{
    match c_style_unquote(line) {
        Ok(UnquotedPath::Verbatim) => Ok(crate::text::owned(line)),
        Ok(UnquotedPath::Decoded(bytes)) => match utf8_decode(bytes.as_slice()) {
            Some(p) => Ok(p),
            None => Err(string_of(chars_of("quoted path is not UTF-8").as_slice())),
        },
        Err(reason) => Err(reason),
    }
}

/// The paths of `git diff --name-only` output (see [`path_lines`]), with
/// lines bounded by [`MAX_PATH_LINE_BYTES`].
pub fn stream_changed_paths(input: &[u8]) -> (r: Result<Vec<String>, StreamError>)
    ensures
        match path_lines(byte_lines(input@), MAX_PATH_LINE_BYTES) {
            Ok(ps) => r matches Ok(v) && strings_view(v@) == ps,
            Err(m) => r matches Err(e) && e.message@ == m && e.kind == StreamErrorKind::InvalidData,
        },
{
    let max = MAX_PATH_LINE_BYTES;
    let mut bytes: Vec<u8> = Vec::new();
    let mut k: usize = 0;
    while k < input.len()
        invariant
            k <= input.len(),
            bytes@ == input@.take(k as int),
        decreases input.len() - k,
    {
        bytes.push(input[k]);
        k = k + 1;
        assert(bytes@ == input@.take(k as int));
    }
    assert(input@.take(input.len() as int) == input@);
    let mut reader = LineReader::new(bytes);
    let mut paths: Vec<String> = Vec::new();
    let mut text = String::new();
    let mut scratch: Vec<u8> = Vec::new();
    let mut done = false;
    assert(strings_view(paths@) =~= Seq::<Seq<char>>::empty());
    while !done
        invariant
            reader.wf(),
            max == MAX_PATH_LINE_BYTES,
            path_lines(byte_lines(input@), max) == match path_lines(byte_lines(reader.remaining()), max) {
                Ok(ps) => Ok(strings_view(paths@) + ps),
                Err(e) => Err(e),
            },
            done ==> reader.remaining().len() == 0,
        decreases reader.remaining().len() + if done {
            0int
        } else {
            1int
        },
    {
        let ghost rem = reader.remaining();
        let ghost before = strings_view(paths@);
        proof {
            reader.lemma_remaining_fits();
            lemma_line_end_bounds(rem);
            if rem.len() > 0 {
                assert(byte_lines(rem) == seq![rem.take(line_end(rem))] + byte_lines(
                    rem.skip(line_end(rem)),
                ));
                assert(byte_lines(rem)[0] == rem.take(line_end(rem)));
                assert(byte_lines(rem).drop_first() =~= byte_lines(rem.skip(line_end(rem))));
            } else {
                assert(byte_lines(rem).len() == 0);
            }
        }
        let read = read_text_line_bounded(&mut reader, &mut text, &mut scratch, max);
        match read {
            Err(e) => {
                proof {
                    if rem.len() == 0 {
                        assert(rem.take(0) =~= Seq::<u8>::empty());
                        assert(vstd::utf8::valid_utf8(Seq::<u8>::empty()));
                        assert(line_end(rem) == 0);
                    }
                    assert(rem.len() > 0);
                    assert(byte_lines(rem)[0].len() == line_end(rem));
                }
                return Err(e);
            },
            Ok(n) => {
                if n == 0 {
                    proof {
                        if rem.len() > 0 {
                            assert(line_end(rem) > 0);
                        }
                        assert(byte_lines(rem).len() == 0);
                        assert(before + Seq::<Seq<char>>::empty() =~= before);
                    }
                    done = true;
                } else {
                    assert(byte_lines(rem)[0].len() == n);
                    let tc = chars_of(text.as_str());
                    let line = trim_line_breaks_exec(tc.as_slice());
                    if line.len() > 0 {
                        let line_text = string_of(line.as_slice());
                        match decode_git_path_line(line_text.as_str()) {
                            Err(m) => {
                                return Err(StreamError::invalid_data(chars_of(m.as_str())));
                            },
                            Ok(p) => {
                                let ghost pv = p@;
                                paths.push(p);
                                proof {
                                    assert(strings_view(paths@) =~= before.push(pv));
                                    match path_lines(byte_lines(reader.remaining()), max) {
                                        Ok(ps) => {
                                            assert(before + (seq![pv] + ps) =~= strings_view(paths@) + ps);
                                        },
                                        Err(_) => {},
                                    }
                                }
                            },
                        }
                    }
                }
            },
        }
    }
    Ok(paths)
}

} // verus!
