//! Source versions read in one batch: the revision specs a source history
//! needs, and the replies of `git cat-file --batch` to them, one blob or
//! absence per spec.
use vstd::prelude::*;

use crate::changed_paths::trim_line_breaks;
use crate::git_stream::{lemma_line_end_bounds, line_end};
use crate::rust_facts::{split_words, words};
use crate::text::{chars_eq, chars_of, extend_str, owned, parse_usize, parse_usize_chars, string_of, utf8_decode};
use crate::validate::strings_view;

verus! {

/// `revision:path`, with the path's backslashes turned into slashes.
pub open spec fn revision_spec(revision: Seq<char>, path: Seq<char>) -> Seq<char> {
    revision + ":"@ + path.map_values(|c: char| if c == '\\' { '/' } else { c })
}

pub fn revision_spec_exec(revision: &str, path: &str) -> (r: String)
    ensures
        r@ == revision_spec(revision@, path@),
{
    let mut out = chars_of(revision);
    extend_str(&mut out, ":");
    let ghost head = out@;
    let p = chars_of(path);
    let mut i: usize = 0;
    while i < p.len()
        invariant
            i <= p@.len(),
            p@ == path@,
            out@ == head + path@.take(i as int).map_values(|c: char| if c == '\\' { '/' } else { c }),
        decreases p.len() - i,
    {
        let c = p[i];
        out.push(if c == '\\' { '/' } else { c });
        i = i + 1;
        assert(out@ =~= head + path@.take(i as int).map_values(|c: char| if c == '\\' { '/' } else { c }));
    }
    assert(path@.take(i as int) =~= path@);
    string_of(out.as_slice())
}

/// Why a batch reply could not be read.
#[derive(Debug, Clone, Eq, PartialEq)]
pub enum CatFileError {
    /// The replies ended before the one for this spec.
    Ended(String),
    /// A reply header was not UTF-8.
    HeaderNotUtf8,
    /// The reply header for this spec did not have three fields.
    InvalidHeader(String),
    /// The size field of the reply for this spec was not a `usize`.
    InvalidSize(String, String),
    /// The replies ended inside a payload.
    Truncated,
    /// The payload for this spec was not followed by a line feed.
    InvalidTerminator(String),
}

pub enum CatFileErrorView {
    Ended(Seq<char>),
    HeaderNotUtf8,
    InvalidHeader(Seq<char>),
    InvalidSize(Seq<char>, Seq<char>),
    Truncated,
    InvalidTerminator(Seq<char>),
}

impl CatFileError {
    pub open spec fn error_view(&self) -> CatFileErrorView {
        match self {
            CatFileError::Ended(s) => CatFileErrorView::Ended(s@),
            CatFileError::HeaderNotUtf8 => CatFileErrorView::HeaderNotUtf8,
            CatFileError::InvalidHeader(s) => CatFileErrorView::InvalidHeader(s@),
            CatFileError::InvalidSize(s, t) => CatFileErrorView::InvalidSize(s@, t@),
            CatFileError::Truncated => CatFileErrorView::Truncated,
            CatFileError::InvalidTerminator(s) => CatFileErrorView::InvalidTerminator(s@),
        }
    }
}

pub open spec fn ends_with(s: Seq<char>, suffix: Seq<char>) -> bool {
    s.len() >= suffix.len() && s.skip(s.len() - suffix.len()) == suffix
}

/// The source a reply holds: the payload of a blob when it is UTF-8.
pub open spec fn reply_source(kind: Seq<char>, payload: Seq<u8>) -> Option<Seq<char>> {
    if kind == "blob"@ && vstd::utf8::valid_utf8(payload) {
        Some(vstd::utf8::decode_utf8(payload))
    } else {
        None
    }
}

/// The replies in `rem` to `specs`, in order: `None` for a missing object
/// or a payload that is not a UTF-8 blob.
pub open spec fn batch_replies(rem: Seq<u8>, specs: Seq<Seq<char>>) -> Result<Seq<Option<Seq<char>>>, CatFileErrorView>
    decreases specs.len(),
{
    if specs.len() == 0 {
        Ok(Seq::empty())
    } else if rem.len() == 0 {
        Err(CatFileErrorView::Ended(specs[0]))
    } else {
        let e = line_end(rem);
        let header_bytes = rem.take(e);
        if !vstd::utf8::valid_utf8(header_bytes) {
            Err(CatFileErrorView::HeaderNotUtf8)
        } else {
            let header = trim_line_breaks(vstd::utf8::decode_utf8(header_bytes));
            let body = rem.skip(e);
            if ends_with(header, " missing"@) {
                match batch_replies(body, specs.drop_first()) {
                    Ok(rest) => Ok(seq![None] + rest),
                    Err(err) => Err(err),
                }
            } else {
                let fields = words(header);
                if fields.len() < 3 {
                    Err(CatFileErrorView::InvalidHeader(specs[0]))
                } else {
                    match parse_usize(fields[2]) {
                        None => Err(CatFileErrorView::InvalidSize(specs[0], fields[2])),
                        Some(size) => if fields.len() > 3 {
                            Err(CatFileErrorView::InvalidHeader(specs[0]))
                        } else if body.len() <= size {
                            Err(CatFileErrorView::Truncated)
                        } else if body[size as int] != 10u8 {
                            Err(CatFileErrorView::InvalidTerminator(specs[0]))
                        } else {
                            match batch_replies(body.skip(size + 1), specs.drop_first()) {
                                Ok(rest) => Ok(seq![reply_source(fields[1], body.take(size as int))] + rest),
                                Err(err) => Err(err),
                            }
                        }
                    }
                }
            }
        }
    }
}

pub open spec fn sources_view(v: Seq<Option<String>>) -> Seq<Option<Seq<char>>> {
    v.map_values(|o: Option<String>| crate::rust_facts::ident_view(o))
}

fn bytes_between(s: &[u8], a: usize, b: usize) -> (r: Vec<u8>)
    requires
        a <= b <= s@.len(),
    ensures
        r@ == s@.subrange(a as int, b as int),
{
    let mut r: Vec<u8> = Vec::new();
    let mut i = a;
    while i < b
        invariant
            a <= i <= b,
            b <= s@.len(),
            r@ == s@.subrange(a as int, i as int),
        decreases b - i,
    {
        r.push(s[i]);
        i = i + 1;
        assert(r@ =~= s@.subrange(a as int, i as int));
    }
    r
}

fn ends_with_exec(s: &[char], suffix: &str) -> (r: bool)
    ensures
        r == ends_with(s@, suffix@),
{
    let t = chars_of(suffix);
    if s.len() < t.len() {
        return false;
    }
    let tail = crate::text::slice_chars(s, s.len() - t.len(), s.len());
    assert(tail@ =~= s@.skip(s@.len() - t@.len()));
    chars_eq(tail.as_slice(), t.as_slice())
}

/// The replies of `git cat-file --batch` to `specs` (see [`batch_replies`]).
#[verifier::rlimit(40)]
pub fn read_batch_replies(output: &[u8], specs: &Vec<String>) -> (r: Result<Vec<Option<String>>, CatFileError>)
    ensures
        match batch_replies(output@, strings_view(specs@)) {
            Ok(v) => r matches Ok(w) && sources_view(w@) == v,
            Err(e) => r matches Err(f) && f.error_view() == e,
        },
{
    let ghost sv = strings_view(specs@);
    let mut pos: usize = 0;
    let mut out: Vec<Option<String>> = Vec::new();
    let mut k: usize = 0;
    assert(output@.skip(0) =~= output@);
    assert(sv.skip(0) =~= sv);
    assert(sources_view(out@) =~= Seq::<Option<Seq<char>>>::empty());
    while k < specs.len()
        invariant
            k <= specs@.len(),
            pos <= output@.len(),
            sv == strings_view(specs@),
            batch_replies(output@, sv) == match batch_replies(output@.skip(pos as int), sv.skip(k as int)) {
                Ok(rest) => Ok(sources_view(out@) + rest),
                Err(e) => Err(e),
            },
        decreases specs.len() - k,
    {
        let ghost rem = output@.skip(pos as int);
        let ghost before = sources_view(out@);
        let spec = &specs[k];
        assert(sv.skip(k as int)[0] == spec@);
        assert(sv.skip(k as int).drop_first() =~= sv.skip(k + 1));
        if pos == output.len() {
            return Err(CatFileError::Ended(owned(spec.as_str())));
        }
        let mut e = pos;
        while e < output.len() && output[e] != 10u8
            invariant
                pos <= e <= output@.len(),
                line_end(rem) == (e - pos) + line_end(output@.skip(e as int)),
            decreases output.len() - e,
        {
            assert(output@.skip(e as int).drop_first() =~= output@.skip(e + 1));
            e = e + 1;
        }
        if e < output.len() {
            e = e + 1;
        } else {
            assert(output@.skip(e as int).len() == 0);
        }
        proof {
            lemma_line_end_bounds(rem);
        }
        assert(line_end(rem) == e - pos);
        let header_bytes = bytes_between(output, pos, e);
        assert(header_bytes@ =~= rem.take(line_end(rem)));
        let header_text = match utf8_decode(header_bytes.as_slice()) {
            Some(t) => t,
            None => {
                return Err(CatFileError::HeaderNotUtf8);
            },
        };
        let hc = chars_of(header_text.as_str());
        let header = crate::changed_paths::trim_line_breaks_exec(hc.as_slice());
        assert(output@.skip(e as int) =~= rem.skip(line_end(rem)));
        if ends_with_exec(header.as_slice(), " missing") {
            out.push(None);
            pos = e;
            k = k + 1;
            proof {
                assert(sources_view(out@) =~= before.push(None));
                match batch_replies(output@.skip(pos as int), sv.skip(k as int)) {
                    Ok(rest) => {
                        assert(before + (seq![None] + rest) =~= sources_view(out@) + rest);
                    },
                    Err(_) => {},
                }
            }
        } else {
            let fields = split_words(header.as_slice());
            assert(crate::text::seqs_view(fields@) == words(header@));
            if fields.len() < 3 {
                return Err(CatFileError::InvalidHeader(owned(spec.as_str())));
            }
            assert(fields@[2]@ == words(header@)[2]);
            assert(fields@[1]@ == words(header@)[1]);
            let size = match parse_usize_chars(fields[2].as_slice()) {
                Some(n) => n,
                None => {
                    return Err(CatFileError::InvalidSize(owned(spec.as_str()), string_of(fields[2].as_slice())));
                },
            };
            if fields.len() > 3 {
                return Err(CatFileError::InvalidHeader(owned(spec.as_str())));
            }
            if output.len() - e <= size {
                return Err(CatFileError::Truncated);
            }
            if output[e + size] != 10u8 {
                assert(output@.skip(e as int)[size as int] == output@[e + size]);
                return Err(CatFileError::InvalidTerminator(owned(spec.as_str())));
            }
            let payload = bytes_between(output, e, e + size);
            assert(payload@ =~= output@.skip(e as int).take(size as int));
            let blob = chars_of("blob");
            let source = if chars_eq(fields[1].as_slice(), blob.as_slice()) {
                utf8_decode(payload.as_slice())
            } else {
                None
            };
            let ghost sv_src = crate::rust_facts::ident_view(source);
            assert(sv_src == reply_source(fields@[1]@, payload@));
            out.push(source);
            pos = e + size + 1;
            k = k + 1;
            proof {
                assert(output@.skip(pos as int) =~= output@.skip(e as int).skip(size + 1));
                assert(sources_view(out@) =~= before.push(sv_src));
                match batch_replies(output@.skip(pos as int), sv.skip(k as int)) {
                    Ok(rest) => {
                        assert(before + (seq![sv_src] + rest) =~= sources_view(out@) + rest);
                    },
                    Err(_) => {},
                }
            }
        }
    }
    assert(sv.skip(k as int).len() == 0);
    assert(sources_view(out@) + Seq::<Option<Seq<char>>>::empty() =~= sources_view(out@));
    Ok(out)
}

} // verus!
