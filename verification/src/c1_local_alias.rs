//! Local aliases for the compact C1 evidence text: a `C1A` packet declares
//! repeated canonical JSON string literals once as `A<n> <literal>` lines
//! and refers to them as `@<n>` outside strings of a canonical `C1` body.
//! Expansion restores the canonical text exactly, within a byte bound.
use vstd::prelude::*;

use crate::diff_parse::first_index_of;
use crate::coordination_edges::leading_digits;
use crate::provider_snapshot_applicability::identity::json_string;
use crate::text::{
    all_digits, byte_len, chars_eq, chars_of, decimal, decimal_chars, extend_chars, extend_str, is_ascii_digit,
    parse_usize, parse_usize_chars, push_decimal, seq_less, slice_chars, string_of, utf8_width,
};

verus! {

/// The transport bound of a C1 text, in bytes.
pub const MAX_C1_BYTES: usize = 1048576;

/// Why a packet was refused.
#[derive(Debug, Clone, Eq, PartialEq)]
pub struct AliasError {
    message: String,
}

impl AliasError {
    pub closed spec fn spec_message(&self) -> Seq<char> {
        self.message@
    }

    fn new(message: Vec<char>) -> (e: AliasError)
        ensures
            e.spec_message() == message@,
    {
        AliasError { message: string_of(message.as_slice()) }
    }

    /// The refusal as it is displayed.
    pub fn to_string(&self) -> (s: String)
        ensures
            s@ == "C1 local aliases: "@ + self.spec_message(),
    {
        let mut m = chars_of("C1 local aliases: ");
        extend_str(&mut m, self.message.as_str());
        string_of(m.as_slice())
    }
}

/// What `serde_json::from_str::<String>` gives on a text: the decoded
/// string, or the text of its error.
pub uninterp spec fn json_string_value(raw: Seq<char>) -> Result<Seq<char>, Seq<char>>;

/// `serde_json::from_str::<String>`: the string a JSON string literal
/// denotes, or the parser's error message. Its result is named, not stated.
#[verifier::external_body]
fn decode_json_string(raw: &str) -> (r: Result<String, String>)
    ensures
        match r {
            Ok(v) => json_string_value(raw@) == Ok::<Seq<char>, Seq<char>>(v@),
            Err(e) => json_string_value(raw@) == Err::<Seq<char>, Seq<char>>(e@),
        },
{
    match serde_json::from_str::<String>(raw) {
        Ok(v) => Ok(v),
        Err(e) => Err(e.to_string()),
    }
}

proof fn lemma_byte_len_concat(a: Seq<char>, b: Seq<char>)
    ensures
        byte_len(a + b) == byte_len(a) + byte_len(b),
    decreases b.len(),
{
    if b.len() > 0 {
        lemma_byte_len_concat(a, b.drop_last());
        assert((a + b).drop_last() =~= a + b.drop_last());
        assert((a + b).last() == b.last());
    } else {
        assert(a + b =~= a);
    }
}

proof fn lemma_byte_len_parts(s: Seq<char>, c: int, i: int)
    requires
        0 <= c <= i <= s.len(),
    ensures
        byte_len(s.subrange(c, i)) <= byte_len(s.take(i)),
        byte_len(s.take(i)) <= byte_len(s),
{
    lemma_byte_len_concat(s.take(c), s.subrange(c, i));
    assert(s.take(c) + s.subrange(c, i) =~= s.take(i));
    lemma_byte_len_concat(s.take(i), s.skip(i));
    assert(s.take(i) + s.skip(i) =~= s);
}

fn char_width(c: char) -> (w: usize)
    ensures
        w == utf8_width(c),
{
    let u = c as u32;
    if u < 0x80 {
        1
    } else if u < 0x800 {
        2
    } else if u < 0x10000 {
        3
    } else {
        4
    }
}

/// `current + additional`, refused when it overflows.
pub fn checked_expanded_len(current: usize, additional: usize) -> (r: Result<usize, AliasError>)
    ensures
        current + additional <= usize::MAX ==> r == Ok::<usize, AliasError>(
            (current + additional) as usize,
        ),
        current + additional > usize::MAX ==> (r matches Err(e) && e.spec_message()
            == "expanded canonical C1 byte count overflow"@),
{
    match current.checked_add(additional) {
        Some(n) => Ok(n),
        None => Err(AliasError::new(chars_of("expanded canonical C1 byte count overflow"))),
    }
}

pub open spec fn over_limit() -> Seq<char> {
    "expanded canonical C1 exceeds the "@ + decimal(MAX_C1_BYTES as nat) + "-byte transport limit"@
}

/// Appending `v` to the output, within the byte bound.
pub open spec fn grow(out: Seq<char>, v: Seq<char>) -> Result<Seq<char>, Seq<char>> {
    if byte_len(out) + byte_len(v) > usize::MAX {
        Err("expanded canonical C1 byte count overflow"@)
    } else if byte_len(out) + byte_len(v) > MAX_C1_BYTES {
        Err(over_limit())
    } else {
        Ok(out + v)
    }
}

fn append_bounded(out: &mut Vec<char>, out_bytes: &mut usize, v: &[char], v_bytes: usize) -> (r:
    Result<(), AliasError>)
    requires
        *old(out_bytes) == byte_len(old(out)@),
        v_bytes == byte_len(v@),
    ensures
        match grow(old(out)@, v@) {
            Err(m) => r matches Err(e) && e.spec_message() == m,
            Ok(o) => r is Ok && final(out)@ == o && *final(out_bytes) == byte_len(o)
                && *final(out_bytes) <= MAX_C1_BYTES,
        },
{
    let next = checked_expanded_len(*out_bytes, v_bytes)?;
    if next > MAX_C1_BYTES {
        let mut m = chars_of("expanded canonical C1 exceeds the ");
        push_decimal(&mut m, MAX_C1_BYTES);
        extend_str(&mut m, "-byte transport limit");
        return Err(AliasError::new(m));
    }
    proof {
        lemma_byte_len_concat(out@, v@);
    }
    extend_chars(out, v);
    *out_bytes = next;
    Ok(())
}

// ---------------------------------------------------------------------------
// The body.

pub open spec fn unterminated_body() -> Seq<char> {
    "unterminated JSON string in alias body"@
}

/// Expands the body from position `i`: text since `cursor` is pending,
/// `in_string` and `escaped` track JSON strings, where `@` is literal.
pub open spec fn expand_from(
    b: Seq<char>,
    aliases: Seq<Seq<char>>,
    i: int,
    cursor: int,
    in_string: bool,
    escaped: bool,
    out: Seq<char>,
) -> Result<Seq<char>, Seq<char>>
    decreases b.len() - i,
{
    if i < 0 || i >= b.len() {
        if in_string {
            Err(unterminated_body())
        } else {
            grow(out, b.subrange(cursor, b.len() as int))
        }
    } else if in_string {
        if escaped {
            expand_from(b, aliases, i + 1, cursor, true, false, out)
        } else if b[i] == '\\' {
            expand_from(b, aliases, i + 1, cursor, true, true, out)
        } else if b[i] == '"' {
            expand_from(b, aliases, i + 1, cursor, false, false, out)
        } else {
            expand_from(b, aliases, i + 1, cursor, true, false, out)
        }
    } else if b[i] == '"' {
        expand_from(b, aliases, i + 1, cursor, true, false, out)
    } else if b[i] != '@' {
        expand_from(b, aliases, i + 1, cursor, false, false, out)
    } else {
        match grow(out, b.subrange(cursor, i)) {
            Err(e) => Err(e),
            Ok(o1) => {
                let d = leading_digits(b.skip(i + 1));
                if d == 0 {
                    Err("malformed alias reference at byte "@ + decimal(byte_len(b.take(i))))
                } else {
                    let text = b.subrange(i + 1, i + 1 + d);
                    match parse_usize(text) {
                        None => Err("invalid alias reference `@"@ + text + "`"@),
                        Some(id) => if id < 1 || id > aliases.len() {
                            Err("unknown alias reference `@"@ + decimal(id as nat) + "`"@)
                        } else {
                            match grow(o1, aliases[id - 1]) {
                                Err(e) => Err(e),
                                Ok(o2) => {
                                    proof {
                                        crate::coordination_edges::lemma_leading_digits_bound(
                                            b.skip(i + 1),
                                        );
                                    }
                                    expand_from(
                                    b,
                                    aliases,
                                    i + 1 + d,
                                    i + 1 + d,
                                    false,
                                    false,
                                    o2,
                                )
                                },
                            }
                        },
                    }
                }
            },
        }
    }
}

/// A body must start with the canonical header; every `@<n>` outside
/// strings is replaced by alias `n` (numbered from one).
pub open spec fn body_expansion(b: Seq<char>, aliases: Seq<Seq<char>>) -> Result<
    Seq<char>,
    Seq<char>,
> {
    if !("C1\n"@.is_prefix_of(b)) {
        Err("alias body must begin with canonical `C1` header"@)
    } else {
        expand_from(b, aliases, 0, 0, false, false, Seq::empty())
    }
}

proof fn lemma_digits_prefix(s: Seq<char>, d: int)
    requires
        d == leading_digits(s),
    ensures
        0 <= d <= s.len(),
        all_digits(s.take(d)),
        d < s.len() ==> !is_ascii_digit(s[d]),
    decreases s.len(),
{
    if s.len() > 0 && is_ascii_digit(s[0]) {
        lemma_digits_prefix(s.drop_first(), d - 1);
        assert forall|j: int| 0 <= j < d implies is_ascii_digit(#[trigger] s.take(d)[j]) by {
            if j > 0 {
                assert(s.take(d)[j] == s.drop_first().take(d - 1)[j - 1]);
            }
        }
    }
}

fn str_bytes(s: &str) -> (n: usize)
    ensures
        n == byte_len(s@),
{
    proof {
        crate::text::lemma_str_len_is_byte_len(s@);
    }
    s.as_bytes().len()
}

/// Expands the `@<n>` references of a canonical body.
pub fn expand_body(body: &str, aliases: &Vec<String>) -> (r: Result<String, AliasError>)
    ensures
        match body_expansion(body@, crate::validate::strings_view(aliases@)) {
            Err(m) => r matches Err(e) && e.spec_message() == m,
            Ok(t) => r matches Ok(s) && s@ == t,
        },
{
    let b = chars_of(body);
    let header = chars_of("C1\n");
    if !crate::text::starts_with(b.as_slice(), header.as_slice()) {
        return Err(AliasError::new(chars_of("alias body must begin with canonical `C1` header")));
    }
    let ghost al = crate::validate::strings_view(aliases@);
    let total = str_bytes(body);
    let mut out: Vec<char> = Vec::new();
    let mut out_bytes: usize = 0;
    let mut cursor: usize = 0;
    let mut i: usize = 0;
    let mut pos_bytes: usize = 0;
    let mut seg_bytes: usize = 0;
    let mut in_string = false;
    let mut escaped = false;
    assert(b@.take(0) =~= Seq::<char>::empty());
    assert(b@.subrange(0, 0) =~= Seq::<char>::empty());
    while i < b.len()
        invariant
            b@ == body@,
            al == crate::validate::strings_view(aliases@),
            total == byte_len(b@),
            cursor <= i <= b@.len(),
            body_expansion(b@, al) == expand_from(
                b@,
                al,
                i as int,
                cursor as int,
                in_string,
                escaped,
                out@,
            ),
            out_bytes == byte_len(out@),
            pos_bytes == byte_len(b@.take(i as int)),
            seg_bytes == byte_len(b@.subrange(cursor as int, i as int)),
            !in_string ==> !escaped,
        decreases b.len() - i,
    {
        let c = b[i];
        proof {
            lemma_byte_len_parts(b@, cursor as int, i + 1);
            assert(b@.take(i + 1).drop_last() =~= b@.take(i as int));
            assert(b@.subrange(cursor as int, i + 1).drop_last() =~= b@.subrange(
                cursor as int,
                i as int,
            ));
        }
        if in_string {
            if escaped {
                escaped = false;
            } else if c == '\\' {
                escaped = true;
            } else if c == '"' {
                in_string = false;
            }
            i = i + 1;
            pos_bytes = pos_bytes + char_width(c);
            seg_bytes = seg_bytes + char_width(c);
        } else if c == '"' {
            in_string = true;
            i = i + 1;
            pos_bytes = pos_bytes + char_width(c);
            seg_bytes = seg_bytes + char_width(c);
        } else if c != '@' {
            i = i + 1;
            pos_bytes = pos_bytes + char_width(c);
            seg_bytes = seg_bytes + char_width(c);
        } else {
            let seg = slice_chars(b.as_slice(), cursor, i);
            append_bounded(&mut out, &mut out_bytes, seg.as_slice(), seg_bytes)?;
            let token_start = pos_bytes;
            let n = b.len();
            let after = slice_chars(b.as_slice(), i + 1, n);
            assert(after@ =~= b@.skip(i + 1));
            let d = crate::coordination_edges::leading_digits_exec(after.as_slice());
            proof {
                lemma_digits_prefix(after@, d as int);
            }
            if d == 0 {
                let mut m = chars_of("malformed alias reference at byte ");
                push_decimal(&mut m, token_start);
                return Err(AliasError::new(m));
            }
            let text = slice_chars(b.as_slice(), i + 1, i + 1 + d);
            assert(text@ =~= after@.take(d as int));
            let id = match parse_usize_chars(text.as_slice()) {
                None => {
                    let mut m = chars_of("invalid alias reference `@");
                    extend_chars(&mut m, text.as_slice());
                    extend_str(&mut m, "`");
                    return Err(AliasError::new(m));
                },
                Some(id) => id,
            };
            if id < 1 || id > aliases.len() {
                let mut m = chars_of("unknown alias reference `@");
                push_decimal(&mut m, id);
                extend_str(&mut m, "`");
                return Err(AliasError::new(m));
            }
            let literal = chars_of(aliases[id - 1].as_str());
            assert(literal@ == al[id - 1]);
            let literal_bytes = str_bytes(aliases[id - 1].as_str());
            append_bounded(&mut out, &mut out_bytes, literal.as_slice(), literal_bytes)?;
            proof {
                lemma_byte_len_concat(b@.take(i as int), b@.subrange(i as int, i + 1 + d));
                assert(b@.take(i as int) + b@.subrange(i as int, i + 1 + d) =~= b@.take(i + 1 + d));
                lemma_byte_len_parts(b@, i + 1 + d, i + 1 + d);
                assert(b@.subrange(i + 1 + d, i + 1 + d) =~= Seq::<char>::empty());
            }
            let end = i + 1 + d;
            let mut k: usize = i;
            let mut width_sum: usize = 0;
            while k < end
                invariant
                    end == i + 1 + d,
                    i <= k <= i + 1 + d <= b@.len(),
                    total == byte_len(b@),
                    width_sum == byte_len(b@.subrange(i as int, k as int)),
                    pos_bytes == byte_len(b@.take(i as int)),
                decreases end - k,
            {
                proof {
                    lemma_byte_len_parts(b@, i as int, k + 1);
                    assert(b@.subrange(i as int, k + 1).drop_last() =~= b@.subrange(i as int, k as int));
                    lemma_byte_len_concat(b@.take(i as int), b@.subrange(i as int, k + 1));
                    assert(b@.take(i as int) + b@.subrange(i as int, k + 1) =~= b@.take(k + 1));
                }
                width_sum = width_sum + char_width(b[k]);
                k = k + 1;
            }
            pos_bytes = pos_bytes + width_sum;
            i = i + 1 + d;
            cursor = i;
            seg_bytes = 0;
        }
    }
    if in_string {
        return Err(AliasError::new(chars_of("unterminated JSON string in alias body")));
    }
    let n = b.len();
    let rest = slice_chars(b.as_slice(), cursor, n);
    append_bounded(&mut out, &mut out_bytes, rest.as_slice(), seg_bytes)?;
    Ok(string_of(out.as_slice()))
}

// ---------------------------------------------------------------------------
// The packet.

pub open spec fn malformed_definition(line: Seq<char>) -> Seq<char> {
    "malformed alias definition `"@ + line + "`"@
}

/// An alias definition `A<n> <literal>`: a positive decimal id and a
/// literal that is a JSON string in its canonical encoding.
#[verifier::opaque]
pub open spec fn alias_definition(line: Seq<char>) -> Result<(usize, Seq<char>), Seq<char>> {
    if !(line.len() > 0 && line[0] == 'A') {
        Err(malformed_definition(line))
    } else {
        let rest = line.drop_first();
        match first_index_of(rest, ' ') {
            None => Err(malformed_definition(line)),
            Some(k) => {
                let id_text = rest.take(k);
                let raw = rest.skip(k + 1);
                if id_text.len() == 0 || !all_digits(id_text) || parse_usize(id_text) is None {
                    Err("invalid alias id `"@ + id_text + "`"@)
                } else if parse_usize(id_text) == Some(0usize) {
                    Err("alias ids start at A1"@)
                } else {
                    match json_string_value(raw) {
                        Err(e) => Err("invalid alias JSON string: "@ + e),
                        Ok(v) => if json_string(v) != raw {
                            Err("alias literal must use canonical JSON encoding"@)
                        } else {
                            Ok((parse_usize(id_text).unwrap(), raw))
                        },
                    }
                }
            },
        }
    }
}

fn find_char(s: &[char], c: char) -> (r: Option<usize>)
    ensures
        match r {
            Some(k) => first_index_of(s@, c) == Some(k as int) && k < s@.len(),
            None => first_index_of(s@, c) is None,
        },
{
    let mut i: usize = 0;
    while i < s.len()
        invariant
            i <= s@.len(),
            forall|j: int| 0 <= j < i ==> s@[j] != c,
        decreases s.len() - i,
    {
        if s[i] == c {
            proof {
                let k = choose|k: int|
                    0 <= k < s@.len() && s@[k] == c && forall|j: int| 0 <= j < k ==> s@[j] != c;
                if k > i {
                    assert(s@[i as int] == c);
                }
            }
            return Some(i);
        }
        i = i + 1;
    }
    None
}

/// Reads one alias definition line.
pub fn parse_alias_definition(line: &str) -> (r: Result<(usize, String), AliasError>)
    ensures
        match alias_definition(line@) {
            Err(m) => r matches Err(e) && e.spec_message() == m,
            Ok((id, raw)) => r matches Ok((i, s)) && i == id && s@ == raw,
        },
{
    reveal(alias_definition);
    let cs = chars_of(line);
    if !(cs.len() > 0 && cs[0] == 'A') {
        let mut m = chars_of("malformed alias definition `");
        extend_str(&mut m, line);
        extend_str(&mut m, "`");
        return Err(AliasError::new(m));
    }
    let n = cs.len();
    let rest = slice_chars(cs.as_slice(), 1, n);
    assert(rest@ =~= line@.drop_first());
    let k = match find_char(rest.as_slice(), ' ') {
        None => {
            let mut m = chars_of("malformed alias definition `");
            extend_str(&mut m, line);
            extend_str(&mut m, "`");
            return Err(AliasError::new(m));
        },
        Some(k) => k,
    };
    let rn = rest.len();
    let id_text = slice_chars(rest.as_slice(), 0, k);
    let raw = slice_chars(rest.as_slice(), k + 1, rn);
    assert(id_text@ =~= rest@.take(k as int));
    assert(raw@ =~= rest@.skip(k + 1));
    let mut digits_only = id_text.len() > 0;
    let mut j: usize = 0;
    while j < id_text.len()
        invariant
            j <= id_text@.len(),
            digits_only == (id_text@.len() > 0 && forall|q: int|
                0 <= q < j ==> is_ascii_digit(#[trigger] id_text@[q])),
        decreases id_text.len() - j,
    {
        if !crate::text::is_ascii_digit_exec(id_text[j]) {
            digits_only = false;
        }
        j = j + 1;
    }
    let parsed = if digits_only {
        parse_usize_chars(id_text.as_slice())
    } else {
        None
    };
    let id = match parsed {
        None => {
            let mut m = chars_of("invalid alias id `");
            extend_chars(&mut m, id_text.as_slice());
            extend_str(&mut m, "`");
            return Err(AliasError::new(m));
        },
        Some(id) => id,
    };
    if id == 0 {
        return Err(AliasError::new(chars_of("alias ids start at A1")));
    }
    let raw_s = string_of(raw.as_slice());
    let value = match decode_json_string(raw_s.as_str()) {
        Err(e) => {
            let mut m = chars_of("invalid alias JSON string: ");
            extend_str(&mut m, e.as_str());
            return Err(AliasError::new(m));
        },
        Ok(v) => v,
    };
    let vc = chars_of(value.as_str());
    let mut canonical: Vec<char> = Vec::new();
    crate::provider_snapshot_applicability::identity::push_json_string(&mut canonical, vc.as_slice());
    assert(canonical@ =~= json_string(value@));
    if !chars_eq(canonical.as_slice(), raw.as_slice()) {
        return Err(AliasError::new(chars_of("alias literal must use canonical JSON encoding")));
    }
    Ok((id, raw_s))
}

pub open spec fn missing_body() -> Seq<char> {
    "alias packet is missing canonical C1 body"@
}

/// The definitions of a packet from `rest` on, up to the `C1` line that
/// starts the body: ids must run 1, 2, ... and literals must be distinct.
pub open spec fn alias_defs(rest: Seq<char>, defs: Seq<Seq<char>>) -> Result<
    (Seq<Seq<char>>, Seq<char>),
    Seq<char>,
>
    decreases rest.len(),
{
    match first_index_of(rest, '\n') {
        None => Err(missing_body()),
        Some(k) => {
            let line = rest.take(k);
            if line == "C1"@ {
                Ok((defs, rest))
            } else {
                match alias_definition(line) {
                    Err(e) => Err(e),
                    Ok((id, raw)) => if id != defs.len() + 1 {
                        Err(
                            "alias A"@ + decimal(id as nat) + " is out of sequence; expected A"@
                                + decimal(defs.len() + 1),
                        )
                    } else if defs.contains(raw) {
                        Err("duplicate alias literal"@)
                    } else {
                        if 0 <= k < rest.len() {
                            alias_defs(rest.skip(k + 1), defs.push(raw))
                        } else {
                            Err(missing_body())
                        }
                    },
                }
            }
        },
    }
}

/// What `expand_c1_aliases` gives: a canonical `C1` text unchanged, else a
/// bounded `C1A` packet with at least one alias, expanded.
pub open spec fn c1_expansion(input: Seq<char>) -> Result<Seq<char>, Seq<char>> {
    if "C1\n"@.is_prefix_of(input) {
        Ok(input)
    } else if !("C1A\n"@.is_prefix_of(input)) {
        Err("input must begin with `C1` or the research `C1A` header"@)
    } else if byte_len(input) > MAX_C1_BYTES {
        Err("C1A input exceeds the "@ + decimal(MAX_C1_BYTES as nat) + "-byte transport limit"@)
    } else {
        match alias_defs(input.skip(4), Seq::empty()) {
            Err(e) => Err(e),
            Ok((defs, body)) => if defs.len() == 0 {
                Err("C1A packet must declare at least one alias"@)
            } else {
                body_expansion(body, defs)
            },
        }
    }
}

/// Reads the line at `offset` of a packet: the body's `C1` line (`None`),
/// or one more alias definition (the offset after it).
#[verifier::spinoff_prover]
#[verifier::rlimit(40)]
fn alias_line_step(cs: &Vec<char>, offset: usize, defs: &mut Vec<String>) -> (r: Result<
    Option<usize>,
    AliasError,
>)
    requires
        offset <= cs@.len(),
        old(defs)@.len() + 4 <= offset,
    ensures
        match r {
            Err(e) => alias_defs(cs@.skip(offset as int), crate::validate::strings_view(old(defs)@))
                == Err::<(Seq<Seq<char>>, Seq<char>), Seq<char>>(e.spec_message()),
            Ok(None) => alias_defs(cs@.skip(offset as int), crate::validate::strings_view(old(defs)@))
                == Ok::<(Seq<Seq<char>>, Seq<char>), Seq<char>>(
                (crate::validate::strings_view(old(defs)@), cs@.skip(offset as int)),
            ) && final(defs)@ == old(defs)@,
            Ok(Some(next)) => offset < next <= cs@.len() && final(defs)@.len() + 4 <= next && alias_defs(
                cs@.skip(offset as int),
                crate::validate::strings_view(old(defs)@),
            ) == alias_defs(cs@.skip(next as int), crate::validate::strings_view(final(defs)@)),
        },
{
    let n = cs.len();
    let rest = slice_chars(cs.as_slice(), offset, n);
    assert(rest@ =~= cs@.skip(offset as int));
    let k = match find_char(rest.as_slice(), '\n') {
        None => return Err(AliasError::new(chars_of("alias packet is missing canonical C1 body"))),
        Some(k) => k,
    };
    let line = slice_chars(rest.as_slice(), 0, k);
    assert(line@ =~= rest@.take(k as int));
    let c1 = chars_of("C1");
    if chars_eq(line.as_slice(), c1.as_slice()) {
        return Ok(None);
    }
    let line_s = string_of(line.as_slice());
    let (id, raw) = parse_alias_definition(line_s.as_str())?;
    let expected = defs.len() + 1;
    if id != expected {
        let mut m = chars_of("alias A");
        push_decimal(&mut m, id);
        extend_str(&mut m, " is out of sequence; expected A");
        push_decimal(&mut m, expected);
        return Err(AliasError::new(m));
    }
    if crate::validate::contains_string(defs, raw.as_str()) {
        return Err(AliasError::new(chars_of("duplicate alias literal")));
    }
    let ghost before = crate::validate::strings_view(defs@);
    let ghost raw_v = raw@;
    defs.push(raw);
    assert(crate::validate::strings_view(defs@) =~= before.push(raw_v));
    assert(cs@.skip(offset as int).skip(k + 1) =~= cs@.skip(offset + k + 1));
    Ok(Some(offset + k + 1))
}

/// Restores the canonical C1 text of a `C1A` packet; canonical text passes
/// through unchanged.
pub fn expand_c1_aliases(input: &str) -> (r: Result<String, AliasError>)
    ensures
        match c1_expansion(input@) {
            Err(m) => r matches Err(e) && e.spec_message() == m,
            Ok(t) => r matches Ok(s) && s@ == t,
        },
{
    let cs = chars_of(input);
    let h1 = chars_of("C1\n");
    if crate::text::starts_with(cs.as_slice(), h1.as_slice()) {
        return Ok(crate::text::owned(input));
    }
    let h2 = chars_of("C1A\n");
    if !crate::text::starts_with(cs.as_slice(), h2.as_slice()) {
        return Err(
            AliasError::new(chars_of("input must begin with `C1` or the research `C1A` header")),
        );
    }
    proof {
        reveal_strlit("C1A\n");
    }
    if str_bytes(input) > MAX_C1_BYTES {
        let mut m = chars_of("C1A input exceeds the ");
        push_decimal(&mut m, MAX_C1_BYTES);
        extend_str(&mut m, "-byte transport limit");
        return Err(AliasError::new(m));
    }
    let mut offset: usize = 4;
    let mut defs: Vec<String> = Vec::new();
    let n = cs.len();
    assert(cs@.skip(4) =~= input@.skip(4));
    proof {
        assert(crate::validate::strings_view(defs@) =~= Seq::<Seq<char>>::empty());
    }
    let mut done = false;
    while !done
        invariant
            4 <= offset <= n,
            n == cs@.len(),
            cs@ == input@,
            defs@.len() + 4 <= offset,
            c1_expansion(input@) == match alias_defs(cs@.skip(offset as int), crate::validate::strings_view(defs@)) {
                Err(e) => Err(e),
                Ok((ds, body)) => if ds.len() == 0 {
                    Err("C1A packet must declare at least one alias"@)
                } else {
                    body_expansion(body, ds)
                },
            },
            done ==> alias_defs(cs@.skip(offset as int), crate::validate::strings_view(defs@))
                == Ok::<(Seq<Seq<char>>, Seq<char>), Seq<char>>(
                (crate::validate::strings_view(defs@), cs@.skip(offset as int)),
            ),
        decreases n - offset + if done {
            0int
        } else {
            1int
        },
    {
        match alias_line_step(&cs, offset, &mut defs) {
            Err(e) => return Err(e),
            Ok(None) => {
                done = true;
            },
            Ok(Some(next)) => {
                offset = next;
            },
        }
    }
    let body_offset = offset;
    if defs.len() == 0 {
        return Err(AliasError::new(chars_of("C1A packet must declare at least one alias")));
    }
    let body = slice_chars(cs.as_slice(), body_offset, n);
    assert(body@ =~= cs@.skip(body_offset as int));
    expand_body(string_of(body.as_slice()).as_str(), &defs)
}

// ---------------------------------------------------------------------------
// Choosing aliases for a canonical text.

/// Where the JSON string starting before `j` ends (one past its closing
/// quote), if it is closed.
pub open spec fn string_end(s: Seq<char>, j: int, escaped: bool) -> Option<int>
    decreases s.len() - j,
{
    if j < 0 || j >= s.len() {
        None
    } else if escaped {
        string_end(s, j + 1, false)
    } else if s[j] == '\\' {
        string_end(s, j + 1, true)
    } else if s[j] == '"' {
        Some(j + 1)
    } else {
        string_end(s, j + 1, false)
    }
}

pub proof fn lemma_string_end_after(s: Seq<char>, j: int, escaped: bool)
    ensures
        string_end(s, j, escaped) matches Some(e) ==> j < e <= s.len(),
    decreases s.len() - j,
{
    if 0 <= j < s.len() {
        lemma_string_end_after(s, j + 1, false);
        lemma_string_end_after(s, j + 1, true);
    }
}

/// The spans of the JSON strings of `s` from `i` on, as character
/// positions; `None` when one is not closed.
pub open spec fn spans_from(s: Seq<char>, i: int) -> Option<Seq<(int, int)>>
    decreases s.len() - i,
{
    if i < 0 || i >= s.len() {
        Some(Seq::empty())
    } else if s[i] != '"' {
        spans_from(s, i + 1)
    } else {
        match string_end(s, i + 1, false) {
            None => None,
            Some(e) => {
                proof {
                    lemma_string_end_after(s, i + 1, false);
                }
                match spans_from(s, e) {
                    None => None,
                    Some(rest) => Some(seq![(i, e)] + rest),
                }
            },
        }
    }
}

/// The literal text of each span.
pub open spec fn literals(s: Seq<char>, spans: Seq<(int, int)>) -> Seq<Seq<char>> {
    spans.map_values(|sp: (int, int)| s.subrange(sp.0, sp.1))
}

pub open spec fn spans_int(v: Seq<(usize, usize)>) -> Seq<(int, int)> {
    v.map_values(|p: (usize, usize)| (p.0 as int, p.1 as int))
}

fn string_spans(s: &[char]) -> (r: Result<Vec<(usize, usize)>, AliasError>)
    ensures
        match spans_from(s@, 0) {
            None => r matches Err(e) && e.spec_message() == "unterminated JSON string in canonical C1"@,
            Some(sp) => r matches Ok(v) && spans_int(v@) == sp && (forall|k: int|
                0 <= k < sp.len() ==> (#[trigger] sp[k]).0 < sp[k].1 <= s@.len()) && (forall|k: int|
                0 < k < sp.len() ==> sp[k - 1].1 <= (#[trigger] sp[k]).0),
        },
{
    let mut out: Vec<(usize, usize)> = Vec::new();
    let ghost mut done: Seq<(int, int)> = Seq::empty();
    let mut i: usize = 0;
    while i < s.len()
        invariant
            i <= s@.len(),
            spans_from(s@, 0) == match spans_from(s@, i as int) {
                None => None,
                Some(rest) => Some(done + rest),
            },
            out@.len() == done.len(),
            forall|k: int|
                0 <= k < done.len() ==> (#[trigger] out@[k]).0 == done[k].0 && out@[k].1 == done[k].1
                    && done[k].0 < done[k].1 <= s@.len(),
            forall|k: int| 0 < k < done.len() ==> done[k - 1].1 <= (#[trigger] done[k]).0,
            done.len() > 0 ==> done.last().1 <= i,
        decreases s.len() - i,
    {
        if s[i] != '"' {
            i = i + 1;
            continue;
        }
        let start = i;
        let mut j = i + 1;
        let mut escaped = false;
        let mut closed = false;
        while j < s.len() && !closed
            invariant
                start < j <= s@.len(),
                s@[start as int] == '"',
                !closed ==> string_end(s@, start + 1, false) == string_end(s@, j as int, escaped),
                closed ==> string_end(s@, start + 1, false) == Some(j as int),
            decreases s.len() - j + if closed {
                0int
            } else {
                1int
            },
        {
            let c = s[j];
            if escaped {
                escaped = false;
            } else if c == '\\' {
                escaped = true;
            } else if c == '"' {
                closed = true;
            }
            j = j + 1;
        }
        if !closed {
            return Err(AliasError::new(chars_of("unterminated JSON string in canonical C1")));
        }
        proof {
            lemma_string_end_after(s@, start + 1, false);
            let tail = spans_from(s@, j as int);
            assert(spans_from(s@, start as int) == match tail {
                None => None,
                Some(rest) => Some(seq![(start as int, j as int)] + rest),
            });
            match tail {
                None => {},
                Some(rest) => {
                    assert(done + (seq![(start as int, j as int)] + rest) =~= done.push(
                        (start as int, j as int),
                    ) + rest);
                },
            }
            done = done.push((start as int, j as int));
        }
        out.push((start, j));
        i = j;
    }
    assert(done + Seq::<(int, int)>::empty() =~= done);
    assert(spans_int(out@) =~= done);
    Ok(out)
}

/// `alias_net_savings`: bytes saved by aliasing a literal of `literal_bytes`
/// bytes that occurs `occurrences` times as alias `id`: each occurrence
/// shrinks to `@<id>`, less the `A<id> <literal>\n` definition; only a
/// positive saving without overflow counts.
pub open spec fn net_savings(literal_bytes: nat, occurrences: nat, id: nat) -> Option<nat> {
    let digits = decimal(id).len();
    let token = 1 + digits;
    if literal_bytes <= token {
        None
    } else if occurrences * (literal_bytes - token) > usize::MAX {
        None
    } else if literal_bytes + digits + 3 > usize::MAX {
        None
    } else if occurrences * (literal_bytes - token) <= literal_bytes + digits + 3 {
        None
    } else {
        Some((occurrences * (literal_bytes - token) - (literal_bytes + digits + 3)) as nat)
    }
}

pub fn alias_net_savings(literal_bytes: usize, occurrences: usize, id: usize) -> (r: Option<usize>)
    ensures
        match net_savings(literal_bytes as nat, occurrences as nat, id as nat) {
            Some(n) => r == Some(n as usize),
            None => r is None,
        },
{
    let digits = decimal_chars(id).len();
    if digits > usize::MAX - 3 {
        return None;
    }
    let token = 1 + digits;
    if literal_bytes <= token {
        return None;
    }
    let replacement = match occurrences.checked_mul(literal_bytes - token) {
        Some(v) => v,
        None => return None,
    };
    let declaration = match literal_bytes.checked_add(digits + 3) {
        Some(v) => v,
        None => {
            return None;
        },
    };
    if replacement <= declaration {
        return None;
    }
    Some(replacement - declaration)
}

/// How often `x` occurs among the literals.
pub open spec fn count_of(lits: Seq<Seq<char>>, x: Seq<char>) -> nat {
    crate::validate::count_matching(lits, |y: Seq<char>| y == x)
}

/// A literal worth aliasing as the first alias: repeated, and saving bytes.
pub open spec fn is_candidate(lits: Seq<Seq<char>>, x: Seq<char>) -> bool {
    &&& lits.contains(x)
    &&& count_of(lits, x) >= 2
    &&& net_savings(byte_len(x), count_of(lits, x), 1) is Some
}

/// Larger preliminary savings first, then the smaller literal.
pub open spec fn cand_before(a: (Seq<char>, nat, nat), b: (Seq<char>, nat, nat)) -> bool {
    a.2 > b.2 || (a.2 == b.2 && seq_less(a.0, b.0))
}

/// `cands` lists every candidate once, with its occurrences and
/// preliminary saving, in candidate order.
pub open spec fn candidate_order(lits: Seq<Seq<char>>, cands: Seq<(Seq<char>, nat, nat)>) -> bool {
    &&& forall|k: int|
        0 <= k < cands.len() ==> is_candidate(lits, (#[trigger] cands[k]).0) && cands[k].1
            == count_of(lits, cands[k].0) && net_savings(byte_len(cands[k].0), cands[k].1, 1)
            == Some(cands[k].2)
    &&& forall|x: Seq<char>|
        #[trigger] is_candidate(lits, x) ==> exists|k: int| 0 <= k < cands.len() && cands[k].0 == x
    &&& forall|a: int, b: int|
        0 <= a < b < cands.len() ==> cand_before(#[trigger] cands[a], #[trigger] cands[b])
}

/// The candidates, in order, that still save bytes under the id they
/// would get.
pub open spec fn select(cands: Seq<(Seq<char>, nat, nat)>, sel: Seq<(Seq<char>, nat, nat)>) -> Seq<
    (Seq<char>, nat, nat),
>
    decreases cands.len(),
{
    if cands.len() == 0 {
        sel
    } else {
        let c = cands[0];
        match net_savings(byte_len(c.0), c.1, sel.len() + 1) {
            Some(n) => select(cands.drop_first(), sel.push((c.0, c.1, n))),
            None => select(cands.drop_first(), sel),
        }
    }
}

pub open spec fn position_of(raws: Seq<Seq<char>>, x: Seq<char>) -> int {
    choose|k: int| 0 <= k < raws.len() && raws[k] == x && forall|j: int| 0 <= j < k ==> raws[j] != x
}

/// The text with each selected literal replaced by `@<id>`.
pub open spec fn rewrite(
    s: Seq<char>,
    spans: Seq<(int, int)>,
    raws: Seq<Seq<char>>,
    j: int,
    cursor: int,
) -> Seq<char>
    decreases spans.len() - j,
{
    if j < 0 || j >= spans.len() {
        s.subrange(cursor, s.len() as int)
    } else {
        let lit = s.subrange(spans[j].0, spans[j].1);
        s.subrange(cursor, spans[j].0) + (if raws.contains(lit) {
            seq!['@'] + decimal((position_of(raws, lit) + 1) as nat)
        } else {
            lit
        }) + rewrite(s, spans, raws, j + 1, spans[j].1)
    }
}

/// The alias definition lines from the `k`-th alias on.
pub open spec fn header_from(raws: Seq<Seq<char>>, k: int) -> Seq<char>
    decreases raws.len() - k,
{
    if k < 0 || k >= raws.len() {
        Seq::empty()
    } else {
        "A"@ + decimal((k + 1) as nat) + " "@ + raws[k] + "\n"@ + header_from(raws, k + 1)
    }
}

/// The alias entries from the `k`-th on: id, decoded value, occurrences and
/// net saving; the first literal that does not decode refuses them all.
pub open spec fn decode_from(sel: Seq<(Seq<char>, nat, nat)>, k: int) -> Result<
    Seq<(nat, Seq<char>, nat, nat)>,
    Seq<char>,
>
    decreases sel.len() - k,
{
    if k < 0 || k >= sel.len() {
        Ok(Seq::empty())
    } else {
        match json_string_value(sel[k].0) {
            Err(e) => Err("invalid canonical C1 string literal: "@ + e),
            Ok(v) => match decode_from(sel, k + 1) {
                Err(e) => Err(e),
                Ok(rest) => Ok(seq![((k + 1) as nat, v, sel[k].1, sel[k].2)] + rest),
            },
        }
    }
}

#[derive(Debug, Clone, Eq, PartialEq)]
pub struct AliasEntry {
    pub id: usize,
    pub value: String,
    pub occurrences: usize,
    pub net_bytes_saved: usize,
}

#[derive(Debug, Clone, Eq, PartialEq)]
pub struct AliasTransform {
    pub encoded: String,
    pub aliases: Vec<AliasEntry>,
    pub canonical_bytes: usize,
    pub encoded_bytes: usize,
}

pub struct TransformView {
    pub encoded: Seq<char>,
    pub aliases: Seq<(nat, Seq<char>, nat, nat)>,
    pub canonical_bytes: nat,
    pub encoded_bytes: nat,
}

impl View for AliasTransform {
    type V = TransformView;

    open spec fn view(&self) -> TransformView {
        TransformView {
            encoded: self.encoded@,
            aliases: self.aliases@.map_values(
                |e: AliasEntry| (e.id as nat, e.value@, e.occurrences as nat, e.net_bytes_saved as nat),
            ),
            canonical_bytes: self.canonical_bytes as nat,
            encoded_bytes: self.encoded_bytes as nat,
        }
    }
}

impl AliasTransform {
    /// Whether any alias was chosen.
    pub fn used_aliases(&self) -> (r: bool)
        ensures
            r == (self@.aliases.len() > 0),
    {
        self.aliases.len() > 0
    }
}

/// The input unchanged, without aliases.
pub open spec fn plain(s: Seq<char>) -> TransformView {
    TransformView {
        encoded: s,
        aliases: Seq::empty(),
        canonical_bytes: byte_len(s),
        encoded_bytes: byte_len(s),
    }
}

fn plain_transform(input: &str) -> (t: AliasTransform)
    ensures
        t@ == plain(input@),
{
    let n = str_bytes(input);
    let t = AliasTransform {
        encoded: crate::text::owned(input),
        aliases: Vec::new(),
        canonical_bytes: n,
        encoded_bytes: n,
    };
    assert(t@.aliases =~= Seq::<(nat, Seq<char>, nat, nat)>::empty());
    t
}

/// The transform of a text with its spans and candidate order: the
/// selected aliases, or the plain text when none is selected or the packet
/// would not be shorter.
pub open spec fn transform_with(
    s: Seq<char>,
    spans: Seq<(int, int)>,
    cands: Seq<(Seq<char>, nat, nat)>,
) -> Result<TransformView, Seq<char>> {
    let sel = select(cands, Seq::empty());
    if sel.len() == 0 {
        Ok(plain(s))
    } else {
        let raws = sel.map_values(|c: (Seq<char>, nat, nat)| c.0);
        let encoded = "C1A\n"@ + header_from(raws, 0) + rewrite(s, spans, raws, 0, 0);
        if byte_len(encoded) >= byte_len(s) {
            Ok(plain(s))
        } else {
            match decode_from(sel, 0) {
                Err(e) => Err(e),
                Ok(entries) => Ok(
                    TransformView {
                        encoded,
                        aliases: entries,
                        canonical_bytes: byte_len(s),
                        encoded_bytes: byte_len(encoded),
                    },
                ),
            }
        }
    }
}

proof fn lemma_cand_order(a: (Seq<char>, nat, nat), b: (Seq<char>, nat, nat), c: (Seq<char>, nat, nat))
    ensures
        a.0 != b.0 ==> cand_before(a, b) || cand_before(b, a),
        !(cand_before(a, b) && cand_before(b, a)),
        !cand_before(a, a),
        cand_before(a, b) && cand_before(b, c) ==> cand_before(a, c),
{
    crate::text::lemma_seq_less_total(a.0, b.0);
    crate::text::lemma_seq_less_irreflexive(a.0);
    if cand_before(a, b) && cand_before(b, c) && a.2 == b.2 && b.2 == c.2 {
        crate::text::lemma_seq_less_transitive(a.0, b.0, c.0);
    }
}

pub open spec fn cands_view(v: Seq<(Vec<char>, usize, usize)>) -> Seq<(Seq<char>, nat, nat)> {
    v.map_values(|c: (Vec<char>, usize, usize)| (c.0@, c.1 as nat, c.2 as nat))
}

fn before_exec(a: &(Vec<char>, usize, usize), b: &(Vec<char>, usize, usize)) -> (r: bool)
    ensures
        r == cand_before((a.0@, a.1 as nat, a.2 as nat), (b.0@, b.1 as nat, b.2 as nat)),
{
    a.2 > b.2 || (a.2 == b.2 && crate::text::chars_less(a.0.as_slice(), b.0.as_slice()))
}

/// Inserts a candidate whose literal is new into a list in candidate order.
fn insert_candidate(v: &mut Vec<(Vec<char>, usize, usize)>, c: (Vec<char>, usize, usize))
    requires
        forall|a: int, b: int|
            0 <= a < b < old(v)@.len() ==> cand_before(
                #[trigger] cands_view(old(v)@)[a],
                #[trigger] cands_view(old(v)@)[b],
            ),
        forall|k: int| 0 <= k < old(v)@.len() ==> (#[trigger] old(v)@[k]).0@ != c.0@,
    ensures
        forall|a: int, b: int|
            0 <= a < b < final(v)@.len() ==> cand_before(
                #[trigger] cands_view(final(v)@)[a],
                #[trigger] cands_view(final(v)@)[b],
            ),
        exists|i: int|
            0 <= i <= old(v)@.len() && cands_view(final(v)@) == cands_view(old(v)@).insert(
                i,
                (c.0@, c.1 as nat, c.2 as nat),
            ),
{
    let ghost s = cands_view(v@);
    let ghost cv = (c.0@, c.1 as nat, c.2 as nat);
    let mut i: usize = 0;
    let mut stop = false;
    while i < v.len() && !stop
        invariant
            i <= v@.len(),
            s == cands_view(v@),
            cv == (c.0@, c.1 as nat, c.2 as nat),
            forall|k: int| 0 <= k < i ==> cand_before(#[trigger] s[k], cv),
            stop ==> i < v@.len() && !cand_before(s[i as int], cv),
        decreases v.len() - i + if stop {
            0int
        } else {
            1int
        },
    {
        if !before_exec(&v[i], &c) {
            stop = true;
        } else {
            i = i + 1;
        }
    }
    proof {
        if i < s.len() {
            assert(s[i as int].0 == v@[i as int].0@);
            lemma_cand_order(s[i as int], cv, cv);
        }
    }
    v.insert(i, c);
    let ghost t = cands_view(v@);
    assert(t =~= s.insert(i as int, cv));
    assert forall|a: int, b: int| 0 <= a < b < t.len() implies cand_before(
        #[trigger] t[a],
        #[trigger] t[b],
    ) by {
        if b < i {
            assert(t[a] == s[a] && t[b] == s[b]);
        } else if b == i {
            assert(t[a] == s[a]);
        } else if a == i {
            assert(t[b] == s[b - 1]);
            if b - 1 > i {
                lemma_cand_order(cv, s[i as int], s[b - 1]);
            }
        } else if a < i {
            assert(t[a] == s[a] && t[b] == s[b - 1]);
        } else {
            assert(t[a] == s[a - 1] && t[b] == s[b - 1]);
        }
    }
}

fn find_chars(vs: &Vec<Vec<char>>, x: &[char]) -> (r: Option<usize>)
    ensures
        match r {
            Some(k) => k < vs@.len() && vs@[k as int]@ == x@ && forall|j: int|
                0 <= j < k ==> vs@[j]@ != x@,
            None => forall|j: int| 0 <= j < vs@.len() ==> (#[trigger] vs@[j])@ != x@,
        },
{
    let mut i: usize = 0;
    while i < vs.len()
        invariant
            i <= vs@.len(),
            forall|j: int| 0 <= j < i ==> (#[trigger] vs@[j])@ != x@,
        decreases vs.len() - i,
    {
        if chars_eq(vs[i].as_slice(), x) {
            return Some(i);
        }
        i = i + 1;
    }
    None
}

/// The distinct literals in order of first appearance, with how often each
/// occurs.
fn distinct_literals(lits: &Vec<Vec<char>>) -> (r: (Vec<Vec<char>>, Vec<usize>))
    ensures
        r.0@.len() == r.1@.len(),
        forall|a: int, b: int| 0 <= a < b < r.0@.len() ==> (#[trigger] r.0@[a])@ != (#[trigger] r.0@[b])@,
        forall|k: int|
            0 <= k < r.0@.len() ==> crate::text::seqs_view(lits@).contains((#[trigger] r.0@[k])@)
                && r.1@[k] == count_of(crate::text::seqs_view(lits@), r.0@[k]@),
        forall|x: Seq<char>|
            #[trigger] crate::text::seqs_view(lits@).contains(x) ==> crate::text::seqs_view(r.0@).contains(x),
{
    let ghost ls = crate::text::seqs_view(lits@);
    let mut raws: Vec<Vec<char>> = Vec::new();
    let mut counts: Vec<usize> = Vec::new();
    let mut j: usize = 0;
    while j < lits.len()
        invariant
            j <= lits@.len(),
            ls == crate::text::seqs_view(lits@),
            raws@.len() == counts@.len(),
            raws@.len() <= j,
            forall|a: int, b: int| 0 <= a < b < raws@.len() ==> (#[trigger] raws@[a])@ != (#[trigger] raws@[b])@,
            forall|k: int|
                0 <= k < raws@.len() ==> ls.take(j as int).contains((#[trigger] raws@[k])@)
                    && counts@[k] == count_of(ls.take(j as int), raws@[k]@),
            forall|x: Seq<char>|
                #[trigger] ls.take(j as int).contains(x) ==> exists|k: int|
                    0 <= k < raws@.len() && raws@[k]@ == x,
        decreases lits.len() - j,
    {
        let x = &lits[j];
        let ghost xv = x@;
        assert(ls[j as int] == xv);
        let ghost t0 = ls.take(j as int);
        let ghost t1 = ls.take(j + 1);
        assert(t1 =~= t0.push(xv));
        proof {
            assert forall|y: Seq<char>| true implies count_of(t1, y) == count_of(t0, y) + if xv == y {
                1nat
            } else {
                0nat
            } by {
                crate::validate::lemma_count_matching_step(ls, j as int, |z: Seq<char>| z == y);
            }
            crate::validate::lemma_count_matching_bound(t0, |z: Seq<char>| z == xv);
        }
        match find_chars(&raws, x.as_slice()) {
            Some(k) => {
                let c = counts[k];
                proof {
                    lemma_count_of_bound(t0, xv);
                    assert(t0.len() == j);
                    assert(raws@[k as int]@ == xv);
                    assert(c == count_of(t0, xv));
                    assert(c as int <= j);
                }
                counts.set(k, c + 1);
                assert forall|y: Seq<char>| #[trigger] t1.contains(y) implies exists|q: int|
                    0 <= q < raws@.len() && raws@[q]@ == y by {
                    if y != xv {
                        let p = choose|p: int| 0 <= p < t1.len() && t1[p] == y;
                        assert(p < t0.len());
                        assert(t0[p] == y);
                        assert(t0.contains(y));
                    }
                }
                assert forall|q: int| 0 <= q < raws@.len() implies t1.contains((#[trigger] raws@[q])@) by {
                    let p = choose|p: int| 0 <= p < t0.len() && t0[p] == raws@[q]@;
                    assert(t1[p] == t0[p]);
                }
            },
            None => {
                proof {
                    if t0.contains(xv) {
                        let q = choose|q: int| 0 <= q < raws@.len() && raws@[q]@ == xv;
                        assert(raws@[q]@ != xv);
                    }
                    crate::validate::lemma_count_matching_bound(t0, |z: Seq<char>| z == xv);
                    if count_of(t0, xv) > 0 {
                        lemma_count_positive_contains(t0, xv);
                    }
                }
                let copy = slice_chars(x.as_slice(), 0, x.len());
                assert(copy@ =~= xv);
                let ghost old_raws = raws@;
                raws.push(copy);
                counts.push(1);
                assert forall|y: Seq<char>| #[trigger] t1.contains(y) implies exists|q: int|
                    0 <= q < raws@.len() && raws@[q]@ == y by {
                    if y == xv {
                        assert(raws@[raws@.len() - 1]@ == xv);
                    } else {
                        let p = choose|p: int| 0 <= p < t1.len() && t1[p] == y;
                        assert(p < t0.len());
                        assert(t0[p] == y);
                        assert(t0.contains(y));
                        let q = choose|q: int| 0 <= q < old_raws.len() && old_raws[q]@ == y;
                        assert(raws@[q] == old_raws[q]);
                    }
                }
                assert forall|q: int| 0 <= q < raws@.len() implies t1.contains((#[trigger] raws@[q])@) by {
                    if q == raws@.len() - 1 {
                        assert(t1[j as int] == xv);
                    } else {
                        let p = choose|p: int| 0 <= p < t0.len() && t0[p] == raws@[q]@;
                        assert(t1[p] == t0[p]);
                    }
                }
            },
        }
        j = j + 1;
    }
    assert(ls.take(j as int) =~= ls);
    assert forall|x: Seq<char>| #[trigger] crate::text::seqs_view(lits@).contains(x) implies crate::text::seqs_view(raws@).contains(x) by {
        assert(ls.take(j as int).contains(x));
        let k = choose|k: int| 0 <= k < raws@.len() && raws@[k]@ == x;
        assert(crate::text::seqs_view(raws@)[k] == x);
    }
    assert forall|k: int| 0 <= k < raws@.len() implies ls.contains((#[trigger] raws@[k])@) && counts@[k]
        == count_of(ls, raws@[k]@) by {
        assert(ls.take(j as int).contains(raws@[k]@));
    }
    (raws, counts)
}

proof fn lemma_count_of_bound(s: Seq<Seq<char>>, x: Seq<char>)
    ensures
        count_of(s, x) <= s.len(),
    decreases s.len(),
{
    if s.len() > 0 {
        lemma_count_of_bound(s.drop_last(), x);
    }
}

proof fn lemma_count_positive_contains(s: Seq<Seq<char>>, x: Seq<char>)
    requires
        count_of(s, x) > 0,
    ensures
        s.contains(x),
    decreases s.len(),
{
    if s.len() > 0 {
        if s.last() == x {
            assert(s[s.len() - 1] == x);
        } else {
            lemma_count_positive_contains(s.drop_last(), x);
            let p = choose|p: int| 0 <= p < s.drop_last().len() && s.drop_last()[p] == x;
            assert(s[p] == x);
        }
    }
}

fn chars_bytes(cs: &[char]) -> (n: usize)
    ensures
        n == byte_len(cs@),
{
    let s = string_of(cs);
    str_bytes(s.as_str())
}

pub open spec fn cand_ok(ls: Seq<Seq<char>>, c: (Seq<char>, nat, nat)) -> bool {
    &&& is_candidate(ls, c.0)
    &&& c.1 == count_of(ls, c.0)
    &&& net_savings(byte_len(c.0), c.1, 1) == Some(c.2)
}

/// Every candidate literal once, in candidate order.
#[verifier::spinoff_prover]
#[verifier::rlimit(60)]
fn ordered_candidates(lits: &Vec<Vec<char>>) -> (r: Vec<(Vec<char>, usize, usize)>)
    ensures
        candidate_order(crate::text::seqs_view(lits@), cands_view(r@)),
{
    let ghost ls = crate::text::seqs_view(lits@);
    let (raws, counts) = distinct_literals(lits);
    let mut cands: Vec<(Vec<char>, usize, usize)> = Vec::new();
    let mut m: usize = 0;
    while m < raws.len()
        invariant
            m <= raws@.len(),
            raws@.len() == counts@.len(),
            ls == crate::text::seqs_view(lits@),
            forall|a: int, b: int| 0 <= a < b < raws@.len() ==> (#[trigger] raws@[a])@ != (#[trigger] raws@[b])@,
            forall|k: int|
                0 <= k < raws@.len() ==> ls.contains((#[trigger] raws@[k])@) && counts@[k]
                    == count_of(ls, raws@[k]@),
            forall|a: int, b: int|
                0 <= a < b < cands@.len() ==> cand_before(
                    #[trigger] cands_view(cands@)[a],
                    #[trigger] cands_view(cands@)[b],
                ),
            forall|k: int|
                0 <= k < cands@.len() ==> cand_ok(ls, #[trigger] cands_view(cands@)[k])
                    && exists|q: int| 0 <= q < m && raws@[q]@ == cands_view(cands@)[k].0,
            forall|q: int|
                0 <= q < m && is_candidate(ls, (#[trigger] raws@[q])@) ==> exists|k: int|
                    0 <= k < cands@.len() && cands_view(cands@)[k].0 == raws@[q]@,
        decreases raws.len() - m,
    {
        let occ = counts[m];
        let bytes = chars_bytes(raws[m].as_slice());
        if occ >= 2 {
            match alias_net_savings(bytes, occ, 1) {
                Some(pre) => {
                    let ghost before = cands_view(cands@);
                    let ghost rv = raws@[m as int]@;
                    proof {
                        assert forall|k: int| 0 <= k < cands@.len() implies (#[trigger] cands@[k]).0@ != rv by {
                            assert(cands_view(cands@)[k].0 == cands@[k].0@);
                            let q = choose|q: int| 0 <= q < m && raws@[q]@ == cands_view(cands@)[k].0;
                            assert(raws@[q]@ != raws@[m as int]@);
                        }
                    }
                    let copy = slice_chars(raws[m].as_slice(), 0, raws[m].len());
                    assert(copy@ =~= rv);
                    insert_candidate(&mut cands, (copy, occ, pre));
                    proof {
                        let cv = (rv, occ as nat, pre as nat);
                        let i = choose|i: int| 0 <= i <= before.len() && cands_view(cands@) == before.insert(i, cv);
                        let after = cands_view(cands@);
                        assert forall|k: int| 0 <= k < after.len() implies cand_ok(ls, #[trigger] after[k])
                            && exists|q: int| 0 <= q < m + 1 && raws@[q]@ == after[k].0 by {
                            if k < i {
                                assert(after[k] == before[k]);
                            } else if k == i {
                                assert(after[k] == cv);
                                assert(raws@[m as int]@ == after[k].0);
                            } else {
                                assert(after[k] == before[k - 1]);
                            }
                        }
                        assert forall|q: int| 0 <= q < m + 1 && is_candidate(ls, (#[trigger] raws@[q])@) implies exists|k: int|
                            0 <= k < after.len() && after[k].0 == raws@[q]@ by {
                            if q == m {
                                assert(after[i].0 == rv);
                            } else {
                                let k = choose|k: int| 0 <= k < before.len() && before[k].0 == raws@[q]@;
                                if k < i {
                                    assert(after[k] == before[k]);
                                } else {
                                    assert(after[k + 1] == before[k]);
                                }
                            }
                        }
                    }
                },
                None => {},
            }
        }
        m = m + 1;
    }
    proof {
        let cs = cands_view(cands@);
        assert forall|x: Seq<char>| #[trigger] is_candidate(ls, x) implies exists|k: int|
            0 <= k < cs.len() && cs[k].0 == x by {
            assert(crate::text::seqs_view(raws@).contains(x));
            let q = choose|q: int| 0 <= q < raws@.len() && crate::text::seqs_view(raws@)[q] == x;
            assert(raws@[q]@ == x);
            assert(is_candidate(ls, raws@[q]@));
        }
    }
    cands
}

fn select_exec(cands: &Vec<(Vec<char>, usize, usize)>) -> (r: Vec<(Vec<char>, usize, usize)>)
    ensures
        cands_view(r@) == select(cands_view(cands@), Seq::empty()),
        r@.len() <= cands@.len(),
{
    let ghost cs = cands_view(cands@);
    let mut sel: Vec<(Vec<char>, usize, usize)> = Vec::new();
    let mut i: usize = 0;
    assert(cs.skip(0) =~= cs);
    assert(cands_view(sel@) =~= Seq::<(Seq<char>, nat, nat)>::empty());
    while i < cands.len()
        invariant
            i <= cands@.len(),
            cs == cands_view(cands@),
            sel@.len() <= i,
            select(cs, Seq::empty()) == select(cs.skip(i as int), cands_view(sel@)),
        decreases cands.len() - i,
    {
        let c = &cands[i];
        assert(cs.skip(i as int)[0] == (c.0@, c.1 as nat, c.2 as nat));
        assert(cs.skip(i as int).drop_first() =~= cs.skip(i + 1));
        let bytes = chars_bytes(c.0.as_slice());
        match alias_net_savings(bytes, c.1, sel.len() + 1) {
            Some(net) => {
                let ghost before = cands_view(sel@);
                let copy = slice_chars(c.0.as_slice(), 0, c.0.len());
                assert(copy@ =~= c.0@);
                sel.push((copy, c.1, net));
                assert(cands_view(sel@) =~= before.push((c.0@, c.1 as nat, net as nat)));
            },
            None => {},
        }
        i = i + 1;
    }
    assert(cs.skip(i as int) =~= Seq::<(Seq<char>, nat, nat)>::empty());
    sel
}

fn position_exec(raws: &Vec<Vec<char>>, x: &[char]) -> (r: Option<usize>)
    ensures
        match r {
            Some(k) => crate::text::seqs_view(raws@).contains(x@) && k as int == position_of(
                crate::text::seqs_view(raws@),
                x@,
            ) && k < raws@.len(),
            None => !crate::text::seqs_view(raws@).contains(x@),
        },
{
    let ghost rv = crate::text::seqs_view(raws@);
    match find_chars(raws, x) {
        Some(k) => {
            proof {
                assert(rv[k as int] == x@);
                let p = position_of(rv, x@);
                assert(0 <= p < rv.len() && rv[p] == x@ && forall|j: int| 0 <= j < p ==> rv[j] != x@);
                if p < k {
                    assert(raws@[p]@ == rv[p]);
                } else if p > k {
                    assert(rv[k as int] == x@);
                }
            }
            Some(k)
        },
        None => {
            proof {
                if rv.contains(x@) {
                    let q = choose|q: int| 0 <= q < rv.len() && rv[q] == x@;
                    assert(raws@[q]@ == rv[q]);
                }
            }
            None
        },
    }
}

#[verifier::spinoff_prover]
#[verifier::rlimit(60)]
fn rewrite_exec(s: &[char], spans: &Vec<(usize, usize)>, raws: &Vec<Vec<char>>) -> (r: Vec<char>)
    requires
        forall|k: int|
            0 <= k < spans@.len() ==> (#[trigger] spans@[k]).0 < spans@[k].1 <= s@.len(),
        forall|k: int| 0 < k < spans@.len() ==> spans@[k - 1].1 <= (#[trigger] spans@[k]).0,
    ensures
        r@ == rewrite(s@, spans_int(spans@), crate::text::seqs_view(raws@), 0, 0),
{
    let ghost sp = spans_int(spans@);
    let ghost rv = crate::text::seqs_view(raws@);
    let mut out: Vec<char> = Vec::new();
    let mut cursor: usize = 0;
    let mut j: usize = 0;
    while j < spans.len()
        invariant
            j <= spans@.len(),
            sp == spans_int(spans@),
            rv == crate::text::seqs_view(raws@),
            cursor <= s@.len(),
            j < spans@.len() ==> cursor <= spans@[j as int].0,
            j == spans@.len() ==> cursor <= s@.len(),
            forall|k: int|
                0 <= k < spans@.len() ==> (#[trigger] spans@[k]).0 < spans@[k].1 <= s@.len(),
            forall|k: int| 0 < k < spans@.len() ==> spans@[k - 1].1 <= (#[trigger] spans@[k]).0,
            rewrite(s@, sp, rv, 0, 0) == out@ + rewrite(s@, sp, rv, j as int, cursor as int),
        decreases spans.len() - j,
    {
        let (a, e) = spans[j];
        assert(sp[j as int] == (a as int, e as int));
        let gap = slice_chars(s, cursor, a);
        let lit = slice_chars(s, a, e);
        let ghost before = out@;
        extend_chars(&mut out, gap.as_slice());
        match position_exec(raws, lit.as_slice()) {
            Some(k) => {
                let nr = raws.len();
                assert(k < nr);
                out.push('@');
                let digits = decimal_chars(k + 1);
                extend_chars(&mut out, digits.as_slice());
            },
            None => {
                extend_chars(&mut out, lit.as_slice());
            },
        }
        proof {
            let piece = if rv.contains(lit@) {
                seq!['@'] + decimal((position_of(rv, lit@) + 1) as nat)
            } else {
                lit@
            };
            assert(out@ =~= before + s@.subrange(cursor as int, a as int) + piece);
            assert(rewrite(s@, sp, rv, j as int, cursor as int) == s@.subrange(cursor as int, a as int)
                + piece + rewrite(s@, sp, rv, j + 1, e as int));
            if j + 1 < spans@.len() {
                assert(spans@[j as int].1 <= spans@[j + 1].0);
            }
        }
        cursor = e;
        j = j + 1;
    }
    let n = s.len();
    let rest = slice_chars(s, cursor, n);
    extend_chars(&mut out, rest.as_slice());
    out
}

fn header_exec(raws: &Vec<Vec<char>>) -> (r: Vec<char>)
    ensures
        r@ == header_from(crate::text::seqs_view(raws@), 0),
{
    let ghost rv = crate::text::seqs_view(raws@);
    let mut out: Vec<char> = Vec::new();
    let mut k: usize = 0;
    while k < raws.len()
        invariant
            k <= raws@.len(),
            rv == crate::text::seqs_view(raws@),
            header_from(rv, 0) == out@ + header_from(rv, k as int),
        decreases raws.len() - k,
    {
        let ghost before = out@;
        out.push('A');
        push_decimal(&mut out, k + 1);
        out.push(' ');
        extend_chars(&mut out, raws[k].as_slice());
        out.push('\n');
        assert(rv[k as int] == raws@[k as int]@);
        assert(out@ =~= before + ("A"@ + decimal((k + 1) as nat) + " "@ + rv[k as int] + "\n"@)) by {
            reveal_strlit("A");
            reveal_strlit(" ");
            reveal_strlit("\n");
        }
        k = k + 1;
    }
    out
}

fn decode_exec(sel: &Vec<(Vec<char>, usize, usize)>) -> (r: Result<Vec<AliasEntry>, AliasError>)
    ensures
        match decode_from(cands_view(sel@), 0) {
            Err(m) => r matches Err(e) && e.spec_message() == m,
            Ok(es) => r matches Ok(v) && v@.map_values(
                |e: AliasEntry| (e.id as nat, e.value@, e.occurrences as nat, e.net_bytes_saved as nat),
            ) == es,
        },
{
    let ghost cs = cands_view(sel@);
    let mut out: Vec<AliasEntry> = Vec::new();
    let mut k: usize = 0;
    while k < sel.len()
        invariant
            k <= sel@.len(),
            cs == cands_view(sel@),
            decode_from(cs, 0) == match decode_from(cs, k as int) {
                Err(e) => Err(e),
                Ok(rest) => Ok(
                    out@.map_values(
                        |e: AliasEntry|
                            (e.id as nat, e.value@, e.occurrences as nat, e.net_bytes_saved as nat),
                    ) + rest,
                ),
            },
        decreases sel.len() - k,
    {
        let c = &sel[k];
        assert(cs[k as int] == (c.0@, c.1 as nat, c.2 as nat));
        let raw = string_of(c.0.as_slice());
        match decode_json_string(raw.as_str()) {
            Err(e) => {
                let mut m = chars_of("invalid canonical C1 string literal: ");
                extend_str(&mut m, e.as_str());
                return Err(AliasError::new(m));
            },
            Ok(v) => {
                let ghost before = out@.map_values(
                    |e: AliasEntry| (e.id as nat, e.value@, e.occurrences as nat, e.net_bytes_saved as nat),
                );
                let entry = AliasEntry { id: k + 1, value: v, occurrences: c.1, net_bytes_saved: c.2 };
                let ghost ev = (
                    entry.id as nat,
                    entry.value@,
                    entry.occurrences as nat,
                    entry.net_bytes_saved as nat,
                );
                out.push(entry);
                proof {
                    assert(out@.map_values(
                        |e: AliasEntry| (e.id as nat, e.value@, e.occurrences as nat, e.net_bytes_saved as nat),
                    ) =~= before.push(ev));
                    match decode_from(cs, k + 1) {
                        Err(_) => {},
                        Ok(rest) => {
                            assert(before + (seq![ev] + rest) =~= before.push(ev) + rest);
                        },
                    }
                }
            },
        }
        k = k + 1;
    }
    proof {
        assert(decode_from(cs, k as int) == Ok::<Seq<(nat, Seq<char>, nat, nat)>, Seq<char>>(
            Seq::empty(),
        ));
        assert(out@.map_values(
            |e: AliasEntry| (e.id as nat, e.value@, e.occurrences as nat, e.net_bytes_saved as nat),
        ) + Seq::<(nat, Seq<char>, nat, nat)>::empty() =~= out@.map_values(
            |e: AliasEntry| (e.id as nat, e.value@, e.occurrences as nat, e.net_bytes_saved as nat),
        ));
    }
    Ok(out)
}

/// What `alias_canonical_c1` gives: the header and string errors, else the
/// transform under the (unique) candidate order of the text's literals.
pub open spec fn alias_outcome(
    input: Seq<char>,
    r: Result<AliasTransform, AliasError>,
) -> bool {
    if !("C1\n"@.is_prefix_of(input)) {
        r matches Err(e) && e.spec_message() == "input must begin with the canonical `C1` header"@
    } else {
        match spans_from(input, 0) {
            None => r matches Err(e) && e.spec_message()
                == "unterminated JSON string in canonical C1"@,
            Some(spans) => exists|cands: Seq<(Seq<char>, nat, nat)>|
                candidate_order(literals(input, spans), cands) && match transform_with(
                    input,
                    spans,
                    cands,
                ) {
                    Ok(t) => r matches Ok(x) && x@ == t,
                    Err(m) => r matches Err(e) && e.spec_message() == m,
                },
        }
    }
}

/// The transform of a canonical text under a candidate order.
#[verifier::spinoff_prover]
#[verifier::rlimit(60)]
fn transform_exec(
    input: &str,
    cs: &Vec<char>,
    spans: &Vec<(usize, usize)>,
    cands: &Vec<(Vec<char>, usize, usize)>,
) -> (r: Result<AliasTransform, AliasError>)
    requires
        cs@ == input@,
        forall|k: int|
            0 <= k < spans@.len() ==> (#[trigger] spans@[k]).0 < spans@[k].1 <= cs@.len(),
        forall|k: int| 0 < k < spans@.len() ==> spans@[k - 1].1 <= (#[trigger] spans@[k]).0,
    ensures
        match transform_with(input@, spans_int(spans@), cands_view(cands@)) {
            Ok(t) => r matches Ok(x) && x@ == t,
            Err(m) => r matches Err(e) && e.spec_message() == m,
        },
{
    let sel = select_exec(cands);
    if sel.len() == 0 {
        return Ok(plain_transform(input));
    }
    let mut raws: Vec<Vec<char>> = Vec::new();
    let mut k: usize = 0;
    while k < sel.len()
        invariant
            k <= sel@.len(),
            crate::text::seqs_view(raws@) == cands_view(sel@).take(k as int).map_values(
                |c: (Seq<char>, nat, nat)| c.0,
            ),
        decreases sel.len() - k,
    {
        let ghost before = crate::text::seqs_view(raws@);
        let copy = slice_chars(sel[k].0.as_slice(), 0, sel[k].0.len());
        assert(copy@ =~= sel@[k as int].0@);
        raws.push(copy);
        assert(crate::text::seqs_view(raws@) =~= before.push(sel@[k as int].0@));
        k = k + 1;
        assert(cands_view(sel@).take(k as int).map_values(|c: (Seq<char>, nat, nat)| c.0)
            =~= cands_view(sel@).take(k - 1).map_values(|c: (Seq<char>, nat, nat)| c.0).push(
            sel@[k - 1].0@,
        ));
    }
    assert(cands_view(sel@).take(k as int) =~= cands_view(sel@));
    let header = header_exec(&raws);
    let body = rewrite_exec(cs.as_slice(), spans, &raws);
    let mut encoded = chars_of("C1A\n");
    extend_chars(&mut encoded, header.as_slice());
    extend_chars(&mut encoded, body.as_slice());
    let encoded_s = string_of(encoded.as_slice());
    let encoded_bytes = str_bytes(encoded_s.as_str());
    let canonical_bytes = str_bytes(input);
    if encoded_bytes >= canonical_bytes {
        return Ok(plain_transform(input));
    }
    let aliases = decode_exec(&sel)?;
    Ok(AliasTransform { encoded: encoded_s, aliases, canonical_bytes, encoded_bytes })
}

/// Chooses local aliases for the repeated string literals of a canonical
/// C1 text when that makes it shorter.
pub fn alias_canonical_c1(input: &str) -> (r: Result<AliasTransform, AliasError>)
    ensures
        alias_outcome(input@, r),
{
    let cs = chars_of(input);
    let h = chars_of("C1\n");
    if !crate::text::starts_with(cs.as_slice(), h.as_slice()) {
        return Err(AliasError::new(chars_of("input must begin with the canonical `C1` header")));
    }
    let spans = string_spans(cs.as_slice())?;
    let ghost sp = spans_int(spans@);
    let mut lits: Vec<Vec<char>> = Vec::new();
    let mut j: usize = 0;
    while j < spans.len()
        invariant
            j <= spans@.len(),
            sp == spans_int(spans@),
            forall|k: int| 0 <= k < sp.len() ==> (#[trigger] sp[k]).0 < sp[k].1 <= cs@.len(),
            crate::text::seqs_view(lits@) == literals(cs@, sp).take(j as int),
        decreases spans.len() - j,
    {
        let (a, e) = spans[j];
        assert(sp[j as int] == (a as int, e as int));
        let ghost before = crate::text::seqs_view(lits@);
        let lit = slice_chars(cs.as_slice(), a, e);
        lits.push(lit);
        assert(crate::text::seqs_view(lits@) =~= before.push(lit@));
        j = j + 1;
        assert(literals(cs@, sp).take(j as int) =~= literals(cs@, sp).take(j - 1).push(
            cs@.subrange(a as int, e as int),
        ));
    }
    assert(literals(cs@, sp).take(j as int) =~= literals(cs@, sp));
    let cands = ordered_candidates(&lits);
    proof {
        assert forall|k: int| 0 <= k < spans@.len() implies (#[trigger] spans@[k]).0 < spans@[k].1
            <= cs@.len() by {
            assert(sp[k] == (spans@[k].0 as int, spans@[k].1 as int));
        }
        assert forall|k: int| 0 < k < spans@.len() implies spans@[k - 1].1 <= (#[trigger] spans@[k]).0 by {
            assert(sp[k] == (spans@[k].0 as int, spans@[k].1 as int));
            assert(sp[k - 1] == (spans@[k - 1].0 as int, spans@[k - 1].1 as int));
        }
    }
    let r = transform_exec(input, &cs, &spans, &cands);
    proof {
        let c = cands_view(cands@);
        assert(candidate_order(literals(input@, sp), c));
    }
    r
}

pub open spec fn strictly_ordered(a: Seq<(Seq<char>, nat, nat)>) -> bool {
    forall|i: int, j: int| 0 <= i < j < a.len() ==> cand_before(#[trigger] a[i], #[trigger] a[j])
}

proof fn lemma_ordered_same_elements(a: Seq<(Seq<char>, nat, nat)>, b: Seq<(Seq<char>, nat, nat)>)
    requires
        strictly_ordered(a),
        strictly_ordered(b),
        forall|x: (Seq<char>, nat, nat)| a.contains(x) <==> b.contains(x),
    ensures
        a == b,
    decreases a.len(),
{
    if a.len() == 0 {
        if b.len() > 0 {
            assert(b.contains(b[0]));
        }
        assert(a =~= b);
    } else {
        assert(a.contains(a[0]));
        assert(b.len() > 0);
        assert(b.contains(b[0]));
        let p = choose|p: int| 0 <= p < b.len() && b[p] == a[0];
        let q = choose|q: int| 0 <= q < a.len() && a[q] == b[0];
        if a[0] != b[0] {
            assert(p > 0 && q > 0);
            assert(cand_before(b[0], b[p]));
            assert(cand_before(a[0], a[q]));
            lemma_cand_order(a[0], b[0], a[0]);
        }
        let a1 = a.drop_first();
        let b1 = b.drop_first();
        assert forall|x: (Seq<char>, nat, nat)| a1.contains(x) <==> b1.contains(x) by {
            if a1.contains(x) {
                let i = choose|i: int| 0 <= i < a1.len() && a1[i] == x;
                assert(a[i + 1] == x);
                assert(a.contains(x));
                let j = choose|j: int| 0 <= j < b.len() && b[j] == x;
                if j == 0 {
                    assert(cand_before(a[0], a[i + 1]));
                    lemma_cand_order(x, x, x);
                }
                assert(b1[j - 1] == x);
            }
            if b1.contains(x) {
                let i = choose|i: int| 0 <= i < b1.len() && b1[i] == x;
                assert(b[i + 1] == x);
                assert(b.contains(x));
                let j = choose|j: int| 0 <= j < a.len() && a[j] == x;
                if j == 0 {
                    assert(cand_before(b[0], b[i + 1]));
                    lemma_cand_order(x, x, x);
                }
                assert(a1[j - 1] == x);
            }
        }
        assert forall|i: int, j: int| 0 <= i < j < a1.len() implies cand_before(
            #[trigger] a1[i],
            #[trigger] a1[j],
        ) by {
            assert(a1[i] == a[i + 1] && a1[j] == a[j + 1]);
        }
        assert forall|i: int, j: int| 0 <= i < j < b1.len() implies cand_before(
            #[trigger] b1[i],
            #[trigger] b1[j],
        ) by {
            assert(b1[i] == b[i + 1] && b1[j] == b[j + 1]);
        }
        lemma_ordered_same_elements(a1, b1);
        assert(a =~= seq![a[0]] + a1);
        assert(b =~= seq![b[0]] + b1);
    }
}

/// The candidate order of a text's literals is unique: every candidate
/// literal once, with its count and preliminary saving, in candidate order.
pub proof fn lemma_candidate_order_unique(
    lits: Seq<Seq<char>>,
    c1: Seq<(Seq<char>, nat, nat)>,
    c2: Seq<(Seq<char>, nat, nat)>,
)
    requires
        candidate_order(lits, c1),
        candidate_order(lits, c2),
    ensures
        c1 == c2,
{
    assert forall|x: (Seq<char>, nat, nat)| c1.contains(x) implies c2.contains(x) by {
        let k = choose|k: int| 0 <= k < c1.len() && c1[k] == x;
        assert(is_candidate(lits, c1[k].0));
        let k2 = choose|k2: int| 0 <= k2 < c2.len() && c2[k2].0 == x.0;
        assert(c2[k2].1 == count_of(lits, x.0));
        assert(net_savings(byte_len(x.0), x.1, 1) == Some(c2[k2].2));
        assert(c2[k2] == x);
    }
    assert forall|x: (Seq<char>, nat, nat)| c2.contains(x) implies c1.contains(x) by {
        let k = choose|k: int| 0 <= k < c2.len() && c2[k] == x;
        assert(is_candidate(lits, c2[k].0));
        let k1 = choose|k1: int| 0 <= k1 < c1.len() && c1[k1].0 == x.0;
        assert(c1[k1].1 == count_of(lits, x.0));
        assert(net_savings(byte_len(x.0), x.1, 1) == Some(c1[k1].2));
        assert(c1[k1] == x);
    }
    lemma_ordered_same_elements(c1, c2);
}

proof fn lemma_decode_len(sel: Seq<(Seq<char>, nat, nat)>, k: int)
    requires
        0 <= k <= sel.len(),
    ensures
        decode_from(sel, k) matches Ok(e) ==> e.len() == sel.len() - k,
    decreases sel.len() - k,
{
    if k < sel.len() {
        lemma_decode_len(sel, k + 1);
    }
}

/// A transform that declares no alias is the canonical text itself, and
/// expanding it gives that text back.
pub proof fn lemma_unaliased_transform_round_trip(
    input: Seq<char>,
    r: Result<AliasTransform, AliasError>,
)
    requires
        alias_outcome(input, r),
        r matches Ok(t) && t@.aliases.len() == 0,
    ensures
        r matches Ok(t) && t@.encoded == input && c1_expansion(t@.encoded) == Ok::<
            Seq<char>,
            Seq<char>,
        >(input),
{
    let spans = spans_from(input, 0)->0;
    let cands = choose|cands: Seq<(Seq<char>, nat, nat)>|
        candidate_order(literals(input, spans), cands) && match transform_with(input, spans, cands) {
            Ok(t) => r matches Ok(x) && x@ == t,
            Err(m) => r matches Err(e) && e.spec_message() == m,
        };
    let sel = select(cands, Seq::empty());
    lemma_decode_len(sel, 0);
}

// ---------------------------------------------------------------------------
// Expanding what aliasing produced.

proof fn lemma_decimal(n: nat)
    ensures
        decimal(n).len() >= 1,
        all_digits(decimal(n)),
        crate::text::digits_value(decimal(n)) == n,
    decreases n,
{
    assert((crate::text::digit_char(n % 10) as u32) == 48 + n % 10);
    if n < 10 {
        assert((crate::text::digit_char(n) as u32) == 48 + n);
        assert(decimal(n).drop_last() =~= Seq::<char>::empty());
        assert(crate::text::digits_value(decimal(n).drop_last()) == 0);
        assert(decimal(n).last() == crate::text::digit_char(n));
        assert(crate::text::digits_value(decimal(n)) == crate::text::digits_value(
            decimal(n).drop_last(),
        ) * 10 + ((decimal(n).last() as u32) - 48) as nat);
    }
    if n >= 10 {
        lemma_decimal(n / 10);
        let d = decimal(n / 10);
        let e = d.push(crate::text::digit_char(n % 10));
        assert(e.drop_last() =~= d);
        assert forall|i: int| 0 <= i < e.len() implies is_ascii_digit(#[trigger] e[i]) by {
            if i < d.len() {
                assert(e[i] == d[i]);
            }
        }
        assert(n == (n / 10) * 10 + n % 10) by (nonlinear_arith);
        assert(decimal(n) == e);
        assert(e.last() == crate::text::digit_char(n % 10));
        assert(crate::text::digits_value(e) == crate::text::digits_value(d) * 10 + ((e.last() as u32)
            - 48) as nat);
    }
}

proof fn lemma_parse_decimal(n: nat)
    requires
        n <= usize::MAX,
    ensures
        parse_usize(decimal(n)) == Some(n as usize),
{
    lemma_decimal(n);
    assert(is_ascii_digit(decimal(n)[0]));
}

proof fn lemma_digits_then(u: Seq<char>, rest: Seq<char>)
    requires
        all_digits(u),
        rest.len() == 0 || !is_ascii_digit(rest[0]),
    ensures
        leading_digits(u + rest) == u.len(),
    decreases u.len(),
{
    if u.len() == 0 {
        assert(u + rest =~= rest);
    } else {
        assert((u + rest)[0] == u[0]);
        assert((u + rest).drop_first() =~= u.drop_first() + rest);
        assert(all_digits(u.drop_first())) by {
            assert forall|i: int| 0 <= i < u.drop_first().len() implies is_ascii_digit(
                #[trigger] u.drop_first()[i],
            ) by {
                assert(u.drop_first()[i] == u[i + 1]);
            }
        }
        lemma_digits_then(u.drop_first(), rest);
    }
}

proof fn lemma_json_escape_no_newline(v: Seq<char>)
    ensures
        !crate::provider_snapshot_applicability::identity::json_escape(v).contains('\n'),
    decreases v.len(),
{
    if v.len() > 0 {
        lemma_json_escape_no_newline(v.drop_last());
        let a = crate::provider_snapshot_applicability::identity::json_escape(v.drop_last());
        let b = crate::provider_snapshot_applicability::identity::json_escape_char(v.last());
        assert(!b.contains('\n')) by {
            if b.contains('\n') {
                let i = choose|i: int| 0 <= i < b.len() && b[i] == '\n';
                let u = v.last() as u32;
                if u < 32 && v.last() != '\n' && v.last() != '\r' && v.last() != '\t' && u != 8 && u
                    != 12 {
                    assert(crate::provider_snapshot_applicability::identity::hex_digit(
                        (u / 16) as nat,
                    ) != '\n');
                    assert(crate::provider_snapshot_applicability::identity::hex_digit(
                        (u % 16) as nat,
                    ) != '\n');
                }
            }
        }
        assert(!(a + b).contains('\n')) by {
            if (a + b).contains('\n') {
                let i = choose|i: int| 0 <= i < (a + b).len() && (a + b)[i] == '\n';
                if i < a.len() {
                    assert(a[i] == '\n');
                } else {
                    assert(b[i - a.len()] == '\n');
                }
            }
        }
    }
}

proof fn lemma_first_at(u: Seq<char>, w: Seq<char>, c: char)
    requires
        !u.contains(c),
    ensures
        first_index_of(u + seq![c] + w, c) == Some(u.len() as int),
{
    let s = u + seq![c] + w;
    assert(s[u.len() as int] == c);
    assert forall|j: int| 0 <= j < u.len() implies s[j] != c by {
        assert(s[j] == u[j]);
        if u[j] == c {
            assert(u.contains(c));
        }
    }
    let k = choose|k: int| 0 <= k < s.len() && s[k] == c && forall|j: int| 0 <= j < k ==> s[j] != c;
    if k < u.len() {
        assert(s[k] == u[k]);
    } else if k > u.len() {
        assert(s[u.len() as int] == c);
    }
}

proof fn lemma_grow_prefix(x: Seq<char>, a: int, e: int)
    requires
        0 <= a <= e <= x.len(),
        byte_len(x) <= MAX_C1_BYTES,
    ensures
        grow(x.take(a), x.subrange(a, e)) == Ok::<Seq<char>, Seq<char>>(x.take(e)),
{
    lemma_byte_len_concat(x.take(a), x.subrange(a, e));
    assert(x.take(a) + x.subrange(a, e) =~= x.take(e));
    lemma_byte_len_parts(x, a, e);
}

/// Moving the flushed cursor forward over text not yet written out changes
/// nothing.
proof fn lemma_flush(
    b: Seq<char>,
    aliases: Seq<Seq<char>>,
    i: int,
    c: int,
    c2: int,
    st: bool,
    esc: bool,
    o: Seq<char>,
)
    requires
        0 <= c <= c2 <= i <= b.len(),
    ensures
        expand_from(b, aliases, i, c, st, esc, o) == expand_from(
            b,
            aliases,
            i,
            c2,
            st,
            esc,
            o + b.subrange(c, c2),
        ),
    decreases b.len() - i,
{
    let o2 = o + b.subrange(c, c2);
    if i >= b.len() {
        if !st {
            lemma_byte_len_concat(o, b.subrange(c, b.len() as int));
            lemma_byte_len_concat(o2, b.subrange(c2, b.len() as int));
            lemma_byte_len_concat(o, b.subrange(c, c2));
            lemma_byte_len_concat(b.subrange(c, c2), b.subrange(c2, b.len() as int));
            assert(b.subrange(c, c2) + b.subrange(c2, b.len() as int) =~= b.subrange(c, b.len() as int));
            assert(o2 + b.subrange(c2, b.len() as int) =~= o + b.subrange(c, b.len() as int));
        }
    } else if st {
        if esc {
            lemma_flush(b, aliases, i + 1, c, c2, true, false, o);
        } else if b[i] == '\\' {
            lemma_flush(b, aliases, i + 1, c, c2, true, true, o);
        } else if b[i] == '"' {
            lemma_flush(b, aliases, i + 1, c, c2, false, false, o);
        } else {
            lemma_flush(b, aliases, i + 1, c, c2, true, false, o);
        }
    } else if b[i] == '"' {
        lemma_flush(b, aliases, i + 1, c, c2, true, false, o);
    } else if b[i] != '@' {
        lemma_flush(b, aliases, i + 1, c, c2, false, false, o);
    } else {
        lemma_byte_len_concat(o, b.subrange(c, i));
        lemma_byte_len_concat(o2, b.subrange(c2, i));
        lemma_byte_len_concat(o, b.subrange(c, c2));
        lemma_byte_len_concat(b.subrange(c, c2), b.subrange(c2, i));
        assert(b.subrange(c, c2) + b.subrange(c2, i) =~= b.subrange(c, i));
        assert(o2 + b.subrange(c2, i) =~= o + b.subrange(c, i));
    }
}

/// Text without quotes or `@` passes through unread.
proof fn lemma_plain_scan(b: Seq<char>, aliases: Seq<Seq<char>>, i: int, m: int, c: int, o: Seq<char>)
    requires
        0 <= i,
        0 <= m,
        i + m <= b.len(),
        forall|q: int| i <= q < i + m ==> #[trigger] b[q] != '"' && b[q] != '@',
    ensures
        expand_from(b, aliases, i, c, false, false, o) == expand_from(
            b,
            aliases,
            i + m,
            c,
            false,
            false,
            o,
        ),
    decreases m,
{
    if m > 0 {
        assert(b[i] != '"' && b[i] != '@');
        lemma_plain_scan(b, aliases, i + 1, m - 1, c, o);
    }
}

/// Inside a string literal the scan follows the literal to its closing
/// quote.
proof fn lemma_string_scan(
    b: Seq<char>,
    aliases: Seq<Seq<char>>,
    i: int,
    c: int,
    o: Seq<char>,
    x: Seq<char>,
    j: int,
    esc: bool,
    e: int,
)
    requires
        0 <= j <= e <= x.len(),
        0 <= i,
        i + (e - j) <= b.len(),
        forall|q: int| j <= q < e ==> #[trigger] x[q] == b[i + (q - j)],
        string_end(x, j, esc) == Some(e),
    ensures
        expand_from(b, aliases, i, c, true, esc, o) == expand_from(
            b,
            aliases,
            i + (e - j),
            c,
            false,
            false,
            o,
        ),
    decreases e - j,
{
    lemma_string_end_after(x, j, esc);
    assert(x[j] == b[i]);
    if esc {
        lemma_string_scan(b, aliases, i + 1, c, o, x, j + 1, false, e);
    } else if x[j] == '\\' {
        lemma_string_scan(b, aliases, i + 1, c, o, x, j + 1, true, e);
    } else if x[j] == '"' {
    } else {
        lemma_string_scan(b, aliases, i + 1, c, o, x, j + 1, false, e);
    }
}

/// A literal whose decoded value encodes back to it.
pub open spec fn canonical_literal(raw: Seq<char>) -> bool {
    json_string_value(raw) matches Ok(v) && json_string(v) == raw
}

proof fn lemma_canonical_no_newline(raw: Seq<char>)
    requires
        canonical_literal(raw),
    ensures
        !raw.contains('\n'),
{
    let v = json_string_value(raw)->Ok_0;
    let esc = crate::provider_snapshot_applicability::identity::json_escape(v);
    lemma_json_escape_no_newline(v);
    assert(raw == seq!['"'] + esc + seq!['"']);
    if raw.contains('\n') {
        let i = choose|i: int| 0 <= i < raw.len() && raw[i] == '\n';
        if 0 < i < raw.len() - 1 {
            assert(esc[i - 1] == '\n');
        }
    }
}

proof fn lemma_digits_no(u: Seq<char>, c: char)
    requires
        all_digits(u),
        !is_ascii_digit(c),
    ensures
        !u.contains(c),
{
    if u.contains(c) {
        let i = choose|i: int| 0 <= i < u.len() && u[i] == c;
        assert(is_ascii_digit(u[i]));
    }
}

/// One definition line of the header has no line break and is no body line.
#[verifier::spinoff_prover]
proof fn lemma_line_shape(n: nat, raw: Seq<char>)
    requires
        canonical_literal(raw),
    ensures
        !("A"@ + decimal(n) + " "@ + raw).contains('\n'),
        "A"@ + decimal(n) + " "@ + raw != "C1"@,
{
    reveal_strlit("C1");
    reveal_strlit("A");
    reveal_strlit(" ");
    let dec = decimal(n);
    lemma_decimal(n);
    lemma_canonical_no_newline(raw);
    let line = "A"@ + dec + " "@ + raw;
    lemma_digits_no(dec, '\n');
    assert(!line.contains('\n')) by {
        if line.contains('\n') {
            let i = choose|i: int| 0 <= i < line.len() && line[i] == '\n';
            if 1 <= i < 1 + dec.len() {
                assert(dec[i - 1] == '\n');
            } else if i >= 2 + dec.len() {
                assert(raw[i - 2 - dec.len()] == '\n');
            }
        }
    }
    assert(line != "C1"@) by {
        assert(line[0] == 'A');
    }
}

#[verifier::spinoff_prover]
proof fn lemma_definition_from_parts(line: Seq<char>, dec: Seq<char>, n: nat, raw: Seq<char>, v: Seq<char>)
    requires
        line.len() > 0,
        line[0] == 'A',
        first_index_of(line.drop_first(), ' ') == Some(dec.len() as int),
        line.drop_first().take(dec.len() as int) == dec,
        line.drop_first().skip(dec.len() as int + 1) == raw,
        1 <= n <= usize::MAX,
        dec.len() > 0,
        all_digits(dec),
        parse_usize(dec) == Some(n as usize),
        json_string_value(raw) == Ok::<Seq<char>, Seq<char>>(v),
        json_string(v) == raw,
    ensures
        alias_definition(line) == Ok::<(usize, Seq<char>), Seq<char>>((n as usize, raw)),
{
    reveal(alias_definition);
}

/// One definition line of the header, read back.
#[verifier::spinoff_prover]
proof fn lemma_definition_line(dec: Seq<char>, n: nat, raw: Seq<char>)
    requires
        1 <= n <= usize::MAX,
        dec.len() > 0,
        all_digits(dec),
        parse_usize(dec) == Some(n as usize),
        canonical_literal(raw),
    ensures
        alias_definition(seq!['A'] + dec + seq![' '] + raw) == Ok::<(usize, Seq<char>), Seq<char>>(
            (n as usize, raw),
        ),
{
    let line = seq!['A'] + dec + seq![' '] + raw;
    lemma_digits_no(dec, ' ');
    let r2 = line.drop_first();
    assert(line[0] == 'A');
    assert(r2 =~= dec + seq![' '] + raw);
    lemma_first_at(dec, raw, ' ');
    assert(r2.take(dec.len() as int) =~= dec);
    assert(r2.skip(dec.len() as int + 1) =~= raw);
    let v = json_string_value(raw)->Ok_0;
    lemma_definition_from_parts(line, dec, n, raw, v);
}

/// One step of reading the definitions.
#[verifier::spinoff_prover]
proof fn lemma_defs_step(
    line: Seq<char>,
    tail: Seq<char>,
    defs: Seq<Seq<char>>,
    n: usize,
    raw: Seq<char>,
)
    requires
        !line.contains('\n'),
        line != "C1"@,
        alias_definition(line) == Ok::<(usize, Seq<char>), Seq<char>>((n, raw)),
        n == defs.len() + 1,
        !defs.contains(raw),
    ensures
        alias_defs(line + seq!['\n'] + tail, defs) == alias_defs(tail, defs.push(raw)),
{
    let rest = line + seq!['\n'] + tail;
    lemma_first_at(line, tail, '\n');
    assert(rest.take(line.len() as int) =~= line);
    assert(rest.skip(line.len() as int + 1) =~= tail);
}

#[verifier::spinoff_prover]
#[verifier::rlimit(60)]
proof fn lemma_header_defs(raws: Seq<Seq<char>>, k: int, body: Seq<char>)
    requires
        0 <= k <= raws.len(),
        raws.len() < usize::MAX,
        raws.no_duplicates(),
        forall|m: int| 0 <= m < raws.len() ==> canonical_literal(#[trigger] raws[m]),
        "C1\n"@.is_prefix_of(body),
    ensures
        alias_defs(header_from(raws, k) + body, raws.take(k)) == Ok::<
            (Seq<Seq<char>>, Seq<char>),
            Seq<char>,
        >((raws, body)),
    decreases raws.len() - k,
{
    if k == raws.len() {
        reveal_strlit("C1\n");
        reveal_strlit("C1");
        assert(body.subrange(0, 3) =~= "C1\n"@);
        assert(body[0] == body.subrange(0, 3)[0] && body[1] == body.subrange(0, 3)[1] && body[2]
            == body.subrange(0, 3)[2]);
        assert(header_from(raws, k) + body =~= body);
        assert(body =~= "C1"@ + seq!['\n'] + body.skip(3));
        assert(!"C1"@.contains('\n')) by {
            if "C1"@.contains('\n') {
                let i = choose|i: int| 0 <= i < 2 && "C1"@[i] == '\n';
            }
        }
        lemma_first_at("C1"@, body.skip(3), '\n');
        assert(body.take(2) =~= "C1"@);
        assert(raws.take(k) =~= raws);
    } else {
        reveal_strlit("\n");
        reveal_strlit("A");
        reveal_strlit(" ");
        let raw = raws[k];
        let dec = decimal((k + 1) as nat);
        lemma_decimal((k + 1) as nat);
        lemma_parse_decimal((k + 1) as nat);
        lemma_line_shape((k + 1) as nat, raw);
        lemma_definition_line(dec, (k + 1) as nat, raw);
        let line = "A"@ + dec + " "@ + raw;
        assert(line =~= seq!['A'] + dec + seq![' '] + raw);
        let tail = header_from(raws, k + 1) + body;
        assert(header_from(raws, k) + body =~= line + seq!['\n'] + tail);
        assert(raws.take(k).len() == k);
        assert(!raws.take(k).contains(raw)) by {
            if raws.take(k).contains(raw) {
                let m = choose|m: int| 0 <= m < k && raws.take(k)[m] == raw;
                assert(raws[m] == raws[k]);
            }
        }
        lemma_defs_step(line, tail, raws.take(k), (k + 1) as usize, raw);
        assert(raws.take(k).push(raw) =~= raws.take(k + 1));
        lemma_header_defs(raws, k + 1, body);
    }
}

/// The spans found from `i` on: each opens at a quote of `s` at or after
/// `i` and closes where its string ends, they follow one another, and every
/// quote from `i` on lies in one of them.
#[verifier::spinoff_prover]
#[verifier::rlimit(60)]
proof fn lemma_spans_facts(s: Seq<char>, i: int)
    requires
        0 <= i,
        spans_from(s, i) is Some,
    ensures
        ({
            let sp = spans_from(s, i)->0;
            &&& forall|k: int|
                0 <= k < sp.len() ==> i <= (#[trigger] sp[k]).0 < sp[k].1 <= s.len() && s[sp[k].0]
                    == '"' && string_end(s, sp[k].0 + 1, false) == Some(sp[k].1)
            &&& forall|k1: int, k2: int|
                0 <= k1 < k2 < sp.len() ==> (#[trigger] sp[k1]).1 <= (#[trigger] sp[k2]).0
            &&& forall|p: int|
                i <= p < s.len() && #[trigger] s[p] == '"' ==> exists|k: int|
                    0 <= k < sp.len() && (#[trigger] sp[k]).0 <= p < sp[k].1
        }),
    decreases s.len() - i,
{
    let sp = spans_from(s, i)->0;
    if i >= s.len() {
    } else if s[i] != '"' {
        lemma_spans_facts(s, i + 1);
        assert forall|p: int| i <= p < s.len() && #[trigger] s[p] == '"' implies exists|k: int|
            0 <= k < sp.len() && (#[trigger] sp[k]).0 <= p < sp[k].1 by {
            assert(p != i);
        }
    } else {
        let e = string_end(s, i + 1, false)->0;
        lemma_string_end_after(s, i + 1, false);
        lemma_spans_facts(s, e);
        let rest = spans_from(s, e)->0;
        assert(sp == seq![(i, e)] + rest);
        assert forall|k: int| 0 <= k < sp.len() implies i <= (#[trigger] sp[k]).0 < sp[k].1 <= s.len()
            && s[sp[k].0] == '"' && string_end(s, sp[k].0 + 1, false) == Some(sp[k].1) by {
            if k > 0 {
                assert(sp[k] == rest[k - 1]);
            }
        }
        assert forall|k1: int, k2: int| 0 <= k1 < k2 < sp.len() implies (#[trigger] sp[k1]).1 <= (
        #[trigger] sp[k2]).0 by {
            assert(sp[k2] == rest[k2 - 1]);
            if k1 > 0 {
                assert(sp[k1] == rest[k1 - 1]);
            }
        }
        assert forall|p: int| i <= p < s.len() && #[trigger] s[p] == '"' implies exists|k: int|
            0 <= k < sp.len() && (#[trigger] sp[k]).0 <= p < sp[k].1 by {
            if p < e {
                assert(sp[0] == (i, e));
            } else {
                let k = choose|k: int| 0 <= k < rest.len() && (#[trigger] rest[k]).0 <= p < rest[k].1;
                assert(sp[k + 1] == rest[k]);
            }
        }
    }
}

proof fn lemma_position_of(raws: Seq<Seq<char>>, y: Seq<char>)
    requires
        raws.contains(y),
    ensures
        0 <= position_of(raws, y) < raws.len(),
        raws[position_of(raws, y)] == y,
{
    let i = choose|i: int| 0 <= i < raws.len() && raws[i] == y;
    lemma_first_of(raws, y, i);
}

proof fn lemma_first_of(raws: Seq<Seq<char>>, y: Seq<char>, i: int)
    requires
        0 <= i < raws.len(),
        raws[i] == y,
    ensures
        exists|k: int| 0 <= k < raws.len() && raws[k] == y && forall|j: int| 0 <= j < k ==> raws[j] != y,
    decreases i,
{
    if exists|j: int| 0 <= j < i && raws[j] == y {
        let j = choose|j: int| 0 <= j < i && raws[j] == y;
        lemma_first_of(raws, y, j);
    } else {
        assert(0 <= i < raws.len() && raws[i] == y && forall|j: int| 0 <= j < i ==> raws[j] != y);
    }
}

/// What the aliasing law asks of the text: it fits the transport limit, no
/// `@` stands outside a string literal, no digit directly follows one, and
/// every literal is the canonical encoding of its value.
pub open spec fn round_trip_text(x: Seq<char>, sp: Seq<(int, int)>) -> bool {
    &&& byte_len(x) <= MAX_C1_BYTES
    &&& forall|p: int|
        0 <= p < x.len() && #[trigger] x[p] == '@' ==> exists|k: int|
            0 <= k < sp.len() && (#[trigger] sp[k]).0 <= p < sp[k].1
    &&& forall|k: int| 0 <= k < sp.len() && (#[trigger] sp[k]).1 < x.len() ==> !is_ascii_digit(x[sp[k].1])
    &&& forall|k: int| 0 <= k < sp.len() ==> canonical_literal(x.subrange((#[trigger] sp[k]).0, sp[k].1))
}

/// The spans are well placed in `x`, and text outside them holds no quote
/// and no `@`.
spec fn placed(x: Seq<char>, sp: Seq<(int, int)>) -> bool {
    &&& forall|k: int|
        0 <= k < sp.len() ==> 0 <= (#[trigger] sp[k]).0 < sp[k].1 <= x.len() && x[sp[k].0] == '"'
            && string_end(x, sp[k].0 + 1, false) == Some(sp[k].1)
    &&& forall|k1: int, k2: int| 0 <= k1 < k2 < sp.len() ==> (#[trigger] sp[k1]).1 <= (#[trigger] sp[k2]).0
    &&& forall|p: int|
        0 <= p < x.len() && (forall|k: int| 0 <= k < sp.len() ==> !((#[trigger] sp[k]).0 <= p < sp[k].1))
            ==> #[trigger] x[p] != '"' && x[p] != '@'
    &&& forall|k: int| 0 <= k < sp.len() && (#[trigger] sp[k]).1 < x.len() ==> !is_ascii_digit(x[sp[k].1])
}

/// The rewritten text from span `j` on starts with no digit.
proof fn lemma_rewrite_head(x: Seq<char>, sp: Seq<(int, int)>, raws: Seq<Seq<char>>, j: int, cur: int)
    requires
        placed(x, sp),
        0 < j <= sp.len(),
        cur == sp[j - 1].1,
        j < sp.len() ==> cur <= sp[j].0,
        0 <= cur <= x.len(),
    ensures
        ({
            let r = rewrite(x, sp, raws, j, cur);
            r.len() == 0 || (cur < x.len() && r[0] == x[cur]) || r[0] == '"' || r[0] == '@'
        }),
{
    let r = rewrite(x, sp, raws, j, cur);
    if j < sp.len() {
        let a = sp[j].0;
        let lit = x.subrange(a, sp[j].1);
        let rep = if raws.contains(lit) {
            seq!['@'] + decimal((position_of(raws, lit) + 1) as nat)
        } else {
            lit
        };
        assert(r == x.subrange(cur, a) + rep + rewrite(x, sp, raws, j + 1, sp[j].1));
        if cur == a {
            assert(r[0] == rep[0]);
            if !raws.contains(lit) {
                assert(rep[0] == x[a]);
            }
        } else {
            assert(r[0] == x[cur]);
        }
    } else {
        assert(r == x.subrange(cur, x.len() as int));
        if r.len() > 0 {
            assert(r[0] == x[cur]);
        }
    }
}

/// Text between the spans holds no quote and no `@`.
proof fn lemma_gap_plain(x: Seq<char>, sp: Seq<(int, int)>, j: int, cur: int, end: int)
    requires
        placed(x, sp),
        0 <= j <= sp.len(),
        0 < j ==> cur == sp[j - 1].1,
        0 <= cur <= end <= x.len(),
        j < sp.len() ==> end <= sp[j].0,
    ensures
        forall|p: int| cur <= p < end ==> #[trigger] x[p] != '"' && x[p] != '@',
{
    assert forall|p: int| cur <= p < end implies #[trigger] x[p] != '"' && x[p] != '@' by {
        assert forall|k: int| 0 <= k < sp.len() implies !((#[trigger] sp[k]).0 <= p < sp[k].1) by {
            if k < j - 1 {
                assert(sp[k].1 <= sp[j - 1].0);
            } else if k > j {
                assert(sp[j].1 <= sp[k].0);
            }
        }
    }
}

/// A literal kept as it is passes through the scan.
#[verifier::spinoff_prover]
proof fn lemma_scan_kept(
    b: Seq<char>,
    raws: Seq<Seq<char>>,
    i: int,
    x: Seq<char>,
    cur: int,
    a: int,
    e: int,
    o: Seq<char>,
)
    requires
        0 <= cur <= a < e <= x.len(),
        0 <= i,
        i + (e - cur) <= b.len(),
        b.subrange(i, i + (e - cur)) == x.subrange(cur, e),
        forall|p: int| cur <= p < a ==> #[trigger] x[p] != '"' && x[p] != '@',
        x[a] == '"',
        string_end(x, a + 1, false) == Some(e),
    ensures
        expand_from(b, raws, i, i, false, false, o) == expand_from(
            b,
            raws,
            i + (e - cur),
            i + (e - cur),
            false,
            false,
            o + x.subrange(cur, e),
        ),
{
    let m = a - cur;
    assert forall|q: int| i <= q < i + m implies #[trigger] b[q] != '"' && b[q] != '@' by {
        assert(b[q] == b.subrange(i, i + (e - cur))[q - i]);
        assert(x.subrange(cur, e)[q - i] == x[cur + (q - i)]);
    }
    lemma_plain_scan(b, raws, i, m, i, o);
    assert(b[i + m] == b.subrange(i, i + (e - cur))[m]);
    assert(b[i + m] == '"');
    assert forall|q: int| a + 1 <= q < e implies #[trigger] x[q] == b[(i + m + 1) + (q - (a + 1))] by {
        assert(b.subrange(i, i + (e - cur))[q - cur] == b[i + (q - cur)]);
    }
    lemma_string_scan(b, raws, i + m + 1, i, o, x, a + 1, false, e);
    lemma_flush(b, raws, i + (e - cur), i, i + (e - cur), false, false, o);
}

/// An aliased literal, written `@<n>`, expands to the literal.
#[verifier::spinoff_prover]
#[verifier::rlimit(60)]
proof fn lemma_scan_alias(
    b: Seq<char>,
    raws: Seq<Seq<char>>,
    i: int,
    x: Seq<char>,
    cur: int,
    a: int,
    e: int,
    n: nat,
    r2: Seq<char>,
)
    requires
        0 <= cur <= a < e <= x.len(),
        byte_len(x) <= MAX_C1_BYTES,
        1 <= n <= raws.len(),
        raws.len() < usize::MAX,
        raws[n - 1] == x.subrange(a, e),
        0 <= i <= b.len(),
        b.skip(i) == x.subrange(cur, a) + (seq!['@'] + decimal(n)) + r2,
        r2.len() == 0 || !is_ascii_digit(r2[0]),
        forall|p: int| cur <= p < a ==> #[trigger] x[p] != '"' && x[p] != '@',
    ensures
        ({
            let i2 = i + (a - cur) + 1 + decimal(n).len();
            &&& i2 <= b.len()
            &&& b.skip(i2) == r2
            &&& expand_from(b, raws, i, i, false, false, x.take(cur)) == expand_from(
                b,
                raws,
                i2,
                i2,
                false,
                false,
                x.take(e),
            )
        }),
{
    let dec = decimal(n);
    lemma_decimal(n);
    lemma_parse_decimal(n);
    let m = a - cur;
    let pos = i + m;
    let i2 = pos + 1 + dec.len();
    assert(b.skip(i).len() == b.len() - i);
    assert forall|q: int| i <= q < pos implies #[trigger] b[q] != '"' && b[q] != '@' by {
        assert(b[q] == b.skip(i)[q - i]);
        assert(b.skip(i)[q - i] == x[cur + (q - i)]);
    }
    lemma_plain_scan(b, raws, i, m, i, x.take(cur));
    lemma_flush(b, raws, pos, i, pos, false, false, x.take(cur));
    assert(b.subrange(i, pos) =~= x.subrange(cur, a));
    assert(x.take(cur) + x.subrange(cur, a) =~= x.take(a));
    assert(b[pos] == b.skip(i)[m]);
    assert(b[pos] == '@');
    assert(b.subrange(pos, pos) =~= x.subrange(a, a));
    lemma_grow_prefix(x, a, a);
    assert(x.take(a) + x.subrange(a, a) =~= x.take(a));
    let t = b.skip(i);
    assert(x.subrange(cur, a).len() == m);
    assert(t.skip(m + 1) =~= dec + r2);
    assert(b.skip(pos + 1) =~= t.skip(m + 1)) by {
        assert forall|q: int| 0 <= q < b.skip(pos + 1).len() implies #[trigger] b.skip(pos + 1)[q] == t.skip(
            m + 1,
        )[q] by {
            assert(b.skip(pos + 1)[q] == b[pos + 1 + q]);
            assert(t[m + 1 + q] == b[i + (m + 1 + q)]);
        }
    }
    lemma_digits_then(dec, r2);
    assert(b.subrange(pos + 1, pos + 1 + dec.len()) =~= dec) by {
        assert forall|q: int| 0 <= q < dec.len() implies b.subrange(pos + 1, pos + 1 + dec.len())[q]
            == dec[q] by {
            assert(b.skip(pos + 1)[q] == (dec + r2)[q]);
        }
    }
    lemma_grow_prefix(x, a, e);
    assert(b.skip(i2) =~= r2) by {
        assert forall|q: int| 0 <= q < r2.len() implies b.skip(i2)[q] == r2[q] by {
            assert(b.skip(pos + 1)[dec.len() + q] == (dec + r2)[dec.len() + q]);
        }
    }
}

/// The hypotheses shared by the steps of the expansion.
#[verifier::opaque]
spec fn expand_setting(x: Seq<char>, sp: Seq<(int, int)>, raws: Seq<Seq<char>>, j: int, cur: int) -> bool {
    &&& placed(x, sp)
    &&& byte_len(x) <= MAX_C1_BYTES
    &&& raws.len() < usize::MAX
    &&& forall|y: Seq<char>|
        #[trigger] raws.contains(y) ==> 0 <= position_of(raws, y) < raws.len() && raws[position_of(
            raws,
            y,
        )] == y
    &&& 0 <= j <= sp.len()
    &&& (0 < j ==> cur == sp[j - 1].1)
    &&& (j == 0 ==> cur == 0)
    &&& (j < sp.len() ==> cur <= sp[j].0)
    &&& 0 <= cur <= x.len()
}

#[verifier::spinoff_prover]
#[verifier::rlimit(100)]
proof fn lemma_expand_tail(
    x: Seq<char>,
    sp: Seq<(int, int)>,
    raws: Seq<Seq<char>>,
    b: Seq<char>,
    cur: int,
    i: int,
)
    requires
        expand_setting(x, sp, raws, sp.len() as int, cur),
        0 <= i <= b.len(),
        b.skip(i) == rewrite(x, sp, raws, sp.len() as int, cur),
    ensures
        expand_from(b, raws, i, i, false, false, x.take(cur)) == Ok::<Seq<char>, Seq<char>>(x),
{
    reveal(expand_setting);
    let j = sp.len() as int;
    lemma_gap_plain(x, sp, j, cur, x.len() as int);
    assert(b.skip(i) == x.subrange(cur, x.len() as int));
    assert(b.skip(i).len() == b.len() - i);
    let m = x.len() - cur;
    assert forall|q: int| i <= q < i + m implies #[trigger] b[q] != '"' && b[q] != '@' by {
        assert(b[q] == b.skip(i)[q - i]);
        assert(b.skip(i)[q - i] == x[cur + (q - i)]);
    }
    lemma_plain_scan(b, raws, i, m, i, x.take(cur));
    assert(b.subrange(i, b.len() as int) =~= x.subrange(cur, x.len() as int));
    lemma_grow_prefix(x, cur, x.len() as int);
    assert(x.take(x.len() as int) =~= x);
}

#[verifier::spinoff_prover]
#[verifier::rlimit(100)]
proof fn lemma_step_kept(
    x: Seq<char>,
    sp: Seq<(int, int)>,
    raws: Seq<Seq<char>>,
    b: Seq<char>,
    j: int,
    cur: int,
    i: int,
)
    requires
        expand_setting(x, sp, raws, j, cur),
        j < sp.len(),
        !raws.contains(x.subrange(sp[j].0, sp[j].1)),
        0 <= i <= b.len(),
        b.skip(i) == rewrite(x, sp, raws, j, cur),
    ensures
        expand_setting(x, sp, raws, j + 1, sp[j].1),
        ({
            let i2 = i + (sp[j].1 - cur);
            &&& i <= i2 <= b.len()
            &&& b.skip(i2) == rewrite(x, sp, raws, j + 1, sp[j].1)
            &&& expand_from(b, raws, i, i, false, false, x.take(cur)) == expand_from(
                b,
                raws,
                i2,
                i2,
                false,
                false,
                x.take(sp[j].1),
            )
        }),
{
    reveal(expand_setting);
    if j + 1 < sp.len() {
        assert(sp[j].1 <= sp[j + 1].0);
    }
    let a = sp[j].0;
    let e = sp[j].1;
    let lit = x.subrange(a, e);
    let r2 = rewrite(x, sp, raws, j + 1, e);
    lemma_gap_plain(x, sp, j, cur, a);
    assert(b.skip(i) == x.subrange(cur, a) + lit + r2);
    lemma_kept_parts(b, i, x, cur, a, e, r2);
    lemma_scan_kept(b, raws, i, x, cur, a, e, x.take(cur));
    assert(x.take(cur) + x.subrange(cur, e) =~= x.take(e));
}

proof fn lemma_kept_parts(b: Seq<char>, i: int, x: Seq<char>, cur: int, a: int, e: int, r2: Seq<char>)
    requires
        0 <= cur <= a <= e <= x.len(),
        0 <= i <= b.len(),
        b.skip(i) == x.subrange(cur, a) + x.subrange(a, e) + r2,
    ensures
        i + (e - cur) <= b.len(),
        b.subrange(i, i + (e - cur)) == x.subrange(cur, e),
        b.skip(i + (e - cur)) == r2,
{
    assert(b.skip(i).len() == b.len() - i);
    let i2 = i + (e - cur);
    assert(b.subrange(i, i2) =~= x.subrange(cur, e)) by {
        assert forall|q: int| 0 <= q < e - cur implies #[trigger] b.subrange(i, i2)[q] == x.subrange(
            cur,
            e,
        )[q] by {
            assert(b.subrange(i, i2)[q] == b.skip(i)[q]);
        }
    }
    assert(b.skip(i2) =~= r2) by {
        assert forall|q: int| 0 <= q < r2.len() implies #[trigger] b.skip(i2)[q] == r2[q] by {
            assert(b.skip(i2)[q] == b.skip(i)[(e - cur) + q]);
        }
    }
}

#[verifier::spinoff_prover]
#[verifier::rlimit(60)]
proof fn lemma_step_alias(
    x: Seq<char>,
    sp: Seq<(int, int)>,
    raws: Seq<Seq<char>>,
    b: Seq<char>,
    j: int,
    cur: int,
    i: int,
) -> (i2: int)
    requires
        expand_setting(x, sp, raws, j, cur),
        j < sp.len(),
        raws.contains(x.subrange(sp[j].0, sp[j].1)),
        0 <= i <= b.len(),
        b.skip(i) == rewrite(x, sp, raws, j, cur),
    ensures
        expand_setting(x, sp, raws, j + 1, sp[j].1),
        i <= i2 <= b.len(),
        b.skip(i2) == rewrite(x, sp, raws, j + 1, sp[j].1),
        expand_from(b, raws, i, i, false, false, x.take(cur)) == expand_from(
            b,
            raws,
            i2,
            i2,
            false,
            false,
            x.take(sp[j].1),
        ),
{
    reveal(expand_setting);
    let a = sp[j].0;
    let e = sp[j].1;
    let lit = x.subrange(a, e);
    let r2 = rewrite(x, sp, raws, j + 1, e);
    lemma_gap_plain(x, sp, j, cur, a);
    if j + 1 < sp.len() {
        assert(sp[j].1 <= sp[j + 1].0);
    }
    let n = (position_of(raws, lit) + 1) as nat;
    assert(b.skip(i) == x.subrange(cur, a) + (seq!['@'] + decimal(n)) + r2);
    lemma_rewrite_head(x, sp, raws, j + 1, e);
    if r2.len() > 0 {
        if e < x.len() && r2[0] == x[e] {
            assert(!is_ascii_digit(x[sp[j].1]));
        }
    }
    lemma_scan_alias(b, raws, i, x, cur, a, e, n, r2);
    i + (a - cur) + 1 + decimal(n).len()
}

#[verifier::spinoff_prover]
proof fn lemma_expand_spans(
    x: Seq<char>,
    sp: Seq<(int, int)>,
    raws: Seq<Seq<char>>,
    b: Seq<char>,
    j: int,
    cur: int,
    i: int,
)
    requires
        expand_setting(x, sp, raws, j, cur),
        0 <= i <= b.len(),
        b.skip(i) == rewrite(x, sp, raws, j, cur),
    ensures
        expand_from(b, raws, i, i, false, false, x.take(cur)) == Ok::<Seq<char>, Seq<char>>(x),
    decreases sp.len() - j,
{
    assert(0 <= j <= sp.len()) by {
        reveal(expand_setting);
    }
    if j >= sp.len() {
        lemma_expand_tail(x, sp, raws, b, cur, i);
    } else {
        if raws.contains(x.subrange(sp[j].0, sp[j].1)) {
            let i2 = lemma_step_alias(x, sp, raws, b, j, cur, i);
            lemma_expand_spans(x, sp, raws, b, j + 1, sp[j].1, i2);
        } else {
            lemma_step_kept(x, sp, raws, b, j, cur, i);
            lemma_expand_spans(x, sp, raws, b, j + 1, sp[j].1, i + (sp[j].1 - cur));
        }
    }
}

proof fn lemma_cands_distinct(lits: Seq<Seq<char>>, cands: Seq<(Seq<char>, nat, nat)>)
    requires
        candidate_order(lits, cands),
    ensures
        forall|a: int, b: int| 0 <= a < b < cands.len() ==> (#[trigger] cands[a]).0 != (#[trigger] cands[b]).0,
{
    assert forall|a: int, b: int| 0 <= a < b < cands.len() implies (#[trigger] cands[a]).0
        != (#[trigger] cands[b]).0 by {
        if cands[a].0 == cands[b].0 {
            assert(cand_before(cands[a], cands[b]));
            crate::text::lemma_seq_less_irreflexive(cands[a].0);
        }
    }
}

/// What `select` keeps: the chosen entries come from the candidates, in
/// order, so their literals stay distinct.
proof fn lemma_select_props(cands: Seq<(Seq<char>, nat, nat)>, sel: Seq<(Seq<char>, nat, nat)>)
    requires
        forall|a: int, b: int| 0 <= a < b < cands.len() ==> (#[trigger] cands[a]).0 != (#[trigger] cands[b]).0,
        forall|a: int, b: int| 0 <= a < b < sel.len() ==> (#[trigger] sel[a]).0 != (#[trigger] sel[b]).0,
        forall|m: int, k: int| 0 <= m < sel.len() && 0 <= k < cands.len() ==> (#[trigger] sel[m]).0 != (
        #[trigger] cands[k]).0,
    ensures
        ({
            let r = select(cands, sel);
            &&& sel.len() <= r.len()
            &&& forall|m: int| 0 <= m < sel.len() ==> #[trigger] r[m] == sel[m]
            &&& forall|m: int|
                sel.len() <= m < r.len() ==> exists|k: int| 0 <= k < cands.len() && (#[trigger] r[m]).0 == cands[k].0
            &&& forall|a: int, b: int| 0 <= a < b < r.len() ==> (#[trigger] r[a]).0 != (#[trigger] r[b]).0
        }),
    decreases cands.len(),
{
    if cands.len() > 0 {
        let c = cands[0];
        let rest = cands.drop_first();
        assert forall|a: int, b: int| 0 <= a < b < rest.len() implies (#[trigger] rest[a]).0 != (
        #[trigger] rest[b]).0 by {
            assert(rest[a] == cands[a + 1] && rest[b] == cands[b + 1]);
        }
        match net_savings(byte_len(c.0), c.1, sel.len() + 1) {
            Some(n) => {
                let s2 = sel.push((c.0, c.1, n));
                assert forall|a: int, b: int| 0 <= a < b < s2.len() implies (#[trigger] s2[a]).0 != (
                #[trigger] s2[b]).0 by {
                    if b == sel.len() {
                        assert(sel[a].0 != cands[0].0);
                    } else {
                        assert(s2[a] == sel[a] && s2[b] == sel[b]);
                    }
                }
                assert forall|m: int, k: int| 0 <= m < s2.len() && 0 <= k < rest.len() implies (
                #[trigger] s2[m]).0 != (#[trigger] rest[k]).0 by {
                    assert(rest[k] == cands[k + 1]);
                    if m < sel.len() {
                        assert(s2[m] == sel[m]);
                    }
                }
                lemma_select_props(rest, s2);
                let r = select(cands, sel);
                assert(r == select(rest, s2));
                assert forall|m: int| sel.len() <= m < r.len() implies exists|k: int|
                    0 <= k < cands.len() && (#[trigger] r[m]).0 == cands[k].0 by {
                    if m == sel.len() {
                        assert(r[m] == s2[m]);
                        assert(r[m].0 == cands[0].0);
                    } else {
                        let k = choose|k: int| 0 <= k < rest.len() && r[m].0 == rest[k].0;
                        assert(rest[k] == cands[k + 1]);
                    }
                }
                assert forall|m: int| 0 <= m < sel.len() implies #[trigger] r[m] == sel[m] by {
                    assert(r[m] == s2[m]);
                }
            },
            None => {
                assert forall|m: int, k: int| 0 <= m < sel.len() && 0 <= k < rest.len() implies (
                #[trigger] sel[m]).0 != (#[trigger] rest[k]).0 by {
                    assert(rest[k] == cands[k + 1]);
                }
                lemma_select_props(rest, sel);
                let r = select(cands, sel);
                assert(r == select(rest, sel));
                assert forall|m: int| sel.len() <= m < r.len() implies exists|k: int|
                    0 <= k < cands.len() && (#[trigger] r[m]).0 == cands[k].0 by {
                    let k = choose|k: int| 0 <= k < rest.len() && r[m].0 == rest[k].0;
                    assert(rest[k] == cands[k + 1]);
                }
            },
        }
    }
}

proof fn lemma_header_len(raws: Seq<Seq<char>>, k: int)
    requires
        0 <= k <= raws.len(),
    ensures
        header_from(raws, k).len() >= raws.len() - k,
    decreases raws.len() - k,
{
    if k < raws.len() {
        lemma_header_len(raws, k + 1);
    }
}

#[verifier::spinoff_prover]
#[verifier::rlimit(60)]
proof fn lemma_placed_from(input: Seq<char>, sp: Seq<(int, int)>)
    requires
        spans_from(input, 0) == Some(sp),
        round_trip_text(input, sp),
    ensures
        placed(input, sp),
{
    lemma_spans_facts(input, 0);
    assert forall|p: int|
        0 <= p < input.len() && (forall|k: int|
            0 <= k < sp.len() ==> !((#[trigger] sp[k]).0 <= p < sp[k].1)) implies #[trigger] input[p]
        != '"' && input[p] != '@' by {
        if input[p] == '"' {
            let k = choose|k: int| 0 <= k < sp.len() && (#[trigger] sp[k]).0 <= p < sp[k].1;
            assert(!(sp[k].0 <= p < sp[k].1));
        }
        if input[p] == '@' {
            let k = choose|k: int| 0 <= k < sp.len() && (#[trigger] sp[k]).0 <= p < sp[k].1;
            assert(!(sp[k].0 <= p < sp[k].1));
        }
    }
}

#[verifier::spinoff_prover]
#[verifier::rlimit(60)]
proof fn lemma_body_prefix(input: Seq<char>, sp: Seq<(int, int)>, raws: Seq<Seq<char>>)
    requires
        "C1\n"@.is_prefix_of(input),
        placed(input, sp),
    ensures
        "C1\n"@.is_prefix_of(rewrite(input, sp, raws, 0, 0)),
{
    reveal_strlit("C1\n");
    let body = rewrite(input, sp, raws, 0, 0);
    assert(input.subrange(0, 3) =~= "C1\n"@);
    if sp.len() > 0 {
        assert(sp[0].0 >= 3) by {
            if sp[0].0 < 3 {
                assert(input[sp[0].0] == input.subrange(0, 3)[sp[0].0]);
            }
        }
        let lit = input.subrange(sp[0].0, sp[0].1);
        let rep = if raws.contains(lit) {
            seq!['@'] + decimal((position_of(raws, lit) + 1) as nat)
        } else {
            lit
        };
        assert(body == input.subrange(0, sp[0].0) + rep + rewrite(input, sp, raws, 1, sp[0].1));
        assert(body.subrange(0, 3) =~= "C1\n"@) by {
            assert forall|q: int| 0 <= q < 3 implies body.subrange(0, 3)[q] == "C1\n"@[q] by {
                assert(body[q] == input.subrange(0, sp[0].0)[q]);
                assert(input[q] == input.subrange(0, 3)[q]);
            }
        }
    } else {
        assert(body == input.subrange(0, input.len() as int));
        assert(body.subrange(0, 3) =~= "C1\n"@);
    }
}

#[verifier::spinoff_prover]
#[verifier::rlimit(60)]
proof fn lemma_raws_fit(input: Seq<char>, sp: Seq<(int, int)>, raws: Seq<Seq<char>>)
    requires
        round_trip_text(input, sp),
        forall|m: int|
            0 <= m < raws.len() ==> exists|k: int|
                0 <= k < sp.len() && #[trigger] raws[m] == input.subrange(sp[k].0, sp[k].1),
        byte_len("C1A\n"@ + header_from(raws, 0) + rewrite(input, sp, raws, 0, 0)) < byte_len(input),
    ensures
        raws.len() < usize::MAX,
        forall|m: int| 0 <= m < raws.len() ==> canonical_literal(#[trigger] raws[m]),
{
    let header = header_from(raws, 0);
    let body = rewrite(input, sp, raws, 0, 0);
    assert forall|m: int| 0 <= m < raws.len() implies canonical_literal(#[trigger] raws[m]) by {
        let k = choose|k: int| 0 <= k < sp.len() && raws[m] == input.subrange(sp[k].0, sp[k].1);
        assert(canonical_literal(input.subrange(sp[k].0, sp[k].1)));
    }
    lemma_header_len(raws, 0);
    lemma_byte_len_concat("C1A\n"@ + header, body);
    lemma_byte_len_concat("C1A\n"@, header);
    crate::text::lemma_byte_len_at_least_len(header);
}

#[verifier::spinoff_prover]
#[verifier::rlimit(100)]
proof fn lemma_packet_expansion(
    header: Seq<char>,
    body: Seq<char>,
    raws: Seq<Seq<char>>,
    input: Seq<char>,
)
    requires
        alias_defs(header + body, Seq::empty()) == Ok::<(Seq<Seq<char>>, Seq<char>), Seq<char>>(
            (raws, body),
        ),
        raws.len() > 0,
        byte_len("C1A\n"@ + header + body) <= MAX_C1_BYTES,
        "C1\n"@.is_prefix_of(body),
        expand_from(body, raws, 0, 0, false, false, Seq::empty()) == Ok::<Seq<char>, Seq<char>>(input),
    ensures
        c1_expansion("C1A\n"@ + header + body) == Ok::<Seq<char>, Seq<char>>(input),
{
    reveal_strlit("C1A\n");
    reveal_strlit("C1\n");
    let encoded = "C1A\n"@ + header + body;
    assert(encoded.skip(4) =~= header + body);
    assert(!"C1\n"@.is_prefix_of(encoded)) by {
        assert(encoded[2] == 'A');
        if "C1\n"@.is_prefix_of(encoded) {
            assert("C1\n"@ == encoded.subrange(0, 3));
            assert(encoded.subrange(0, 3)[2] == encoded[2]);
        }
    }
    assert("C1A\n"@.is_prefix_of(encoded)) by {
        assert(encoded.subrange(0, 4) =~= "C1A\n"@);
    }
    assert(alias_defs(encoded.skip(4), Seq::empty()) == Ok::<(Seq<Seq<char>>, Seq<char>), Seq<char>>(
        (raws, body),
    ));
    assert(body_expansion(body, raws) == Ok::<Seq<char>, Seq<char>>(input));
}

/// The packet of the selected literals `raws`, expanded, gives the text back.
#[verifier::spinoff_prover]
#[verifier::rlimit(100)]
proof fn lemma_aliased_expansion(input: Seq<char>, sp: Seq<(int, int)>, raws: Seq<Seq<char>>)
    requires
        "C1\n"@.is_prefix_of(input),
        spans_from(input, 0) == Some(sp),
        round_trip_text(input, sp),
        raws.len() > 0,
        raws.no_duplicates(),
        forall|m: int|
            0 <= m < raws.len() ==> exists|k: int|
                0 <= k < sp.len() && #[trigger] raws[m] == input.subrange(sp[k].0, sp[k].1),
        byte_len("C1A\n"@ + header_from(raws, 0) + rewrite(input, sp, raws, 0, 0)) < byte_len(input),
    ensures
        c1_expansion("C1A\n"@ + header_from(raws, 0) + rewrite(input, sp, raws, 0, 0))
            == Ok::<Seq<char>, Seq<char>>(input),
{
    let body = rewrite(input, sp, raws, 0, 0);
    let header = header_from(raws, 0);
    lemma_placed_from(input, sp);
    lemma_raws_fit(input, sp, raws);
    lemma_body_prefix(input, sp, raws);
    lemma_header_defs(raws, 0, body);
    assert(raws.take(0) =~= Seq::<Seq<char>>::empty());
    assert forall|y: Seq<char>| #[trigger] raws.contains(y) implies 0 <= position_of(raws, y)
        < raws.len() && raws[position_of(raws, y)] == y by {
        lemma_position_of(raws, y);
    }
    assert(expand_setting(input, sp, raws, 0, 0)) by {
        reveal(expand_setting);
    }
    assert(body.skip(0) =~= body);
    lemma_expand_spans(input, sp, raws, body, 0, 0, 0);
    assert(input.take(0) =~= Seq::<char>::empty());
    lemma_packet_expansion(header, body, raws, input);
}

/// Expanding what `alias_canonical_c1` made of a canonical C1 text gives the
/// text back, when the text fits the transport limit, holds no `@` outside
/// its string literals, has no digit right after a literal, and writes every
/// literal in the canonical encoding of its value.
pub proof fn lemma_alias_round_trip(input: Seq<char>, r: Result<AliasTransform, AliasError>)
    requires
        alias_outcome(input, r),
        r is Ok,
        round_trip_text(input, spans_from(input, 0)->0),
    ensures
        r matches Ok(t) && c1_expansion(t@.encoded) == Ok::<Seq<char>, Seq<char>>(input),
{
    reveal_strlit("C1\n");
    let sp = spans_from(input, 0)->0;
    let lits = literals(input, sp);
    let cands = choose|cands: Seq<(Seq<char>, nat, nat)>|
        candidate_order(literals(input, sp), cands) && match transform_with(input, sp, cands) {
            Ok(t) => r matches Ok(x) && x@ == t,
            Err(m) => r matches Err(e) && e.spec_message() == m,
        };
    let sel = select(cands, Seq::empty());
    let t = r->Ok_0;
    if sel.len() == 0 {
        assert(t@ == plain(input));
    } else {
        let raws = sel.map_values(|c: (Seq<char>, nat, nat)| c.0);
        let encoded = "C1A\n"@ + header_from(raws, 0) + rewrite(input, sp, raws, 0, 0);
        if byte_len(encoded) >= byte_len(input) {
            assert(t@ == plain(input));
        } else {
            assert(t@.encoded == encoded);
            lemma_cands_distinct(lits, cands);
            lemma_select_props(cands, Seq::empty());
            assert(raws.no_duplicates()) by {
                assert forall|a: int, b: int| 0 <= a < raws.len() && 0 <= b < raws.len() && a != b implies raws[a]
                    != raws[b] by {
                    if a < b {
                        assert(sel[a].0 != sel[b].0);
                    } else {
                        assert(sel[b].0 != sel[a].0);
                    }
                }
            }
            assert forall|m: int| 0 <= m < raws.len() implies exists|k: int|
                0 <= k < sp.len() && #[trigger] raws[m] == input.subrange(sp[k].0, sp[k].1) by {
                let k = choose|k: int| 0 <= k < cands.len() && sel[m].0 == cands[k].0;
                assert(is_candidate(lits, cands[k].0));
                assert(lits.contains(raws[m]));
                let k2 = choose|k2: int| 0 <= k2 < lits.len() && lits[k2] == raws[m];
                assert(lits[k2] == input.subrange(sp[k2].0, sp[k2].1));
            }
            lemma_aliased_expansion(input, sp, raws);
        }
    }
}

} // verus!
