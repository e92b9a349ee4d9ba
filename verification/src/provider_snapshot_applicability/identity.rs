//! The identity of a provider's active-work population: canonical JSON
//! documents for the selection contract and for the work facts, each
//! digested with SHA-256, and a composition of the two digests.
use vstd::prelude::*;

use sha2::Digest;

use crate::text::{
    all_digits, byte_len, byte_len_at_most, chars_eq, chars_less, chars_of, decimal, extend_chars,
    extend_str, is_ascii_digit, is_ascii_hex, is_ascii_hex_exec, is_control, is_control_exec,
    lower, lower_char, lowercase, push_decimal, seq_less, slice_chars, split_chars, split_on, starts_with,
    string_of,
};
use crate::validate::{
    count_matching, either, first_error, lemma_count_matching_bound, lemma_count_matching_step,
    lemma_first_error_stable, lemma_first_error_step, msg, repeats_earlier, repeats_earlier_exec,
    strings_view,
};
use super::{identity_error, ProviderSnapshotIdentity};

verus! {

pub const SELECTION_SCHEMA_VERSION: u32 = 0;

pub const WORK_FACT_SCHEMA_VERSION: u32 = 0;

pub const SNAPSHOT_COMPOSITION_SCHEMA_VERSION: u32 = 0;

pub const MAX_CHANGED_PATH_BYTES: usize = 4096;

pub const MAX_SOURCE_BYTES: usize = 512;

#[derive(Clone, Copy, Debug, Eq, PartialEq, Structural)]
pub enum ProviderKind {
    Github,
}

#[derive(Clone, Copy, Debug, Eq, PartialEq, Structural)]
pub enum WorkKind {
    PullRequest,
}

#[derive(Clone, Copy, Debug, Eq, PartialEq, Structural)]
pub enum ProviderState {
    Open,
    Closed,
}

#[derive(Clone, Copy, Debug, Eq, PartialEq, Structural)]
pub enum DraftPolicy {
    Include,
    Exclude,
    Only,
}

#[derive(Clone, Copy, Debug, Eq, PartialEq, Structural)]
pub enum TraversalMode {
    Exhaustive,
    Bounded,
}

#[derive(Clone, Copy, Debug, Eq, PartialEq, Structural)]
pub enum OrderField {
    UpdatedAt,
    CreatedAt,
}

#[derive(Clone, Copy, Debug, Eq, PartialEq, Structural)]
pub enum OrderDirection {
    Asc,
    Desc,
}

#[derive(Clone, Copy, Debug, Eq, PartialEq, Structural)]
pub enum TieBreakField {
    LocalWorkNumber,
}

#[derive(Clone, Copy, Debug, Eq, PartialEq, Structural)]
pub struct TieBreak {
    pub field: TieBreakField,
    pub direction: OrderDirection,
}

#[derive(Debug)]
pub struct ProviderSelection {
    pub provider_kind: ProviderKind,
    pub provider_instance: String,
    pub collection: String,
    pub work_kind: WorkKind,
    pub states: Vec<ProviderState>,
    pub draft_policy: DraftPolicy,
    pub traversal_mode: TraversalMode,
    pub page_size: u32,
    pub max_items: Option<u32>,
    pub order_field: OrderField,
    pub order_direction: OrderDirection,
    pub tie_break: Option<TieBreak>,
}

#[derive(Clone, Copy, Debug, Eq, PartialEq, Structural)]
pub enum Activity {
    ConfirmedActive,
    Preparation,
    Unresolved,
}

#[derive(Clone, Copy, Debug, Eq, PartialEq, Structural)]
pub enum CoordinationKind {
    DependsOn,
    Blocks,
    HoldMergeWhile,
    Supersedes,
}

#[derive(Debug)]
pub struct ProviderWorkFact {
    pub id: String,
    pub head_sha: String,
    pub activity: Activity,
    pub changed_paths: Vec<String>,
}

#[derive(Debug)]
pub struct ProviderCoordination {
    pub kind: CoordinationKind,
    pub from: String,
    pub to: String,
    pub source: String,
}

#[derive(Debug)]
pub struct ProviderSnapshotFacts {
    pub selection: ProviderSelection,
    pub work: Vec<ProviderWorkFact>,
    pub coordination_edges: Vec<ProviderCoordination>,
}

/// Why the facts do not determine an identity.
#[derive(Debug)]
pub struct ProviderSnapshotIdentityBuildError {
    message: String,
}

impl ProviderSnapshotIdentityBuildError {
    pub closed spec fn spec_message(&self) -> Seq<char> {
        self.message@
    }

    fn new(message: Vec<char>) -> (e: ProviderSnapshotIdentityBuildError)
        ensures
            e.spec_message() == message@,
    {
        ProviderSnapshotIdentityBuildError { message: string_of(message.as_slice()) }
    }

    /// The refusal's text.
    pub fn to_string(&self) -> (s: String)
        ensures
            s@ == self.spec_message(),
    {
        self.message.clone()
    }
}

// ---------------------------------------------------------------------------
// Digests.

/// The SHA-256 digest of `data`, as `sha2::Sha256` computes it.
pub uninterp spec fn sha256(data: Seq<u8>) -> Seq<u8>;

/// `sha2::Sha256::digest`: the 32-byte SHA-256 digest of `data`.
#[verifier::external_body]
pub(crate) fn sha256_digest(data: &[u8]) -> (r: Vec<u8>)
    ensures
        r@ == sha256(data@),
        r@.len() == 32,
{
    sha2::Sha256::digest(data).to_vec()
}

pub open spec fn hex_digit(n: nat) -> char {
    if n < 10 {
        (48 + n) as char
    } else {
        (87 + n) as char
    }
}

/// Lowercase hexadecimal, two digits per byte.
pub open spec fn hex_lower(bytes: Seq<u8>) -> Seq<char>
    decreases bytes.len(),
{
    if bytes.len() == 0 {
        Seq::empty()
    } else {
        hex_lower(bytes.drop_last()) + seq![
            hex_digit((bytes.last() / 16) as nat),
            hex_digit((bytes.last() % 16) as nat),
        ]
    }
}

fn hex_digit_exec(n: u8) -> (c: char)
    requires
        n < 16,
    ensures
        c == hex_digit(n as nat),
        crate::text::is_lower_hex(c),
{
    if n < 10 {
        (48u8 + n) as char
    } else {
        (87u8 + n) as char
    }
}

pub(crate) fn hex_encode(bytes: &[u8]) -> (r: Vec<char>)
    ensures
        r@ == hex_lower(bytes@),
        r@.len() == 2 * bytes@.len(),
        forall|i: int| 0 <= i < r@.len() ==> crate::text::is_lower_hex(#[trigger] r@[i]),
{
    let mut r: Vec<char> = Vec::new();
    let mut i: usize = 0;
    while i < bytes.len()
        invariant
            i <= bytes@.len(),
            r@ == hex_lower(bytes@.take(i as int)),
            r@.len() == 2 * i,
            forall|k: int| 0 <= k < r@.len() ==> crate::text::is_lower_hex(#[trigger] r@[k]),
        decreases bytes.len() - i,
    {
        assert(bytes@.take(i + 1).drop_last() == bytes@.take(i as int));
        let b = bytes[i];
        r.push(hex_digit_exec(b / 16));
        r.push(hex_digit_exec(b % 16));
        i = i + 1;
    }
    assert(bytes@.take(i as int) == bytes@);
    r
}

/// The lowercase hex SHA-256 digest of a document's UTF-8 text.
pub open spec fn digest_hex(text: Seq<char>) -> Seq<char> {
    hex_lower(sha256(vstd::utf8::encode_utf8(text)))
}

fn digest_text(text: &[char]) -> (r: Vec<char>)
    ensures
        r@ == digest_hex(text@),
        r@.len() == 64,
        forall|i: int| 0 <= i < r@.len() ==> crate::text::is_lower_hex(#[trigger] r@[i]),
{
    let s = string_of(text);
    let bytes = s.as_str().as_bytes();
    let digest = sha256_digest(bytes);
    hex_encode(digest.as_slice())
}

// ---------------------------------------------------------------------------
// JSON text, as `serde_json` writes it compactly.

pub open spec fn json_escape_char(c: char) -> Seq<char> {
    let u = c as u32;
    if c == '"' {
        seq!['\\', '"']
    } else if c == '\\' {
        seq!['\\', '\\']
    } else if c == '\n' {
        seq!['\\', 'n']
    } else if c == '\r' {
        seq!['\\', 'r']
    } else if c == '\t' {
        seq!['\\', 't']
    } else if u == 8 {
        seq!['\\', 'b']
    } else if u == 12 {
        seq!['\\', 'f']
    } else if u < 32 {
        seq!['\\', 'u', '0', '0', hex_digit((u / 16) as nat), hex_digit((u % 16) as nat)]
    } else {
        seq![c]
    }
}

pub open spec fn json_escape(s: Seq<char>) -> Seq<char>
    decreases s.len(),
{
    if s.len() == 0 {
        Seq::empty()
    } else {
        json_escape(s.drop_last()) + json_escape_char(s.last())
    }
}

/// A JSON string literal.
pub open spec fn json_string(s: Seq<char>) -> Seq<char> {
    seq!['"'] + json_escape(s) + seq!['"']
}

/// Items separated by commas.
pub open spec fn json_join(items: Seq<Seq<char>>) -> Seq<char>
    decreases items.len(),
{
    if items.len() == 0 {
        Seq::empty()
    } else if items.len() == 1 {
        items[0]
    } else {
        json_join(items.drop_last()) + seq![','] + items.last()
    }
}

fn push_json_escape_char(out: &mut Vec<char>, c: char)
    ensures
        final(out)@ == old(out)@ + json_escape_char(c),
{
    let u = c as u32;
    if c == '"' {
        out.push('\\');
        out.push('"');
    } else if c == '\\' {
        out.push('\\');
        out.push('\\');
    } else if c == '\n' {
        out.push('\\');
        out.push('n');
    } else if c == '\r' {
        out.push('\\');
        out.push('r');
    } else if c == '\t' {
        out.push('\\');
        out.push('t');
    } else if u == 8 {
        out.push('\\');
        out.push('b');
    } else if u == 12 {
        out.push('\\');
        out.push('f');
    } else if u < 32 {
        out.push('\\');
        out.push('u');
        out.push('0');
        out.push('0');
        out.push(hex_digit_exec((u / 16) as u8));
        out.push(hex_digit_exec((u % 16) as u8));
    } else {
        out.push(c);
    }
}

pub(crate) fn push_json_string(out: &mut Vec<char>, s: &[char])
    ensures
        final(out)@ == old(out)@ + json_string(s@),
{
    let ghost start = out@;
    out.push('"');
    let mut i: usize = 0;
    while i < s.len()
        invariant
            i <= s@.len(),
            out@ == start + seq!['"'] + json_escape(s@.take(i as int)),
        decreases s.len() - i,
    {
        assert(s@.take(i + 1).drop_last() == s@.take(i as int));
        push_json_escape_char(out, s[i]);
        i = i + 1;
    }
    assert(s@.take(i as int) == s@);
    out.push('"');
}

// ---------------------------------------------------------------------------
// The selection contract.

pub open spec fn is_ascii_alnum(c: char) -> bool {
    let u = c as u32;
    (48 <= u <= 57) || (65 <= u <= 90) || (97 <= u <= 122)
}

fn is_ascii_alnum_exec(c: char) -> (r: bool)
    ensures
        r == is_ascii_alnum(c),
{
    let u = c as u32;
    (48 <= u && u <= 57) || (65 <= u && u <= 90) || (97 <= u && u <= 122)
}

pub open spec fn host_error() -> Seq<char> {
    "provider instance must be a canonical host name"@
}

/// A DNS label: 1 to 63 ASCII letters, digits or `-`, starting and ending
/// with a letter or digit (ASCII, so characters and bytes coincide).
pub open spec fn host_label_ok(l: Seq<char>) -> bool {
    &&& 1 <= l.len() <= 63
    &&& forall|i: int| 0 <= i < l.len() ==> is_ascii_alnum(#[trigger] l[i]) || l[i] == '-'
    &&& is_ascii_alnum(l[0])
    &&& is_ascii_alnum(l.last())
}

/// The host without one trailing dot.
pub open spec fn strip_trailing_dot(v: Seq<char>) -> Seq<char> {
    if v.len() > 0 && v.last() == '.' {
        v.drop_last()
    } else {
        v
    }
}

/// Every `.`-separated label of `h` is a DNS label.
pub open spec fn host_labels_ok(h: Seq<char>) -> bool {
    forall|i: int| 0 <= i < split_on(h, '.').len() ==> host_label_ok(#[trigger] split_on(h, '.')[i])
}

/// The provider host without one trailing dot, lowercased; refused unless
/// every `.`-separated label is a valid DNS label.
pub open spec fn canonical_host(v: Seq<char>) -> Result<Seq<char>, Seq<char>> {
    let h = strip_trailing_dot(v);
    if h.len() == 0 {
        Err(host_error())
    } else if !host_labels_ok(h) {
        Err(host_error())
    } else {
        Ok(lower(h))
    }
}

fn host_label_ok_exec(l: &Vec<char>) -> (r: bool)
    ensures
        r == host_label_ok(l@),
{
    if l.len() == 0 || l.len() > 63 {
        return false;
    }
    let mut i: usize = 0;
    while i < l.len()
        invariant
            i <= l@.len(),
            forall|k: int| 0 <= k < i ==> is_ascii_alnum(#[trigger] l@[k]) || l@[k] == '-',
        decreases l.len() - i,
    {
        if !(is_ascii_alnum_exec(l[i]) || l[i] == '-') {
            return false;
        }
        i = i + 1;
    }
    is_ascii_alnum_exec(l[0]) && is_ascii_alnum_exec(l[l.len() - 1])
}

fn canonical_host_exec(v: &str) -> (r: Result<Vec<char>, Vec<char>>)
    ensures
        match r {
            Ok(h) => canonical_host(v@) == Ok::<Seq<char>, Seq<char>>(h@),
            Err(m) => canonical_host(v@) == Err::<Seq<char>, Seq<char>>(m@),
        },
{
    let cs = chars_of(v);
    let h = if cs.len() > 0 && cs[cs.len() - 1] == '.' {
        slice_chars(cs.as_slice(), 0, cs.len() - 1)
    } else {
        slice_chars(cs.as_slice(), 0, cs.len())
    };
    assert(cs@.subrange(0, cs@.len() as int) == cs@);
    let ghost hv = strip_trailing_dot(v@);
    assert(h@ == hv);
    if h.len() == 0 {
        return Err(chars_of("provider instance must be a canonical host name"));
    }
    let labels = split_chars(h.as_slice(), '.');
    let ghost ls = split_on(h@, '.');
    let mut i: usize = 0;
    while i < labels.len()
        invariant
            i <= labels@.len(),
            h@ == hv,
            hv == strip_trailing_dot(v@),
            h@.len() > 0,
            ls == split_on(h@, '.'),
            crate::text::seqs_view(labels@) == ls,
            ls.len() == labels@.len(),
            forall|k: int| 0 <= k < i ==> host_label_ok(#[trigger] ls[k]),
        decreases labels.len() - i,
    {
        assert(ls[i as int] == labels@[i as int]@);
        if !host_label_ok_exec(&labels[i]) {
            assert(i < ls.len());
            assert(!host_label_ok(split_on(hv, '.')[i as int]));
            return Err(chars_of("provider instance must be a canonical host name"));
        }
        i = i + 1;
    }
    Ok(lowercase(h.as_slice()))
}

pub open spec fn collection_component_ok(v: Seq<char>) -> bool {
    v.len() > 0 && forall|i: int|
        0 <= i < v.len() ==> is_ascii_alnum(#[trigger] v[i]) || v[i] == '-' || v[i] == '_' || v[i]
            == '.'
}

pub open spec fn collection_component(v: Seq<char>, label: Seq<char>) -> Result<Seq<char>, Seq<char>> {
    if collection_component_ok(v) {
        Ok(lower(v))
    } else {
        Err(label + " must be a non-empty canonical ASCII repository component"@)
    }
}

/// `owner/repository`, both components canonical ASCII, lowercased.
pub open spec fn canonical_collection(v: Seq<char>) -> Result<Seq<char>, Seq<char>> {
    match crate::diff_parse::first_index_of(v, '/') {
        None => Err("collection must be `owner/repository`"@),
        Some(k) => if v.skip(k + 1).contains('/') {
            Err("collection must contain exactly one `/` separator"@)
        } else {
            match collection_component(v.take(k), "collection owner"@) {
                Err(e) => Err(e),
                Ok(o) => match collection_component(v.skip(k + 1), "collection repository"@) {
                    Err(e) => Err(e),
                    Ok(r) => Ok(o + seq!['/'] + r),
                },
            }
        },
    }
}

fn collection_component_exec(v: &[char], label: &str) -> (r: Result<Vec<char>, Vec<char>>)
    ensures
        match r {
            Ok(c) => collection_component(v@, label@) == Ok::<Seq<char>, Seq<char>>(c@),
            Err(m) => collection_component(v@, label@) == Err::<Seq<char>, Seq<char>>(m@),
        },
{
    let mut ok = v.len() > 0;
    let mut i: usize = 0;
    while i < v.len() && ok
        invariant
            i <= v@.len(),
            ok ==> v@.len() > 0,
            ok ==> forall|k: int|
                0 <= k < i ==> is_ascii_alnum(#[trigger] v@[k]) || v@[k] == '-' || v@[k] == '_'
                    || v@[k] == '.',
            !ok ==> !collection_component_ok(v@),
        decreases v.len() - i,
    {
        let c = v[i];
        if !(is_ascii_alnum_exec(c) || c == '-' || c == '_' || c == '.') {
            ok = false;
        }
        i = i + 1;
    }
    if ok {
        Ok(lowercase(v))
    } else {
        let mut m = chars_of(label);
        extend_str(&mut m, " must be a non-empty canonical ASCII repository component");
        Err(m)
    }
}

fn first_slash(v: &[char]) -> (r: Option<usize>)
    ensures
        match r {
            Some(k) => crate::diff_parse::first_index_of(v@, '/') == Some(k as int) && k < v@.len(),
            None => crate::diff_parse::first_index_of(v@, '/') is None,
        },
{
    let mut i: usize = 0;
    while i < v.len()
        invariant
            i <= v@.len(),
            forall|j: int| 0 <= j < i ==> v@[j] != '/',
        decreases v.len() - i,
    {
        if v[i] == '/' {
            proof {
                let k = choose|k: int|
                    0 <= k < v@.len() && v@[k] == '/' && forall|j: int| 0 <= j < k ==> v@[j] != '/';
                if k < i {
                } else if k > i {
                    assert(v@[i as int] == '/');
                }
            }
            return Some(i);
        }
        i = i + 1;
    }
    None
}

fn canonical_collection_exec(v: &str) -> (r: Result<Vec<char>, Vec<char>>)
    ensures
        match r {
            Ok(c) => canonical_collection(v@) == Ok::<Seq<char>, Seq<char>>(c@),
            Err(m) => canonical_collection(v@) == Err::<Seq<char>, Seq<char>>(m@),
        },
{
    let cs = chars_of(v);
    let found = first_slash(cs.as_slice());
    if found.is_none() {
        return Err(chars_of("collection must be `owner/repository`"));
    }
    let k = found.unwrap();
    assert(crate::diff_parse::first_index_of(v@, '/') == Some(k as int));
    let n = cs.len();
    assert(k < n);
    let owner = slice_chars(cs.as_slice(), 0, k);
    let repository = slice_chars(cs.as_slice(), k + 1, cs.len());
    assert(owner@ == v@.take(k as int));
    assert(repository@ == v@.skip(k + 1));
    if crate::text::contains_char(repository.as_slice(), '/') {
        return Err(chars_of("collection must contain exactly one `/` separator"));
    }
    let o = match collection_component_exec(owner.as_slice(), "collection owner") {
        Err(e) => return Err(e),
        Ok(o) => o,
    };
    let r = match collection_component_exec(repository.as_slice(), "collection repository") {
        Err(e) => return Err(e),
        Ok(r) => r,
    };
    let ghost ov = o@;
    let ghost rv = r@;
    let mut out = o;
    out.push('/');
    extend_chars(&mut out, r.as_slice());
    assert(out@ =~= ov + seq!['/'] + rv);
    Ok(out)
}

pub open spec fn state_debug_name(s: ProviderState) -> Seq<char> {
    match s {
        ProviderState::Open => "Open"@,
        ProviderState::Closed => "Closed"@,
    }
}

pub open spec fn state_repeat_error(states: Seq<ProviderState>, i: int) -> Option<Seq<char>> {
    if exists|j: int| 0 <= j < i && states[j] == states[i] {
        Some("duplicate provider state `"@ + state_debug_name(states[i]) + "`"@)
    } else {
        None
    }
}

/// The states as a JSON array in their declared order (open, then closed);
/// each state at most once and at least one.
pub open spec fn states_json(states: Seq<ProviderState>) -> Result<Seq<char>, Seq<char>> {
    match first_error(states.len(), |i: int| state_repeat_error(states, i)) {
        Some(e) => Err(e),
        None => if states.len() == 0 {
            Err("selection contract must contain at least one provider state"@)
        } else {
            let open = states.contains(ProviderState::Open);
            let closed = states.contains(ProviderState::Closed);
            Ok(
                seq!['['] + (if open {
                    "\"open\""@
                } else {
                    Seq::empty()
                }) + (if open && closed {
                    seq![',']
                } else {
                    Seq::empty()
                }) + (if closed {
                    "\"closed\""@
                } else {
                    Seq::empty()
                }) + seq![']'],
            )
        },
    }
}

fn states_json_exec(states: &Vec<ProviderState>) -> (r: Result<Vec<char>, Vec<char>>)
    ensures
        match r {
            Ok(c) => states_json(states@) == Ok::<Seq<char>, Seq<char>>(c@),
            Err(m) => states_json(states@) == Err::<Seq<char>, Seq<char>>(m@),
        },
{
    let ghost check = |i: int| state_repeat_error(states@, i);
    let mut open = false;
    let mut closed = false;
    let mut i: usize = 0;
    while i < states.len()
        invariant
            i <= states@.len(),
            check == (|i: int| state_repeat_error(states@, i)),
            first_error(i as nat, check) is None,
            open == states@.take(i as int).contains(ProviderState::Open),
            closed == states@.take(i as int).contains(ProviderState::Closed),
        decreases states.len() - i,
    {
        proof {
            lemma_first_error_step(i as nat, check);
            assert(states@.take(i + 1) == states@.take(i as int).push(states@[i as int]));
        }
        let s = states[i];
        let seen = match s {
            ProviderState::Open => open,
            ProviderState::Closed => closed,
        };
        if seen {
            proof {
                let j = choose|j: int| 0 <= j < i && states@.take(i as int)[j] == s;
                assert(states@[j] == states@[i as int]);
                lemma_first_error_stable((i + 1) as nat, states@.len(), check);
            }
            let mut m = chars_of("duplicate provider state `");
            match s {
                ProviderState::Open => extend_str(&mut m, "Open"),
                ProviderState::Closed => extend_str(&mut m, "Closed"),
            }
            extend_str(&mut m, "`");
            return Err(m);
        }
        proof {
            assert forall|j: int| 0 <= j < i implies states@[j] != states@[i as int] by {
                assert(states@.take(i as int)[j] == states@[j]);
            }
        }
        match s {
            ProviderState::Open => open = true,
            ProviderState::Closed => closed = true,
        }
        proof {
            let t = states@.take(i as int);
            let t1 = states@.take(i + 1);
            assert(t1 == t.push(s));
            assert(t1[i as int] == s);
            assert forall|x: ProviderState| t1.contains(x) == (t.contains(x) || s == x) by {
                if t.contains(x) {
                    let j = choose|j: int| 0 <= j < t.len() && t[j] == x;
                    assert(t1[j] == x);
                }
                if t1.contains(x) {
                    let j = choose|j: int| 0 <= j < t1.len() && t1[j] == x;
                    if j < i {
                        assert(t[j] == x);
                    }
                }
            }
        }
        i = i + 1;
    }
    assert(states@.take(i as int) == states@);
    if states.len() == 0 {
        return Err(chars_of("selection contract must contain at least one provider state"));
    }
    let mut out: Vec<char> = Vec::new();
    out.push('[');
    if open {
        extend_str(&mut out, "\"open\"");
    }
    if open && closed {
        out.push(',');
    }
    if closed {
        extend_str(&mut out, "\"closed\"");
    }
    out.push(']');
    assert(out@ =~= seq!['['] + (if open {
        "\"open\""@
    } else {
        Seq::empty()
    }) + (if open && closed {
        seq![',']
    } else {
        Seq::empty()
    }) + (if closed {
        "\"closed\""@
    } else {
        Seq::empty()
    }) + seq![']']);
    Ok(out)
}

pub open spec fn order_field_name(f: OrderField) -> Seq<char> {
    match f {
        OrderField::UpdatedAt => "updated_at"@,
        OrderField::CreatedAt => "created_at"@,
    }
}

pub open spec fn order_direction_name(d: OrderDirection) -> Seq<char> {
    match d {
        OrderDirection::Asc => "asc"@,
        OrderDirection::Desc => "desc"@,
    }
}

pub open spec fn draft_policy_name(d: DraftPolicy) -> Seq<char> {
    match d {
        DraftPolicy::Include => "include"@,
        DraftPolicy::Exclude => "exclude"@,
        DraftPolicy::Only => "only"@,
    }
}

fn order_field_str(f: OrderField) -> (s: &'static str)
    ensures
        s@ == order_field_name(f),
{
    match f {
        OrderField::UpdatedAt => "updated_at",
        OrderField::CreatedAt => "created_at",
    }
}

fn order_direction_str(d: OrderDirection) -> (s: &'static str)
    ensures
        s@ == order_direction_name(d),
{
    match d {
        OrderDirection::Asc => "asc",
        OrderDirection::Desc => "desc",
    }
}

fn draft_policy_str(d: DraftPolicy) -> (s: &'static str)
    ensures
        s@ == draft_policy_name(d),
{
    match d {
        DraftPolicy::Include => "include",
        DraftPolicy::Exclude => "exclude",
        DraftPolicy::Only => "only",
    }
}

/// The coverage a traversal declares: exhaustive with no bound and no
/// tie-break, or bounded by a positive item count with a deterministic
/// tie-break.
pub open spec fn coverage_json(sel: ProviderSelection) -> Result<Seq<char>, Seq<char>> {
    match (sel.traversal_mode, sel.max_items, sel.tie_break) {
        (TraversalMode::Exhaustive, None, None) => Ok("{\"mode\":\"exhaustive\"}"@),
        (TraversalMode::Exhaustive, Some(_), _) => Err(
            "exhaustive traversal must not declare max_items"@,
        ),
        (TraversalMode::Exhaustive, None, Some(_)) => Err(
            "exhaustive traversal must not declare a tie-break"@,
        ),
        (TraversalMode::Bounded, None, _) => Err("bounded traversal requires max_items"@),
        (TraversalMode::Bounded, Some(n), tb) => if n == 0 {
            Err("bounded max_items must be positive"@)
        } else {
            match tb {
                None => Err("bounded traversal requires a deterministic tie-break"@),
                Some(t) => Ok(
                    "{\"mode\":\"bounded\",\"max_items\":"@ + decimal(n as nat)
                        + ",\"order_field\":"@ + json_string(order_field_name(sel.order_field))
                        + ",\"order_direction\":"@ + json_string(
                        order_direction_name(sel.order_direction),
                    ) + ",\"tie_break_field\":"@ + json_string("local_work_number"@)
                        + ",\"tie_break_direction\":"@ + json_string(
                        order_direction_name(t.direction),
                    ) + "}"@,
                ),
            }
        },
    }
}

fn coverage_json_exec(sel: &ProviderSelection) -> (r: Result<Vec<char>, Vec<char>>)
    ensures
        match r {
            Ok(c) => coverage_json(*sel) == Ok::<Seq<char>, Seq<char>>(c@),
            Err(m) => coverage_json(*sel) == Err::<Seq<char>, Seq<char>>(m@),
        },
{
    match (sel.traversal_mode, sel.max_items, sel.tie_break) {
        (TraversalMode::Exhaustive, None, None) => Ok(chars_of("{\"mode\":\"exhaustive\"}")),
        (TraversalMode::Exhaustive, Some(_), _) => Err(
            chars_of("exhaustive traversal must not declare max_items"),
        ),
        (TraversalMode::Exhaustive, None, Some(_)) => Err(
            chars_of("exhaustive traversal must not declare a tie-break"),
        ),
        (TraversalMode::Bounded, None, _) => Err(chars_of("bounded traversal requires max_items")),
        (TraversalMode::Bounded, Some(n), tb) => if n == 0 {
            Err(chars_of("bounded max_items must be positive"))
        } else {
            match tb {
                None => Err(chars_of("bounded traversal requires a deterministic tie-break")),
                Some(t) => {
                    let mut out = chars_of("{\"mode\":\"bounded\",\"max_items\":");
                    push_decimal(&mut out, n as usize);
                    extend_str(&mut out, ",\"order_field\":");
                    let f = chars_of(order_field_str(sel.order_field));
                    push_json_string(&mut out, f.as_slice());
                    extend_str(&mut out, ",\"order_direction\":");
                    let d = chars_of(order_direction_str(sel.order_direction));
                    push_json_string(&mut out, d.as_slice());
                    extend_str(&mut out, ",\"tie_break_field\":");
                    let tf = chars_of("local_work_number");
                    push_json_string(&mut out, tf.as_slice());
                    extend_str(&mut out, ",\"tie_break_direction\":");
                    let td = chars_of(order_direction_str(t.direction));
                    push_json_string(&mut out, td.as_slice());
                    extend_str(&mut out, "}");
                    Ok(out)
                },
            }
        },
    }
}

/// The canonical selection document, or the first reason it has none.
pub open spec fn selection_json(sel: ProviderSelection) -> Result<Seq<char>, Seq<char>> {
    if sel.page_size == 0 {
        Err("page size must be positive"@)
    } else {
        match canonical_host(sel.provider_instance@) {
            Err(e) => Err(e),
            Ok(host) => match canonical_collection(sel.collection@) {
                Err(e) => Err(e),
                Ok(collection) => match states_json(sel.states@) {
                    Err(e) => Err(e),
                    Ok(states) => match coverage_json(sel) {
                        Err(e) => Err(e),
                        Ok(coverage) => Ok(
                            "{\"schema_version\":0,\"provider_kind\":\"github\",\"provider_instance\":"@
                                + json_string(host) + ",\"collection\":"@ + json_string(collection)
                                + ",\"work_kind\":\"pull_request\",\"states\":"@ + states
                                + ",\"draft_policy\":"@ + json_string(
                                draft_policy_name(sel.draft_policy),
                            ) + ",\"coverage\":"@ + coverage + "}"@,
                        ),
                    },
                },
            },
        }
    }
}

fn selection_json_exec(sel: &ProviderSelection) -> (r: Result<Vec<char>, Vec<char>>)
    ensures
        match r {
            Ok(c) => selection_json(*sel) == Ok::<Seq<char>, Seq<char>>(c@),
            Err(m) => selection_json(*sel) == Err::<Seq<char>, Seq<char>>(m@),
        },
{
    if sel.page_size == 0 {
        return Err(chars_of("page size must be positive"));
    }
    let host = match canonical_host_exec(sel.provider_instance.as_str()) {
        Err(e) => return Err(e),
        Ok(h) => h,
    };
    let collection = match canonical_collection_exec(sel.collection.as_str()) {
        Err(e) => return Err(e),
        Ok(c) => c,
    };
    let states = match states_json_exec(&sel.states) {
        Err(e) => return Err(e),
        Ok(s) => s,
    };
    let coverage = match coverage_json_exec(sel) {
        Err(e) => return Err(e),
        Ok(c) => c,
    };
    let mut out = chars_of(
        "{\"schema_version\":0,\"provider_kind\":\"github\",\"provider_instance\":",
    );
    push_json_string(&mut out, host.as_slice());
    extend_str(&mut out, ",\"collection\":");
    push_json_string(&mut out, collection.as_slice());
    extend_str(&mut out, ",\"work_kind\":\"pull_request\",\"states\":");
    extend_chars(&mut out, states.as_slice());
    extend_str(&mut out, ",\"draft_policy\":");
    let dp = chars_of(draft_policy_str(sel.draft_policy));
    push_json_string(&mut out, dp.as_slice());
    extend_str(&mut out, ",\"coverage\":");
    extend_chars(&mut out, coverage.as_slice());
    extend_str(&mut out, "}");
    Ok(out)
}

// ---------------------------------------------------------------------------
// Work facts.

/// `pull/<positive decimal without leading zeros>`, kept as written.
pub open spec fn work_id(raw: Seq<char>) -> Result<Seq<char>, Seq<char>> {
    if !(raw.len() >= 5 && raw.take(5) == "pull/"@) {
        Err("work id `"@ + raw + "` must use canonical `pull/<number>` form"@)
    } else if raw.len() == 5 || raw[5] == '0' || !all_digits(raw.skip(5)) {
        Err("work id `"@ + raw + "` must use a positive canonical decimal number"@)
    } else {
        Ok(raw)
    }
}

/// Forty hexadecimal characters, lowercased.
pub open spec fn head_sha(raw: Seq<char>) -> Result<Seq<char>, Seq<char>> {
    if raw.len() == 40 && forall|i: int| 0 <= i < raw.len() ==> is_ascii_hex(#[trigger] raw[i]) {
        Ok(lower(raw))
    } else {
        Err("head sha must contain exactly 40 hexadecimal characters"@)
    }
}

/// Every `/`-separated component is non-empty and neither `.` nor `..`.
pub open spec fn path_parts_ok(raw: Seq<char>) -> bool {
    forall|i: int|
        0 <= i < split_on(raw, '/').len() ==> {
            let p = #[trigger] split_on(raw, '/')[i];
            p.len() > 0 && p != "."@ && p != ".."@
        }
}

/// Why a changed path is not canonical, if it is not.
pub open spec fn path_error(raw: Seq<char>) -> Option<Seq<char>> {
    if raw.len() == 0 || byte_len(raw) > MAX_CHANGED_PATH_BYTES {
        Some("changed path must contain 1..=4096 bytes"@)
    } else if raw.contains('\\') {
        Some("changed path `"@ + raw + "` must use `/` separators"@)
    } else if exists|i: int| 0 <= i < raw.len() && is_control(#[trigger] raw[i]) {
        Some("changed path `"@ + raw + "` contains a control character"@)
    } else if !path_parts_ok(raw) {
        Some("changed path `"@ + raw + "` must be a canonical relative path without traversal"@)
    } else {
        None
    }
}

pub struct WorkDoc {
    pub id: Seq<char>,
    pub head_sha: Seq<char>,
    pub activity: Activity,
    pub paths: Seq<Seq<char>>,
}

pub struct EdgeDoc {
    pub kind: CoordinationKind,
    pub from: Seq<char>,
    pub to: Seq<char>,
}

/// How many of `s` order before `x`.
pub open spec fn count_less(s: Seq<Seq<char>>, x: Seq<char>) -> nat {
    count_matching(s, |y: Seq<char>| seq_less(y, x))
}

/// `s` in ascending order, built by inserting each element after those
/// that order before it.
pub open spec fn sort_strings(s: Seq<Seq<char>>) -> Seq<Seq<char>>
    decreases s.len(),
{
    if s.len() == 0 {
        s
    } else {
        let t = sort_strings(s.drop_last());
        t.insert(count_less(t, s.last()) as int, s.last())
    }
}

pub open spec fn work_path_error(paths: Seq<Seq<char>>, id: Seq<char>, i: int) -> Option<Seq<char>> {
    either(
        path_error(paths[i]),
        if repeats_earlier(paths, i) {
            Some("work `"@ + id + "` contains duplicate path `"@ + paths[i] + "`"@)
        } else {
            None
        },
    )
}

/// The canonical form of one work fact: its id, lowercased head, activity
/// and sorted distinct changed paths.
pub open spec fn canonical_work(w: ProviderWorkFact) -> Result<WorkDoc, Seq<char>> {
    match work_id(w.id@) {
        Err(e) => Err(e),
        Ok(id) => match head_sha(w.head_sha@) {
            Err(e) => Err(e),
            Ok(sha) => {
                let paths = strings_view(w.changed_paths@);
                match first_error(paths.len(), |i: int| work_path_error(paths, id, i)) {
                    Some(e) => Err(e),
                    None => Ok(
                        WorkDoc { id, head_sha: sha, activity: w.activity, paths: sort_strings(paths) },
                    ),
                }
            },
        },
    }
}

pub open spec fn work_ids(ws: Seq<ProviderWorkFact>) -> Seq<Seq<char>> {
    ws.map_values(|w: ProviderWorkFact| w.id@)
}

pub open spec fn work_item_error(ws: Seq<ProviderWorkFact>, i: int) -> Option<Seq<char>> {
    match canonical_work(ws[i]) {
        Err(e) => Some(e),
        Ok(_) => if repeats_earlier(work_ids(ws), i) {
            Some("duplicate work id `"@ + ws[i].id@ + "`"@)
        } else {
            None
        },
    }
}

pub open spec fn source_error(src: Seq<char>) -> Option<Seq<char>> {
    if src.len() == 0 || byte_len(src) > MAX_SOURCE_BYTES {
        Some("coordination source must contain 1..=512 bytes"@)
    } else if exists|i: int| 0 <= i < src.len() && is_control(#[trigger] src[i]) {
        Some("coordination source contains a control character"@)
    } else {
        None
    }
}

/// Why the coordination input at `i` is refused: its source, its endpoints
/// (canonical, distinct, both known work), or an exact repeat of an
/// earlier input.
pub open spec fn edge_error(cs: Seq<ProviderCoordination>, i: int, ids: Seq<Seq<char>>) -> Option<
    Seq<char>,
> {
    let c = cs[i];
    either(
        source_error(c.source@),
        match work_id(c.from@) {
            Err(e) => Some(e),
            Ok(from) => match work_id(c.to@) {
                Err(e) => Some(e),
                Ok(to) => if from == to {
                    Some("coordination edge endpoints must be distinct"@)
                } else if !ids.contains(from) {
                    Some("coordination edge references missing work `"@ + from + "`"@)
                } else if !ids.contains(to) {
                    Some("coordination edge references missing work `"@ + to + "`"@)
                } else if exists|j: int|
                    0 <= j < i && (#[trigger] cs[j]).kind == c.kind && cs[j].from@ == from
                        && cs[j].to@ == to && cs[j].source@ == c.source@ {
                    Some("duplicate coordination evidence for `"@ + from + "` -> `"@ + to + "`"@)
                } else {
                    None
                },
            },
        },
    )
}

pub open spec fn kind_rank(k: CoordinationKind) -> nat {
    match k {
        CoordinationKind::DependsOn => 0,
        CoordinationKind::Blocks => 1,
        CoordinationKind::HoldMergeWhile => 2,
        CoordinationKind::Supersedes => 3,
    }
}

/// Edges order by kind, then source work, then target work.
pub open spec fn edge_less(a: EdgeDoc, b: EdgeDoc) -> bool {
    kind_rank(a.kind) < kind_rank(b.kind) || (kind_rank(a.kind) == kind_rank(b.kind) && (seq_less(
        a.from,
        b.from,
    ) || (a.from == b.from && seq_less(a.to, b.to))))
}

pub open spec fn count_edges_less(s: Seq<EdgeDoc>, e: EdgeDoc) -> nat {
    count_matching(s, |x: EdgeDoc| edge_less(x, e))
}

/// The distinct edges in order.
pub open spec fn edge_set(es: Seq<EdgeDoc>) -> Seq<EdgeDoc>
    decreases es.len(),
{
    if es.len() == 0 {
        es
    } else {
        let t = edge_set(es.drop_last());
        if t.contains(es.last()) {
            t
        } else {
            t.insert(count_edges_less(t, es.last()) as int, es.last())
        }
    }
}

pub open spec fn semantic_edge(c: ProviderCoordination) -> EdgeDoc {
    EdgeDoc { kind: c.kind, from: c.from@, to: c.to@ }
}

pub open spec fn work_doc(w: ProviderWorkFact) -> WorkDoc {
    match canonical_work(w) {
        Ok(d) => d,
        Err(_) => WorkDoc { id: Seq::empty(), head_sha: Seq::empty(), activity: w.activity, paths: Seq::empty() },
    }
}

pub open spec fn count_works_less(s: Seq<WorkDoc>, w: WorkDoc) -> nat {
    count_matching(s, |x: WorkDoc| seq_less(x.id, w.id))
}

/// Work in ascending id order.
pub open spec fn sort_works(ws: Seq<WorkDoc>) -> Seq<WorkDoc>
    decreases ws.len(),
{
    if ws.len() == 0 {
        ws
    } else {
        let t = sort_works(ws.drop_last());
        t.insert(count_works_less(t, ws.last()) as int, ws.last())
    }
}

pub open spec fn activity_name(a: Activity) -> Seq<char> {
    match a {
        Activity::ConfirmedActive => "confirmed_active"@,
        Activity::Preparation => "preparation"@,
        Activity::Unresolved => "unresolved"@,
    }
}

pub open spec fn kind_name(k: CoordinationKind) -> Seq<char> {
    match k {
        CoordinationKind::DependsOn => "depends_on"@,
        CoordinationKind::Blocks => "blocks"@,
        CoordinationKind::HoldMergeWhile => "hold_merge_while"@,
        CoordinationKind::Supersedes => "supersedes"@,
    }
}

pub open spec fn work_json(w: WorkDoc) -> Seq<char> {
    "{\"id\":"@ + json_string(w.id) + ",\"head_sha\":"@ + json_string(w.head_sha)
        + ",\"activity\":"@ + json_string(activity_name(w.activity)) + ",\"changed_paths\":["@
        + json_join(w.paths.map_values(|p: Seq<char>| json_string(p))) + "]}"@
}

pub open spec fn edge_json(e: EdgeDoc) -> Seq<char> {
    "{\"kind\":"@ + json_string(kind_name(e.kind)) + ",\"from\":"@ + json_string(e.from)
        + ",\"to\":"@ + json_string(e.to) + "}"@
}

/// The canonical work-fact document, or the first reason it has none.
pub open spec fn work_facts_json(ws: Seq<ProviderWorkFact>, cs: Seq<ProviderCoordination>) -> Result<
    Seq<char>,
    Seq<char>,
> {
    match first_error(ws.len(), |i: int| work_item_error(ws, i)) {
        Some(e) => Err(e),
        None => match first_error(cs.len(), |i: int| edge_error(cs, i, work_ids(ws))) {
            Some(e) => Err(e),
            None => Ok(
                "{\"schema_version\":0,\"work\":["@ + json_join(
                    sort_works(ws.map_values(|w: ProviderWorkFact| work_doc(w))).map_values(
                        |w: WorkDoc| work_json(w),
                    ),
                ) + "],\"coordination_edges\":["@ + json_join(
                    edge_set(cs.map_values(|c: ProviderCoordination| semantic_edge(c))).map_values(
                        |e: EdgeDoc| edge_json(e),
                    ),
                ) + "]}"@,
            ),
        },
    }
}

fn work_id_exec(raw: &str) -> (r: Option<Vec<char>>)
    ensures
        match r {
            None => work_id(raw@) == Ok::<Seq<char>, Seq<char>>(raw@),
            Some(m) => work_id(raw@) == Err::<Seq<char>, Seq<char>>(m@),
        },
{
    let cs = chars_of(raw);
    let prefix = chars_of("pull/");
    proof {
        reveal_strlit("pull/");
    }
    if !starts_with(cs.as_slice(), prefix.as_slice()) {
        proof {
            if raw@.len() >= 5 && raw@.take(5) == "pull/"@ {
                assert("pull/"@.is_prefix_of(raw@));
            }
        }
        let mut m = chars_of("work id `");
        extend_str(&mut m, raw);
        extend_str(&mut m, "` must use canonical `pull/<number>` form");
        return Some(m);
    }
    assert(raw@.take(5) =~= "pull/"@);
    let mut ok = cs.len() > 5 && cs[5] != '0';
    let mut i: usize = 5;
    while i < cs.len() && ok
        invariant
            5 <= i <= cs@.len(),
            cs@ == raw@,
            ok ==> cs@.len() > 5 && cs@[5] != '0',
            ok ==> forall|k: int| 5 <= k < i ==> is_ascii_digit(#[trigger] cs@[k]),
            !ok ==> (raw@.len() == 5 || raw@[5] == '0' || !all_digits(raw@.skip(5))),
        decreases cs.len() - i,
    {
        if !crate::text::is_ascii_digit_exec(cs[i]) {
            assert(raw@.skip(5)[i - 5] == cs@[i as int]);
            ok = false;
        }
        i = i + 1;
    }
    if !ok {
        let mut m = chars_of("work id `");
        extend_str(&mut m, raw);
        extend_str(&mut m, "` must use a positive canonical decimal number");
        return Some(m);
    }
    assert forall|k: int| 0 <= k < raw@.skip(5).len() implies is_ascii_digit(
        #[trigger] raw@.skip(5)[k],
    ) by {
        assert(raw@.skip(5)[k] == cs@[k + 5]);
    }
    None
}

fn head_sha_exec(raw: &str) -> (r: Result<Vec<char>, Vec<char>>)
    ensures
        match r {
            Ok(h) => head_sha(raw@) == Ok::<Seq<char>, Seq<char>>(h@),
            Err(m) => head_sha(raw@) == Err::<Seq<char>, Seq<char>>(m@),
        },
{
    let cs = chars_of(raw);
    let mut ok = cs.len() == 40;
    let mut i: usize = 0;
    while i < cs.len() && ok
        invariant
            i <= cs@.len(),
            cs@ == raw@,
            ok ==> cs@.len() == 40,
            ok ==> forall|k: int| 0 <= k < i ==> is_ascii_hex(#[trigger] cs@[k]),
            !ok ==> !(raw@.len() == 40 && forall|k: int|
                0 <= k < raw@.len() ==> is_ascii_hex(#[trigger] raw@[k])),
        decreases cs.len() - i,
    {
        if !is_ascii_hex_exec(cs[i]) {
            ok = false;
        }
        i = i + 1;
    }
    if ok {
        Ok(lowercase(cs.as_slice()))
    } else {
        Err(chars_of("head sha must contain exactly 40 hexadecimal characters"))
    }
}

fn quoted_message(before: &str, value: &[char], after: &str) -> (m: Vec<char>)
    ensures
        m@ == before@ + value@ + after@,
{
    let mut m = chars_of(before);
    extend_chars(&mut m, value);
    extend_str(&mut m, after);
    m
}

fn path_parts_ok_exec(cs: &[char]) -> (r: bool)
    ensures
        r == path_parts_ok(cs@),
{
    let parts = split_chars(cs, '/');
    let ghost ps = split_on(cs@, '/');
    let dot = chars_of(".");
    let dots = chars_of("..");
    let mut i: usize = 0;
    while i < parts.len()
        invariant
            i <= parts@.len(),
            ps == split_on(cs@, '/'),
            crate::text::seqs_view(parts@) == ps,
            ps.len() == parts@.len(),
            dot@ == "."@,
            dots@ == ".."@,
            forall|k: int|
                0 <= k < i ==> {
                    let p = #[trigger] ps[k];
                    p.len() > 0 && p != "."@ && p != ".."@
                },
        decreases parts.len() - i,
    {
        assert(ps[i as int] == parts@[i as int]@);
        let p = &parts[i];
        if p.len() == 0 || chars_eq(p.as_slice(), dot.as_slice()) || chars_eq(
            p.as_slice(),
            dots.as_slice(),
        ) {
            return false;
        }
        i = i + 1;
    }
    true
}

fn path_error_exec(raw: &str) -> (r: Option<Vec<char>>)
    ensures
        msg(r) == path_error(raw@),
{
    let cs = chars_of(raw);
    if cs.len() == 0 || !byte_len_at_most(cs.as_slice(), MAX_CHANGED_PATH_BYTES) {
        return Some(chars_of("changed path must contain 1..=4096 bytes"));
    }
    if crate::text::contains_char(cs.as_slice(), '\\') {
        return Some(quoted_message("changed path `", cs.as_slice(), "` must use `/` separators"));
    }
    let mut i: usize = 0;
    while i < cs.len()
        invariant
            i <= cs@.len(),
            cs@ == raw@,
            !(raw@.len() == 0 || byte_len(raw@) > MAX_CHANGED_PATH_BYTES),
            !raw@.contains('\\'),
            forall|k: int| 0 <= k < i ==> !is_control(#[trigger] cs@[k]),
        decreases cs.len() - i,
    {
        if is_control_exec(cs[i]) {
            assert(is_control(raw@[i as int]));
            return Some(
                quoted_message("changed path `", cs.as_slice(), "` contains a control character"),
            );
        }
        i = i + 1;
    }
    if !path_parts_ok_exec(cs.as_slice()) {
        return Some(
            quoted_message(
                "changed path `",
                cs.as_slice(),
                "` must be a canonical relative path without traversal",
            ),
        );
    }
    None
}

fn count_less_exec(t: &Vec<Vec<char>>, x: &[char]) -> (n: usize)
    ensures
        n == count_less(crate::text::seqs_view(t@), x@),
        n <= t@.len(),
{
    let ghost ts = crate::text::seqs_view(t@);
    let mut n: usize = 0;
    let mut i: usize = 0;
    while i < t.len()
        invariant
            i <= t@.len(),
            ts == crate::text::seqs_view(t@),
            n == count_matching(ts.take(i as int), |y: Seq<char>| seq_less(y, x@)),
            n <= i,
        decreases t.len() - i,
    {
        proof {
            lemma_count_matching_step(ts, i as int, |y: Seq<char>| seq_less(y, x@));
        }
        assert(ts[i as int] == t@[i as int]@);
        if chars_less(t[i].as_slice(), x) {
            n = n + 1;
        }
        i = i + 1;
    }
    assert(ts.take(i as int) =~= ts);
    n
}

/// Inserts `x` after the elements that order before it.
fn insert_sorted_chars(t: &mut Vec<Vec<char>>, x: Vec<char>)
    ensures
        crate::text::seqs_view(final(t)@) == crate::text::seqs_view(old(t)@).insert(
            count_less(crate::text::seqs_view(old(t)@), x@) as int,
            x@,
        ),
{
    let k = count_less_exec(t, x.as_slice());
    let ghost before = t@;
    let ghost xv = x@;
    t.insert(k, x);
    assert(crate::text::seqs_view(t@) =~= crate::text::seqs_view(before).insert(k as int, xv));
}

struct CanonWork {
    id: Vec<char>,
    head_sha: Vec<char>,
    activity: Activity,
    paths: Vec<Vec<char>>,
}

impl CanonWork {
    spec fn doc(&self) -> WorkDoc {
        WorkDoc {
            id: self.id@,
            head_sha: self.head_sha@,
            activity: self.activity,
            paths: crate::text::seqs_view(self.paths@),
        }
    }
}

fn canonical_work_exec(w: &ProviderWorkFact) -> (r: Result<CanonWork, Vec<char>>)
    ensures
        match r {
            Ok(c) => canonical_work(*w) == Ok::<WorkDoc, Seq<char>>(c.doc()),
            Err(m) => canonical_work(*w) == Err::<WorkDoc, Seq<char>>(m@),
        },
{
    match work_id_exec(w.id.as_str()) {
        Some(m) => return Err(m),
        None => {},
    }
    let id = chars_of(w.id.as_str());
    let sha = match head_sha_exec(w.head_sha.as_str()) {
        Err(m) => return Err(m),
        Ok(h) => h,
    };
    let ghost paths = strings_view(w.changed_paths@);
    let ghost check = |i: int| work_path_error(paths, id@, i);
    let mut sorted: Vec<Vec<char>> = Vec::new();
    let mut i: usize = 0;
    while i < w.changed_paths.len()
        invariant
            i <= w.changed_paths@.len(),
            paths == strings_view(w.changed_paths@),
            id@ == w.id@,
            work_id(w.id@) == Ok::<Seq<char>, Seq<char>>(w.id@),
            head_sha(w.head_sha@) == Ok::<Seq<char>, Seq<char>>(sha@),
            check == (|i: int| work_path_error(paths, id@, i)),
            first_error(i as nat, check) is None,
            crate::text::seqs_view(sorted@) == sort_strings(paths.take(i as int)),
        decreases w.changed_paths.len() - i,
    {
        let raw = w.changed_paths[i].as_str();
        assert(raw@ == paths[i as int]);
        let item = match path_error_exec(raw) {
            Some(m) => Some(m),
            None => if repeats_earlier_exec(&w.changed_paths, i) {
                let mut m = chars_of("work `");
                extend_chars(&mut m, id.as_slice());
                extend_str(&mut m, "` contains duplicate path `");
                extend_str(&mut m, raw);
                extend_str(&mut m, "`");
                Some(m)
            } else {
                None
            },
        };
        proof {
            lemma_first_error_step(i as nat, check);
            assert(msg(item) == check(i as int));
        }
        if let Some(m) = item {
            proof {
                lemma_first_error_stable((i + 1) as nat, paths.len(), check);
            }
            return Err(m);
        }
        proof {
            assert(paths.take(i + 1).drop_last() =~= paths.take(i as int));
            assert(paths.take(i + 1).last() == paths[i as int]);
        }
        insert_sorted_chars(&mut sorted, chars_of(raw));
        i = i + 1;
    }
    assert(paths.take(i as int) =~= paths);
    Ok(CanonWork { id, head_sha: sha, activity: w.activity, paths: sorted })
}

fn join_items(items: &Vec<Vec<char>>) -> (r: Vec<char>)
    ensures
        r@ == json_join(crate::text::seqs_view(items@)),
{
    let ghost xs = crate::text::seqs_view(items@);
    let mut r: Vec<char> = Vec::new();
    let mut i: usize = 0;
    assert(xs.take(0) =~= Seq::<Seq<char>>::empty());
    while i < items.len()
        invariant
            i <= items@.len(),
            xs == crate::text::seqs_view(items@),
            r@ == json_join(xs.take(i as int)),
        decreases items.len() - i,
    {
        proof {
            assert(xs.take(i + 1).drop_last() =~= xs.take(i as int));
            assert(xs.take(i + 1).last() == xs[i as int]);
            assert(xs[i as int] == items@[i as int]@);
        }
        if i > 0 {
            r.push(',');
        } else {
            assert(xs.take(1) =~= seq![xs[0]]);
        }
        extend_chars(&mut r, items[i].as_slice());
        i = i + 1;
    }
    assert(xs.take(i as int) =~= xs);
    r
}

fn json_string_of(s: &[char]) -> (r: Vec<char>)
    ensures
        r@ == json_string(s@),
{
    let mut r: Vec<char> = Vec::new();
    push_json_string(&mut r, s);
    assert(r@ =~= json_string(s@));
    r
}

fn activity_str(a: Activity) -> (s: &'static str)
    ensures
        s@ == activity_name(a),
{
    match a {
        Activity::ConfirmedActive => "confirmed_active",
        Activity::Preparation => "preparation",
        Activity::Unresolved => "unresolved",
    }
}

fn kind_str(k: CoordinationKind) -> (s: &'static str)
    ensures
        s@ == kind_name(k),
{
    match k {
        CoordinationKind::DependsOn => "depends_on",
        CoordinationKind::Blocks => "blocks",
        CoordinationKind::HoldMergeWhile => "hold_merge_while",
        CoordinationKind::Supersedes => "supersedes",
    }
}

fn work_json_exec(w: &CanonWork) -> (r: Vec<char>)
    ensures
        r@ == work_json(w.doc()),
{
    let ghost ps = crate::text::seqs_view(w.paths@);
    let mut items: Vec<Vec<char>> = Vec::new();
    let mut i: usize = 0;
    while i < w.paths.len()
        invariant
            i <= w.paths@.len(),
            ps == crate::text::seqs_view(w.paths@),
            crate::text::seqs_view(items@) == ps.take(i as int).map_values(
                |p: Seq<char>| json_string(p),
            ),
            items@.len() == i,
        decreases w.paths.len() - i,
    {
        let ghost prev = items@;
        let item = json_string_of(w.paths[i].as_slice());
        items.push(item);
        assert(items@ == prev.push(item));
        assert(ps[i as int] == w.paths@[i as int]@);
        assert(crate::text::seqs_view(items@)[i as int] == json_string(ps[i as int]));
        assert forall|k: int| 0 <= k < i implies crate::text::seqs_view(items@)[k] == json_string(
            ps[k],
        ) by {
            assert(items@[k] == prev[k]);
            assert(crate::text::seqs_view(prev)[k] == ps.take(i as int).map_values(
                |p: Seq<char>| json_string(p),
            )[k]);
        }
        i = i + 1;
        assert(crate::text::seqs_view(items@) =~= ps.take(i as int).map_values(
            |p: Seq<char>| json_string(p),
        ));
    }
    assert(ps.take(i as int) =~= ps);
    let joined = join_items(&items);
    let mut r = chars_of("{\"id\":");
    push_json_string(&mut r, w.id.as_slice());
    extend_str(&mut r, ",\"head_sha\":");
    push_json_string(&mut r, w.head_sha.as_slice());
    extend_str(&mut r, ",\"activity\":");
    let a = chars_of(activity_str(w.activity));
    push_json_string(&mut r, a.as_slice());
    extend_str(&mut r, ",\"changed_paths\":[");
    extend_chars(&mut r, joined.as_slice());
    extend_str(&mut r, "]}");
    r
}

struct CanonEdge {
    kind: CoordinationKind,
    from: Vec<char>,
    to: Vec<char>,
}

impl CanonEdge {
    spec fn doc(&self) -> EdgeDoc {
        EdgeDoc { kind: self.kind, from: self.from@, to: self.to@ }
    }
}

fn edge_json_exec(e: &CanonEdge) -> (r: Vec<char>)
    ensures
        r@ == edge_json(e.doc()),
{
    let mut r = chars_of("{\"kind\":");
    let k = chars_of(kind_str(e.kind));
    push_json_string(&mut r, k.as_slice());
    extend_str(&mut r, ",\"from\":");
    push_json_string(&mut r, e.from.as_slice());
    extend_str(&mut r, ",\"to\":");
    push_json_string(&mut r, e.to.as_slice());
    extend_str(&mut r, "}");
    r
}

fn kind_rank_exec(k: CoordinationKind) -> (r: u8)
    ensures
        r == kind_rank(k),
{
    match k {
        CoordinationKind::DependsOn => 0,
        CoordinationKind::Blocks => 1,
        CoordinationKind::HoldMergeWhile => 2,
        CoordinationKind::Supersedes => 3,
    }
}

fn edge_less_exec(a: &CanonEdge, b: &CanonEdge) -> (r: bool)
    ensures
        r == edge_less(a.doc(), b.doc()),
{
    let ra = kind_rank_exec(a.kind);
    let rb = kind_rank_exec(b.kind);
    ra < rb || (ra == rb && (chars_less(a.from.as_slice(), b.from.as_slice()) || (chars_eq(
        a.from.as_slice(),
        b.from.as_slice(),
    ) && chars_less(a.to.as_slice(), b.to.as_slice()))))
}

fn same_edge(a: &CanonEdge, b: &CanonEdge) -> (r: bool)
    ensures
        r == (a.doc() == b.doc()),
{
    a.kind == b.kind && chars_eq(a.from.as_slice(), b.from.as_slice()) && chars_eq(
        a.to.as_slice(),
        b.to.as_slice(),
    )
}

spec fn edges_view(v: Seq<CanonEdge>) -> Seq<EdgeDoc> {
    v.map_values(|e: CanonEdge| e.doc())
}

spec fn works_view(v: Seq<CanonWork>) -> Seq<WorkDoc> {
    v.map_values(|w: CanonWork| w.doc())
}

/// Adds `e` unless present, after the edges that order before it.
fn add_edge(t: &mut Vec<CanonEdge>, e: CanonEdge)
    ensures
        edges_view(final(t)@) == {
            let s = edges_view(old(t)@);
            if s.contains(e.doc()) {
                s
            } else {
                s.insert(count_edges_less(s, e.doc()) as int, e.doc())
            }
        },
{
    let ghost s = edges_view(t@);
    let mut n: usize = 0;
    let mut found = false;
    let mut i: usize = 0;
    while i < t.len()
        invariant
            i <= t@.len(),
            s == edges_view(t@),
            n == count_matching(s.take(i as int), |x: EdgeDoc| edge_less(x, e.doc())),
            n <= i,
            found == s.take(i as int).contains(e.doc()),
        decreases t.len() - i,
    {
        proof {
            lemma_count_matching_step(s, i as int, |x: EdgeDoc| edge_less(x, e.doc()));
            let a = s.take(i as int);
            let b = s.take(i + 1);
            assert(b == a.push(s[i as int]));
            assert forall|x: EdgeDoc| b.contains(x) == (a.contains(x) || s[i as int] == x) by {
                if a.contains(x) {
                    let j = choose|j: int| 0 <= j < a.len() && a[j] == x;
                    assert(b[j] == x);
                }
                if b.contains(x) {
                    let j = choose|j: int| 0 <= j < b.len() && b[j] == x;
                    if j < i {
                        assert(a[j] == x);
                    }
                }
                if s[i as int] == x {
                    assert(b[i as int] == x);
                }
            }
        }
        if same_edge(&t[i], &e) {
            found = true;
        }
        if edge_less_exec(&t[i], &e) {
            n = n + 1;
        }
        i = i + 1;
    }
    assert(s.take(i as int) =~= s);
    if !found {
        let ghost before = t@;
        let ghost ed = e.doc();
        t.insert(n, e);
        assert(edges_view(t@) =~= edges_view(before).insert(n as int, ed));
    }
}

/// Inserts `w` after the work whose ids order before its id.
fn insert_work(t: &mut Vec<CanonWork>, w: CanonWork)
    ensures
        works_view(final(t)@) == works_view(old(t)@).insert(
            count_works_less(works_view(old(t)@), w.doc()) as int,
            w.doc(),
        ),
{
    let ghost s = works_view(t@);
    let mut n: usize = 0;
    let mut i: usize = 0;
    while i < t.len()
        invariant
            i <= t@.len(),
            s == works_view(t@),
            n == count_matching(s.take(i as int), |x: WorkDoc| seq_less(x.id, w.doc().id)),
            n <= i,
        decreases t.len() - i,
    {
        proof {
            lemma_count_matching_step(s, i as int, |x: WorkDoc| seq_less(x.id, w.doc().id));
        }
        if chars_less(t[i].id.as_slice(), w.id.as_slice()) {
            n = n + 1;
        }
        i = i + 1;
    }
    assert(s.take(i as int) =~= s);
    let ghost before = t@;
    let ghost wd = w.doc();
    t.insert(n, w);
    assert(works_view(t@) =~= works_view(before).insert(n as int, wd));
}

fn source_error_exec(src: &str) -> (r: Option<Vec<char>>)
    ensures
        msg(r) == source_error(src@),
{
    let cs = chars_of(src);
    if cs.len() == 0 || !byte_len_at_most(cs.as_slice(), MAX_SOURCE_BYTES) {
        return Some(chars_of("coordination source must contain 1..=512 bytes"));
    }
    let mut i: usize = 0;
    while i < cs.len()
        invariant
            i <= cs@.len(),
            cs@ == src@,
            !(src@.len() == 0 || byte_len(src@) > MAX_SOURCE_BYTES),
            forall|k: int| 0 <= k < i ==> !is_control(#[trigger] cs@[k]),
        decreases cs.len() - i,
    {
        if is_control_exec(cs[i]) {
            assert(is_control(src@[i as int]));
            return Some(chars_of("coordination source contains a control character"));
        }
        i = i + 1;
    }
    None
}

fn same_text(a: &str, b: &str) -> (r: bool)
    ensures
        r == (a@ == b@),
{
    let x = chars_of(a);
    let y = chars_of(b);
    chars_eq(x.as_slice(), y.as_slice())
}

fn edge_error_exec(cs: &Vec<ProviderCoordination>, j: usize, ids: &Vec<String>) -> (r: Option<Vec<char>>)
    requires
        j < cs@.len(),
    ensures
        msg(r) == edge_error(cs@, j as int, strings_view(ids@)),
{
    let c = &cs[j];
    match source_error_exec(c.source.as_str()) {
        Some(m) => return Some(m),
        None => {},
    }
    match work_id_exec(c.from.as_str()) {
        Some(m) => return Some(m),
        None => {},
    }
    match work_id_exec(c.to.as_str()) {
        Some(m) => return Some(m),
        None => {},
    }
    let from = chars_of(c.from.as_str());
    let to = chars_of(c.to.as_str());
    if chars_eq(from.as_slice(), to.as_slice()) {
        return Some(chars_of("coordination edge endpoints must be distinct"));
    }
    if !crate::validate::contains_string(ids, c.from.as_str()) {
        return Some(
            quoted_message("coordination edge references missing work `", from.as_slice(), "`"),
        );
    }
    if !crate::validate::contains_string(ids, c.to.as_str()) {
        return Some(
            quoted_message("coordination edge references missing work `", to.as_slice(), "`"),
        );
    }
    let mut k: usize = 0;
    while k < j
        invariant
            k <= j < cs@.len(),
            *c == cs@[j as int],
            source_error(c.source@) is None,
            work_id(c.from@) == Ok::<Seq<char>, Seq<char>>(c.from@),
            work_id(c.to@) == Ok::<Seq<char>, Seq<char>>(c.to@),
            from@ == c.from@,
            to@ == c.to@,
            c.from@ != c.to@,
            strings_view(ids@).contains(c.from@),
            strings_view(ids@).contains(c.to@),
            forall|x: int|
                0 <= x < k ==> !((#[trigger] cs@[x]).kind == c.kind && cs@[x].from@ == c.from@
                    && cs@[x].to@ == c.to@ && cs@[x].source@ == c.source@),
        decreases j - k,
    {
        let other = &cs[k];
        if other.kind == c.kind && same_text(other.from.as_str(), c.from.as_str()) && same_text(
            other.to.as_str(),
            c.to.as_str(),
        ) && same_text(other.source.as_str(), c.source.as_str()) {
            assert(cs@[k as int].kind == c.kind && cs@[k as int].from@ == c.from@);
            let mut m = chars_of("duplicate coordination evidence for `");
            extend_chars(&mut m, from.as_slice());
            extend_str(&mut m, "` -> `");
            extend_chars(&mut m, to.as_slice());
            extend_str(&mut m, "`");
            return Some(m);
        }
        k = k + 1;
    }
    None
}

fn work_id_list(ws: &Vec<ProviderWorkFact>) -> (r: Vec<String>)
    ensures
        strings_view(r@) == work_ids(ws@),
        r@.len() == ws@.len(),
{
    let mut r: Vec<String> = Vec::new();
    let mut i: usize = 0;
    while i < ws.len()
        invariant
            i <= ws@.len(),
            strings_view(r@) == work_ids(ws@).take(i as int),
            r@.len() == i,
        decreases ws.len() - i,
    {
        let ghost prev = r@;
        let id = ws[i].id.clone();
        r.push(id);
        assert(r@ == prev.push(id));
        assert(strings_view(r@)[i as int] == work_ids(ws@)[i as int]);
        i = i + 1;
        assert(strings_view(r@) =~= work_ids(ws@).take(i as int));
    }
    assert(work_ids(ws@).take(i as int) =~= work_ids(ws@));
    r
}

fn work_facts_json_exec(ws: &Vec<ProviderWorkFact>, cs: &Vec<ProviderCoordination>) -> (r: Result<
    Vec<char>,
    Vec<char>,
>)
    ensures
        match r {
            Ok(j) => work_facts_json(ws@, cs@) == Ok::<Seq<char>, Seq<char>>(j@),
            Err(m) => work_facts_json(ws@, cs@) == Err::<Seq<char>, Seq<char>>(m@),
        },
{
    let ids = work_id_list(ws);
    let ghost docs = ws@.map_values(|w: ProviderWorkFact| work_doc(w));
    let ghost check = |i: int| work_item_error(ws@, i);
    let mut sorted: Vec<CanonWork> = Vec::new();
    let mut i: usize = 0;
    assert(docs.take(0) =~= Seq::<WorkDoc>::empty());
    while i < ws.len()
        invariant
            i <= ws@.len(),
            strings_view(ids@) == work_ids(ws@),
            ids@.len() == ws@.len(),
            docs == ws@.map_values(|w: ProviderWorkFact| work_doc(w)),
            check == (|i: int| work_item_error(ws@, i)),
            first_error(i as nat, check) is None,
            works_view(sorted@) == sort_works(docs.take(i as int)),
        decreases ws.len() - i,
    {
        let (item, canon) = match canonical_work_exec(&ws[i]) {
            Err(m) => (Some(m), None),
            Ok(c) => if repeats_earlier_exec(&ids, i) {
                let mut m = chars_of("duplicate work id `");
                extend_str(&mut m, ws[i].id.as_str());
                extend_str(&mut m, "`");
                (Some(m), None)
            } else {
                (None, Some(c))
            },
        };
        proof {
            lemma_first_error_step(i as nat, check);
            assert(msg(item) == check(i as int));
        }
        if let Some(m) = item {
            proof {
                lemma_first_error_stable((i + 1) as nat, ws@.len(), check);
            }
            return Err(m);
        }
        let c = canon.unwrap();
        proof {
            assert(c.doc() == work_doc(ws@[i as int]));
            assert(docs.take(i + 1).drop_last() =~= docs.take(i as int));
            assert(docs.take(i + 1).last() == docs[i as int]);
        }
        insert_work(&mut sorted, c);
        i = i + 1;
    }
    assert(docs.take(i as int) =~= docs);
    let ghost sem = cs@.map_values(|c: ProviderCoordination| semantic_edge(c));
    let ghost echeck = |j: int| edge_error(cs@, j, work_ids(ws@));
    let mut edges: Vec<CanonEdge> = Vec::new();
    let mut j: usize = 0;
    assert(sem.take(0) =~= Seq::<EdgeDoc>::empty());
    while j < cs.len()
        invariant
            j <= cs@.len(),
            strings_view(ids@) == work_ids(ws@),
            first_error(ws@.len(), |i: int| work_item_error(ws@, i)) is None,
            sem == cs@.map_values(|c: ProviderCoordination| semantic_edge(c)),
            echeck == (|j: int| edge_error(cs@, j, work_ids(ws@))),
            first_error(j as nat, echeck) is None,
            edges_view(edges@) == edge_set(sem.take(j as int)),
        decreases cs.len() - j,
    {
        let item = edge_error_exec(cs, j, &ids);
        proof {
            lemma_first_error_step(j as nat, echeck);
        }
        if let Some(m) = item {
            proof {
                lemma_first_error_stable((j + 1) as nat, cs@.len(), echeck);
            }
            return Err(m);
        }
        let e = CanonEdge {
            kind: cs[j].kind,
            from: chars_of(cs[j].from.as_str()),
            to: chars_of(cs[j].to.as_str()),
        };
        proof {
            assert(e.doc() == sem[j as int]);
            assert(sem.take(j + 1).drop_last() =~= sem.take(j as int));
            assert(sem.take(j + 1).last() == sem[j as int]);
        }
        add_edge(&mut edges, e);
        j = j + 1;
    }
    assert(sem.take(j as int) =~= sem);
    let ghost sw = works_view(sorted@);
    let mut work_items: Vec<Vec<char>> = Vec::new();
    let mut k: usize = 0;
    while k < sorted.len()
        invariant
            k <= sorted@.len(),
            sw == works_view(sorted@),
            crate::text::seqs_view(work_items@) == sw.take(k as int).map_values(
                |w: WorkDoc| work_json(w),
            ),
            work_items@.len() == k,
        decreases sorted.len() - k,
    {
        let ghost prev = work_items@;
        let item = work_json_exec(&sorted[k]);
        work_items.push(item);
        assert(work_items@ == prev.push(item));
        assert forall|x: int| 0 <= x <= k implies crate::text::seqs_view(work_items@)[x] == work_json(
            sw[x],
        ) by {
            if x < k {
                assert(work_items@[x] == prev[x]);
                assert(crate::text::seqs_view(prev)[x] == sw.take(k as int).map_values(
                    |w: WorkDoc| work_json(w),
                )[x]);
            }
        }
        k = k + 1;
        assert(crate::text::seqs_view(work_items@) =~= sw.take(k as int).map_values(
            |w: WorkDoc| work_json(w),
        ));
    }
    assert(sw.take(k as int) =~= sw);
    let ghost se = edges_view(edges@);
    let mut edge_items: Vec<Vec<char>> = Vec::new();
    let mut k: usize = 0;
    while k < edges.len()
        invariant
            k <= edges@.len(),
            se == edges_view(edges@),
            crate::text::seqs_view(edge_items@) == se.take(k as int).map_values(
                |e: EdgeDoc| edge_json(e),
            ),
            edge_items@.len() == k,
        decreases edges.len() - k,
    {
        let ghost prev = edge_items@;
        let item = edge_json_exec(&edges[k]);
        edge_items.push(item);
        assert(edge_items@ == prev.push(item));
        assert forall|x: int| 0 <= x <= k implies crate::text::seqs_view(edge_items@)[x] == edge_json(
            se[x],
        ) by {
            if x < k {
                assert(edge_items@[x] == prev[x]);
                assert(crate::text::seqs_view(prev)[x] == se.take(k as int).map_values(
                    |e: EdgeDoc| edge_json(e),
                )[x]);
            }
        }
        k = k + 1;
        assert(crate::text::seqs_view(edge_items@) =~= se.take(k as int).map_values(
            |e: EdgeDoc| edge_json(e),
        ));
    }
    assert(se.take(k as int) =~= se);
    let works_joined = join_items(&work_items);
    let edges_joined = join_items(&edge_items);
    let mut out = chars_of("{\"schema_version\":0,\"work\":[");
    extend_chars(&mut out, works_joined.as_slice());
    extend_str(&mut out, "],\"coordination_edges\":[");
    extend_chars(&mut out, edges_joined.as_slice());
    extend_str(&mut out, "]}");
    Ok(out)
}

/// The composition document over the two digests.
pub open spec fn composition_json(selection_hex: Seq<char>, work_hex: Seq<char>) -> Seq<char> {
    "{\"schema_version\":0,\"selection_identity\":"@ + json_string(selection_hex)
        + ",\"work_fact_identity\":"@ + json_string(work_hex) + "}"@
}

/// The snapshot identity the facts determine, or the first reason they
/// determine none: `sha256:` and the digest of the composition of the
/// selection document's digest and the work-fact document's digest.
pub open spec fn snapshot_identity(facts: ProviderSnapshotFacts) -> Result<Seq<char>, Seq<char>> {
    match selection_json(facts.selection) {
        Err(e) => Err(e),
        Ok(selection) => match work_facts_json(facts.work@, facts.coordination_edges@) {
            Err(e) => Err(e),
            Ok(work) => Ok(
                "sha256:"@ + digest_hex(composition_json(digest_hex(selection), digest_hex(work))),
            ),
        },
    }
}

/// Builds the provider snapshot identity of the facts.
pub fn build_provider_snapshot_identity(facts: &ProviderSnapshotFacts) -> (r: Result<
    ProviderSnapshotIdentity,
    ProviderSnapshotIdentityBuildError,
>)
    ensures
        match r {
            Ok(id) => snapshot_identity(*facts) == Ok::<Seq<char>, Seq<char>>(id@)
                && super::identity_error(id@) is None,
            Err(e) => snapshot_identity(*facts) == Err::<Seq<char>, Seq<char>>(e.spec_message()),
        },
{
    let selection = match selection_json_exec(&facts.selection) {
        Err(m) => return Err(ProviderSnapshotIdentityBuildError::new(m)),
        Ok(s) => s,
    };
    let work = match work_facts_json_exec(&facts.work, &facts.coordination_edges) {
        Err(m) => return Err(ProviderSnapshotIdentityBuildError::new(m)),
        Ok(w) => w,
    };
    let selection_hex = digest_text(selection.as_slice());
    let work_hex = digest_text(work.as_slice());
    let mut doc = chars_of("{\"schema_version\":0,\"selection_identity\":");
    push_json_string(&mut doc, selection_hex.as_slice());
    extend_str(&mut doc, ",\"work_fact_identity\":");
    push_json_string(&mut doc, work_hex.as_slice());
    extend_str(&mut doc, "}");
    let digest = digest_text(doc.as_slice());
    let mut text = chars_of("sha256:");
    extend_chars(&mut text, digest.as_slice());
    proof {
        reveal_strlit("sha256:");
        assert("sha256:"@.is_prefix_of(text@));
        assert(text@.skip(7) =~= digest@);
    }
    match ProviderSnapshotIdentity::parse(string_of(text.as_slice())) {
        Ok(id) => Ok(id),
        Err(e) => Err(ProviderSnapshotIdentityBuildError::new(chars_of(e.to_string().as_str()))),
    }
}

// ---------------------------------------------------------------------------
// Case and trailing-dot independence.

/// Two texts that differ at most in the ASCII case of their letters.
pub open spec fn same_up_to_ascii_case(a: Seq<char>, b: Seq<char>) -> bool {
    &&& a.len() == b.len()
    &&& forall|i: int| 0 <= i < a.len() ==> lower_char(#[trigger] a[i]) == lower_char(b[i])
}

/// A character that is no ASCII letter.
pub open spec fn non_letter(c: char) -> bool {
    !(65 <= (c as u32) <= 90) && !(97 <= (c as u32) <= 122)
}

proof fn lemma_case_chars(x: char, y: char)
    requires
        lower_char(x) == lower_char(y),
    ensures
        is_ascii_alnum(x) == is_ascii_alnum(y),
        is_ascii_hex(x) == is_ascii_hex(y),
        non_letter(x) ==> x == y,
        non_letter(y) ==> x == y,
{
}

proof fn lemma_lower_same(a: Seq<char>, b: Seq<char>)
    requires
        same_up_to_ascii_case(a, b),
    ensures
        lower(a) == lower(b),
{
    assert(lower(a) =~= lower(b));
}

proof fn lemma_split_same_case(a: Seq<char>, b: Seq<char>, sep: char)
    requires
        same_up_to_ascii_case(a, b),
        non_letter(sep),
    ensures
        split_on(a, sep).len() >= 1,
        split_on(a, sep).len() == split_on(b, sep).len(),
        forall|i: int|
            0 <= i < split_on(a, sep).len() ==> same_up_to_ascii_case(
                #[trigger] split_on(a, sep)[i],
                split_on(b, sep)[i],
            ),
    decreases a.len(),
{
    if a.len() > 0 {
        let a0 = a.drop_last();
        let b0 = b.drop_last();
        assert forall|i: int| 0 <= i < a0.len() implies lower_char(#[trigger] a0[i]) == lower_char(
            b0[i],
        ) by {
            assert(a0[i] == a[i] && b0[i] == b[i]);
        }
        lemma_split_same_case(a0, b0, sep);
        let x = a.last();
        let y = b.last();
        assert(lower_char(x) == lower_char(y)) by {
            assert(x == a[a.len() - 1]);
        }
        lemma_case_chars(x, y);
        let ra = split_on(a0, sep);
        let rb = split_on(b0, sep);
        if x == sep {
            assert(y == sep);
            assert(split_on(a, sep) == ra.push(Seq::<char>::empty()));
            assert(split_on(b, sep) == rb.push(Seq::<char>::empty()));
            assert forall|i: int| 0 <= i < split_on(a, sep).len() implies same_up_to_ascii_case(
                #[trigger] split_on(a, sep)[i],
                split_on(b, sep)[i],
            ) by {
                if i < ra.len() {
                    assert(split_on(a, sep)[i] == ra[i]);
                    assert(split_on(b, sep)[i] == rb[i]);
                }
            }
        } else {
            assert(y != sep) by {
                if y == sep {
                    lemma_case_chars(y, x);
                }
            }
            let la = ra.last().push(x);
            let lb = rb.last().push(y);
            assert(split_on(a, sep) == ra.update(ra.len() - 1, la));
            assert(split_on(b, sep) == rb.update(rb.len() - 1, lb));
            assert(same_up_to_ascii_case(ra.last(), rb.last())) by {
                assert(ra.last() == ra[ra.len() - 1]);
            }
            assert(same_up_to_ascii_case(la, lb)) by {
                assert forall|i: int| 0 <= i < la.len() implies lower_char(#[trigger] la[i])
                    == lower_char(lb[i]) by {
                    if i < ra.last().len() {
                        assert(la[i] == ra.last()[i]);
                        assert(lb[i] == rb.last()[i]);
                    }
                }
            }
            assert forall|i: int| 0 <= i < split_on(a, sep).len() implies same_up_to_ascii_case(
                #[trigger] split_on(a, sep)[i],
                split_on(b, sep)[i],
            ) by {
                if i < ra.len() - 1 {
                    assert(split_on(a, sep)[i] == ra[i]);
                    assert(split_on(b, sep)[i] == rb[i]);
                }
            }
        }
    }
}

proof fn lemma_label_same_case(a: Seq<char>, b: Seq<char>)
    requires
        same_up_to_ascii_case(a, b),
    ensures
        host_label_ok(a) == host_label_ok(b),
        collection_component_ok(a) == collection_component_ok(b),
        head_sha(a) == head_sha(b),
{
    lemma_label_one_way(a, b);
    lemma_label_one_way(b, a);
    lemma_lower_same(a, b);
}

proof fn lemma_label_one_way(a: Seq<char>, b: Seq<char>)
    requires
        same_up_to_ascii_case(a, b),
    ensures
        host_label_ok(a) ==> host_label_ok(b),
        collection_component_ok(a) ==> collection_component_ok(b),
        (forall|i: int| 0 <= i < a.len() ==> is_ascii_hex(#[trigger] a[i])) ==> (forall|i: int|
            0 <= i < b.len() ==> is_ascii_hex(#[trigger] b[i])),
{
    if host_label_ok(a) {
        assert forall|i: int| 0 <= i < b.len() implies is_ascii_alnum(#[trigger] b[i]) || b[i]
            == '-' by {
            assert(is_ascii_alnum(a[i]) || a[i] == '-');
            lemma_case_chars(a[i], b[i]);
        }
        lemma_case_chars(a[0], b[0]);
        lemma_case_chars(a[a.len() - 1], b[b.len() - 1]);
        assert(a.last() == a[a.len() - 1]);
        assert(b.last() == b[b.len() - 1]);
    }
    if collection_component_ok(a) {
        assert forall|i: int| 0 <= i < b.len() implies is_ascii_alnum(#[trigger] b[i]) || b[i]
            == '-' || b[i] == '_' || b[i] == '.' by {
            assert(is_ascii_alnum(a[i]) || a[i] == '-' || a[i] == '_' || a[i] == '.');
            lemma_case_chars(a[i], b[i]);
        }
    }
    if forall|i: int| 0 <= i < a.len() ==> is_ascii_hex(#[trigger] a[i]) {
        assert forall|i: int| 0 <= i < b.len() implies is_ascii_hex(#[trigger] b[i]) by {
            assert(is_ascii_hex(a[i]));
            lemma_case_chars(a[i], b[i]);
        }
    }
}

/// A provider host that differs only in ASCII case, or in one trailing
/// dot, is the same host.
pub proof fn lemma_host_ignores_case_and_trailing_dot(a: Seq<char>, b: Seq<char>)
    requires
        same_up_to_ascii_case(strip_trailing_dot(a), strip_trailing_dot(b)),
    ensures
        canonical_host(a) == canonical_host(b),
{
    let ha = strip_trailing_dot(a);
    let hb = strip_trailing_dot(b);
    lemma_split_same_case(ha, hb, '.');
    let sa = split_on(ha, '.');
    let sb = split_on(hb, '.');
    assert forall|i: int| 0 <= i < sa.len() implies host_label_ok(#[trigger] sa[i]) == host_label_ok(
        sb[i],
    ) by {
        lemma_label_same_case(sa[i], sb[i]);
    }
    assert(host_labels_ok(ha) == host_labels_ok(hb)) by {
        if host_labels_ok(ha) {
            assert forall|i: int| 0 <= i < sb.len() implies host_label_ok(#[trigger] sb[i]) by {
                assert(host_label_ok(sa[i]));
            }
        }
        if host_labels_ok(hb) {
            assert forall|i: int| 0 <= i < sa.len() implies host_label_ok(#[trigger] sa[i]) by {
                assert(host_label_ok(sb[i]));
            }
        }
    }
    lemma_lower_same(ha, hb);
}

proof fn lemma_same_positions(a: Seq<char>, b: Seq<char>, c: char)
    requires
        same_up_to_ascii_case(a, b),
        non_letter(c),
    ensures
        forall|i: int| 0 <= i < a.len() ==> (#[trigger] a[i] == c) == (b[i] == c),
        a.contains(c) == b.contains(c),
{
    assert forall|i: int| 0 <= i < a.len() implies (#[trigger] a[i] == c) == (b[i] == c) by {
        lemma_case_chars(a[i], b[i]);
        lemma_case_chars(b[i], a[i]);
    }
    if a.contains(c) {
        let i = choose|i: int| 0 <= i < a.len() && a[i] == c;
        assert(b[i] == c);
    }
    if b.contains(c) {
        let i = choose|i: int| 0 <= i < b.len() && b[i] == c;
        assert(a[i] == c);
    }
}

proof fn lemma_first_exists(s: Seq<char>, c: char, i: int)
    requires
        0 <= i < s.len(),
        s[i] == c,
    ensures
        exists|k: int| 0 <= k < s.len() && s[k] == c && forall|j: int| 0 <= j < k ==> s[j] != c,
    decreases i,
{
    if exists|j: int| 0 <= j < i && s[j] == c {
        let j = choose|j: int| 0 <= j < i && s[j] == c;
        lemma_first_exists(s, c, j);
    } else {
        assert(0 <= i < s.len() && s[i] == c && forall|j: int| 0 <= j < i ==> s[j] != c);
    }
}

proof fn lemma_first_index_bounds(s: Seq<char>, c: char)
    ensures
        crate::diff_parse::first_index_of(s, c) matches Some(k) ==> 0 <= k < s.len() && s[k] == c
            && forall|j: int| 0 <= j < k ==> s[j] != c,
{
    if exists|i: int| 0 <= i < s.len() && s[i] == c {
        let i = choose|i: int| 0 <= i < s.len() && s[i] == c;
        lemma_first_exists(s, c, i);
    }
}

proof fn lemma_parts_same_case(a: Seq<char>, b: Seq<char>, k: int)
    requires
        same_up_to_ascii_case(a, b),
        0 <= k < a.len(),
    ensures
        same_up_to_ascii_case(a.take(k), b.take(k)),
        same_up_to_ascii_case(a.skip(k + 1), b.skip(k + 1)),
{
    let (ta, tb) = (a.take(k), b.take(k));
    let (sa, sb) = (a.skip(k + 1), b.skip(k + 1));
    assert forall|i: int| 0 <= i < ta.len() implies lower_char(#[trigger] ta[i]) == lower_char(
        tb[i],
    ) by {
        assert(ta[i] == a[i] && tb[i] == b[i]);
    }
    assert forall|i: int| 0 <= i < sa.len() implies lower_char(#[trigger] sa[i]) == lower_char(
        sb[i],
    ) by {
        assert(sa[i] == a[i + k + 1] && sb[i] == b[i + k + 1]);
    }
}

#[verifier::spinoff_prover]
proof fn lemma_first_index_same_case(a: Seq<char>, b: Seq<char>, c: char)
    requires
        same_up_to_ascii_case(a, b),
        non_letter(c),
    ensures
        crate::diff_parse::first_index_of(a, c) == crate::diff_parse::first_index_of(b, c),
{
    lemma_same_positions(a, b, c);
    lemma_first_index_bounds(a, c);
    lemma_first_index_bounds(b, c);
    let fa = crate::diff_parse::first_index_of(a, c);
    let fb = crate::diff_parse::first_index_of(b, c);
    if fa is Some {
        let ka = fa->0;
        assert(b[ka] == c);
        assert(fb is Some);
    }
    if fb is Some {
        let kb = fb->0;
        assert(a[kb] == c);
        assert(fa is Some);
    }
    if fa is Some && fb is Some {
        let ka = fa->0;
        let kb = fb->0;
        if ka < kb {
            assert(b[ka] == c);
        } else if kb < ka {
            assert(a[kb] == c);
        }
    }
}

/// A collection that differs only in ASCII case is the same collection.
#[verifier::spinoff_prover]
#[verifier::rlimit(80)]
pub proof fn lemma_collection_ignores_case(a: Seq<char>, b: Seq<char>)
    requires
        same_up_to_ascii_case(a, b),
    ensures
        canonical_collection(a) == canonical_collection(b),
{
    lemma_first_index_same_case(a, b, '/');
    lemma_first_index_bounds(a, '/');
    let f = crate::diff_parse::first_index_of(a, '/');
    assert(crate::diff_parse::first_index_of(b, '/') == f);
    if f is Some {
        let k = f->0;
        lemma_parts_same_case(a, b, k);
        lemma_same_positions(a.skip(k + 1), b.skip(k + 1), '/');
        lemma_label_same_case(a.take(k), b.take(k));
        lemma_label_same_case(a.skip(k + 1), b.skip(k + 1));
        lemma_lower_same(a.take(k), b.take(k));
        lemma_lower_same(a.skip(k + 1), b.skip(k + 1));
        assert(collection_component(a.take(k), "collection owner"@) == collection_component(
            b.take(k),
            "collection owner"@,
        ));
        assert(collection_component(a.skip(k + 1), "collection repository"@)
            == collection_component(b.skip(k + 1), "collection repository"@));
    }
}

/// The snapshot identity does not depend on the ASCII case of the provider
/// instance or the collection, nor on one trailing dot of the instance.
#[verifier::spinoff_prover]
pub proof fn lemma_identity_ignores_selection_case(f1: ProviderSnapshotFacts, f2: ProviderSnapshotFacts)
    requires
        same_up_to_ascii_case(
            strip_trailing_dot(f1.selection.provider_instance@),
            strip_trailing_dot(f2.selection.provider_instance@),
        ),
        same_up_to_ascii_case(f1.selection.collection@, f2.selection.collection@),
        f1.selection.provider_kind == f2.selection.provider_kind,
        f1.selection.work_kind == f2.selection.work_kind,
        f1.selection.states@ == f2.selection.states@,
        f1.selection.draft_policy == f2.selection.draft_policy,
        f1.selection.traversal_mode == f2.selection.traversal_mode,
        f1.selection.page_size == f2.selection.page_size,
        f1.selection.max_items == f2.selection.max_items,
        f1.selection.order_field == f2.selection.order_field,
        f1.selection.order_direction == f2.selection.order_direction,
        f1.selection.tie_break == f2.selection.tie_break,
        f1.work@ == f2.work@,
        f1.coordination_edges@ == f2.coordination_edges@,
    ensures
        snapshot_identity(f1) == snapshot_identity(f2),
{
    lemma_host_ignores_case_and_trailing_dot(
        f1.selection.provider_instance@,
        f2.selection.provider_instance@,
    );
    lemma_collection_ignores_case(f1.selection.collection@, f2.selection.collection@);
    assert(coverage_json(f1.selection) == coverage_json(f2.selection));
    assert(states_json(f1.selection.states@) == states_json(f2.selection.states@));
    assert(selection_json(f1.selection) == selection_json(f2.selection));
    assert(work_facts_json(f1.work@, f1.coordination_edges@) == work_facts_json(
        f2.work@,
        f2.coordination_edges@,
    ));
}

/// A head sha that differs only in ASCII case is the same head sha.
pub proof fn lemma_head_sha_ignores_case(a: Seq<char>, b: Seq<char>)
    requires
        same_up_to_ascii_case(a, b),
    ensures
        head_sha(a) == head_sha(b),
{
    lemma_label_same_case(a, b);
}

proof fn lemma_insert_contains<A>(t: Seq<A>, k: int, x: A)
    requires
        0 <= k <= t.len(),
    ensures
        forall|y: A| #[trigger] t.insert(k, x).contains(y) <==> (t.contains(y) || y == x),
{
    let r = t.insert(k, x);
    assert forall|y: A| #[trigger] r.contains(y) <==> (t.contains(y) || y == x) by {
        if r.contains(y) {
            let i = choose|i: int| 0 <= i < r.len() && r[i] == y;
            if i < k {
                assert(t[i] == y);
            } else if i > k {
                assert(t[i - 1] == y);
            }
        }
        if t.contains(y) {
            let m = choose|m: int| 0 <= m < t.len() && t[m] == y;
            if m < k {
                assert(r[m] == y);
            } else {
                assert(r[m + 1] == y);
            }
        }
        if y == x {
            assert(r[k] == y);
        }
    }
}

// ---------------------------------------------------------------------------
// Independence of the order of the work facts.

/// No two work documents share an id.
pub open spec fn work_ids_distinct(ws: Seq<WorkDoc>) -> bool {
    forall|i: int, j: int| 0 <= i < j < ws.len() ==> (#[trigger] ws[i]).id != (#[trigger] ws[j]).id
}

/// Work documents in strictly ascending id order.
pub open spec fn sorted_by_id(ws: Seq<WorkDoc>) -> bool {
    forall|i: int, j: int| 0 <= i < j < ws.len() ==> seq_less((#[trigger] ws[i]).id, (#[trigger] ws[j]).id)
}

#[verifier::spinoff_prover]
#[verifier::rlimit(50)]
proof fn lemma_insert_position(t: Seq<WorkDoc>, x: WorkDoc)
    requires
        sorted_by_id(t),
        forall|j: int| 0 <= j < t.len() ==> (#[trigger] t[j]).id != x.id,
    ensures
        count_works_less(t, x) <= t.len(),
        forall|j: int| 0 <= j < count_works_less(t, x) ==> seq_less((#[trigger] t[j]).id, x.id),
        forall|j: int| count_works_less(t, x) <= j < t.len() ==> seq_less(x.id, (#[trigger] t[j]).id),
    decreases t.len(),
{
    if t.len() > 0 {
        let t0 = t.drop_last();
        let last = t.last();
        assert(sorted_by_id(t0)) by {
            assert forall|i: int, j: int| 0 <= i < j < t0.len() implies seq_less(
                (#[trigger] t0[i]).id,
                (#[trigger] t0[j]).id,
            ) by {
                assert(t0[i] == t[i] && t0[j] == t[j]);
            }
        }
        assert forall|j: int| 0 <= j < t0.len() implies (#[trigger] t0[j]).id != x.id by {
            assert(t0[j] == t[j]);
        }
        lemma_insert_position(t0, x);
        let k0 = count_works_less(t0, x);
        assert(count_works_less(t, x) == k0 + if seq_less(last.id, x.id) {
            1nat
        } else {
            0nat
        });
        assert(last == t[t.len() - 1]);
        crate::text::lemma_seq_less_total(last.id, x.id);
        if seq_less(last.id, x.id) {
            if k0 < t0.len() {
                assert(t0[k0 as int] == t[k0 as int]);
                assert(seq_less(t[k0 as int].id, last.id));
                crate::text::lemma_seq_less_transitive(t[k0 as int].id, last.id, x.id);
                crate::text::lemma_seq_less_total(x.id, t0[k0 as int].id);
            }
            assert forall|j: int| 0 <= j < count_works_less(t, x) implies seq_less(
                (#[trigger] t[j]).id,
                x.id,
            ) by {
                if j < t0.len() {
                    assert(t0[j] == t[j]);
                }
            }
        } else {
            assert(seq_less(x.id, last.id));
            assert forall|j: int| 0 <= j < count_works_less(t, x) implies seq_less(
                (#[trigger] t[j]).id,
                x.id,
            ) by {
                assert(t0[j] == t[j]);
            }
            assert forall|j: int| count_works_less(t, x) <= j < t.len() implies seq_less(
                x.id,
                (#[trigger] t[j]).id,
            ) by {
                if j < t0.len() {
                    assert(t0[j] == t[j]);
                }
            }
        }
    }
}

#[verifier::spinoff_prover]
#[verifier::rlimit(50)]
proof fn lemma_sort_works_shape(ws: Seq<WorkDoc>)
    requires
        work_ids_distinct(ws),
    ensures
        sorted_by_id(sort_works(ws)),
        sort_works(ws).len() == ws.len(),
        forall|y: WorkDoc| #[trigger] sort_works(ws).contains(y) <==> ws.contains(y),
    decreases ws.len(),
{
    if ws.len() > 0 {
        let w0 = ws.drop_last();
        let x = ws.last();
        assert(work_ids_distinct(w0)) by {
            assert forall|i: int, j: int| 0 <= i < j < w0.len() implies (#[trigger] w0[i]).id
                != (#[trigger] w0[j]).id by {
                assert(w0[i] == ws[i] && w0[j] == ws[j]);
            }
        }
        lemma_sort_works_shape(w0);
        let t = sort_works(w0);
        assert forall|j: int| 0 <= j < t.len() implies (#[trigger] t[j]).id != x.id by {
            assert(t.contains(t[j]));
            assert(w0.contains(t[j]));
            let i = choose|i: int| 0 <= i < w0.len() && w0[i] == t[j];
            assert(ws[i] == w0[i]);
            assert(x == ws[ws.len() - 1]);
        }
        lemma_insert_position(t, x);
        let k = count_works_less(t, x) as int;
        let r = t.insert(k, x);
        assert(sort_works(ws) == r);
        assert forall|i: int, j: int| 0 <= i < j < r.len() implies seq_less(
            (#[trigger] r[i]).id,
            (#[trigger] r[j]).id,
        ) by {
            if j < k {
                assert(r[i] == t[i] && r[j] == t[j]);
            } else if j == k {
                assert(r[i] == t[i]);
            } else if i < k {
                assert(r[i] == t[i] && r[j] == t[j - 1]);
                crate::text::lemma_seq_less_transitive(t[i].id, x.id, t[j - 1].id);
            } else if i == k {
                assert(r[j] == t[j - 1]);
            } else {
                assert(r[i] == t[i - 1] && r[j] == t[j - 1]);
            }
        }
        lemma_insert_contains(t, k, x);
        assert forall|y: WorkDoc| #[trigger] r.contains(y) <==> ws.contains(y) by {
            assert(r.contains(y) == (t.contains(y) || y == x));
            if y == x {
                assert(ws[ws.len() - 1] == y);
            }
            if ws.contains(y) && y != x {
                let i = choose|i: int| 0 <= i < ws.len() && ws[i] == y;
                assert(w0[i] == y);
                assert(w0.contains(y));
                assert(t.contains(y));
            }
            if t.contains(y) {
                assert(w0.contains(y));
                let m = choose|m: int| 0 <= m < w0.len() && w0[m] == y;
                assert(ws[m] == y);
            }
        }
    }
}

#[verifier::spinoff_prover]
#[verifier::rlimit(50)]
proof fn lemma_sorted_unique(a: Seq<WorkDoc>, b: Seq<WorkDoc>)
    requires
        sorted_by_id(a),
        sorted_by_id(b),
        a.len() == b.len(),
        forall|y: WorkDoc| #[trigger] a.contains(y) <==> b.contains(y),
    ensures
        a == b,
    decreases a.len(),
{
    if a.len() > 0 {
        assert(a.contains(a[0]));
        assert(b.contains(a[0]));
        let j = choose|j: int| 0 <= j < b.len() && b[j] == a[0];
        assert(b.contains(b[0]));
        assert(a.contains(b[0]));
        let k = choose|k: int| 0 <= k < a.len() && a[k] == b[0];
        if j > 0 {
            assert(seq_less(b[0].id, b[j].id));
            if k > 0 {
                assert(seq_less(a[0].id, a[k].id));
                crate::text::lemma_seq_less_total(a[0].id, b[0].id);
            } else {
                crate::text::lemma_seq_less_irreflexive(a[0].id);
            }
        }
        assert(a[0] == b[0]);
        let a1 = a.drop_first();
        let b1 = b.drop_first();
        assert(sorted_by_id(a1)) by {
            assert forall|i: int, m: int| 0 <= i < m < a1.len() implies seq_less(
                (#[trigger] a1[i]).id,
                (#[trigger] a1[m]).id,
            ) by {
                assert(a1[i] == a[i + 1] && a1[m] == a[m + 1]);
            }
        }
        assert(sorted_by_id(b1)) by {
            assert forall|i: int, m: int| 0 <= i < m < b1.len() implies seq_less(
                (#[trigger] b1[i]).id,
                (#[trigger] b1[m]).id,
            ) by {
                assert(b1[i] == b[i + 1] && b1[m] == b[m + 1]);
            }
        }
        assert forall|y: WorkDoc| #[trigger] a1.contains(y) <==> b1.contains(y) by {
            if a1.contains(y) {
                let i = choose|i: int| 0 <= i < a1.len() && a1[i] == y;
                assert(a[i + 1] == y);
                assert(seq_less(a[0].id, a[i + 1].id));
                crate::text::lemma_seq_less_irreflexive(a[0].id);
                assert(a.contains(y));
                assert(b.contains(y));
                let m = choose|m: int| 0 <= m < b.len() && b[m] == y;
                assert(m != 0);
                assert(b1[m - 1] == y);
            }
            if b1.contains(y) {
                let i = choose|i: int| 0 <= i < b1.len() && b1[i] == y;
                assert(b[i + 1] == y);
                assert(seq_less(b[0].id, b[i + 1].id));
                crate::text::lemma_seq_less_irreflexive(b[0].id);
                assert(a.contains(y));
                let m = choose|m: int| 0 <= m < a.len() && a[m] == y;
                assert(m != 0);
                assert(a1[m - 1] == y);
            }
        }
        lemma_sorted_unique(a1, b1);
        assert(a =~= seq![a[0]] + a1);
        assert(b =~= seq![b[0]] + b1);
    }
}

/// Work documents with distinct ids are put in one order whatever order
/// they arrive in: two lists with the same documents sort alike.
pub proof fn lemma_sort_works_ignores_order(a: Seq<WorkDoc>, b: Seq<WorkDoc>)
    requires
        work_ids_distinct(a),
        work_ids_distinct(b),
        a.len() == b.len(),
        forall|y: WorkDoc| #[trigger] a.contains(y) <==> b.contains(y),
    ensures
        sort_works(a) == sort_works(b),
{
    lemma_sort_works_shape(a);
    lemma_sort_works_shape(b);
    lemma_sorted_unique(sort_works(a), sort_works(b));
}

proof fn lemma_first_error_none(n: nat, check: spec_fn(int) -> Option<Seq<char>>)
    ensures
        (first_error(n, check) is None) <==> (forall|i: int| 0 <= i < n ==> (#[trigger] check(i)) is None),
    decreases n,
{
    if n > 0 {
        lemma_first_error_none((n - 1) as nat, check);
        if first_error(n, check) is None {
            assert forall|i: int| 0 <= i < n implies (#[trigger] check(i)) is None by {
                if i < n - 1 {
                    assert(first_error((n - 1) as nat, check) is None);
                }
            }
        }
    }
}

proof fn lemma_first_error_same(
    n: nat,
    f: spec_fn(int) -> Option<Seq<char>>,
    g: spec_fn(int) -> Option<Seq<char>>,
)
    requires
        forall|i: int| 0 <= i < n ==> #[trigger] f(i) == g(i),
    ensures
        first_error(n, f) == first_error(n, g),
    decreases n,
{
    if n > 0 {
        lemma_first_error_same((n - 1) as nat, f, g);
        assert(f(n - 1) == g(n - 1));
    }
}

/// The snapshot identity does not depend on the order in which the work
/// facts are listed: any reordering of the facts of an inventory that has an
/// identity has the same identity.
#[verifier::spinoff_prover]
#[verifier::rlimit(60)]
pub proof fn lemma_identity_ignores_work_order(f1: ProviderSnapshotFacts, f2: ProviderSnapshotFacts)
    requires
        f1.selection == f2.selection,
        f1.coordination_edges@ == f2.coordination_edges@,
        f1.work@.to_multiset() == f2.work@.to_multiset(),
        snapshot_identity(f1) is Ok,
    ensures
        snapshot_identity(f1) == snapshot_identity(f2),
{
    broadcast use vstd::seq_lib::to_multiset_len, vstd::seq_lib::to_multiset_contains;

    let w1 = f1.work@;
    let w2 = f2.work@;
    let cs = f1.coordination_edges@;
    assert(w1.len() == w2.len()) by {
        assert(w1.to_multiset().len() == w2.to_multiset().len());
    }
    assert forall|w: ProviderWorkFact| #[trigger] w1.contains(w) <==> w2.contains(w) by {
        assert(w1.to_multiset().count(w) == w2.to_multiset().count(w));
    }
    let c1 = |i: int| work_item_error(w1, i);
    let c2 = |i: int| work_item_error(w2, i);
    assert(first_error(w1.len(), c1) is None);
    lemma_first_error_none(w1.len(), c1);
    // Every fact of the first list is canonical, and their ids are distinct.
    assert forall|i: int, j: int| 0 <= i < j < w1.len() implies (#[trigger] w1[i]).id@
        != (#[trigger] w1[j]).id@ by {
        assert(c1(j) is None);
        assert(work_ids(w1)[i] == w1[i].id@ && work_ids(w1)[j] == w1[j].id@);
    }
    assert(w1.no_duplicates()) by {
        assert forall|i: int, j: int| 0 <= i < w1.len() && 0 <= j < w1.len() && i != j implies w1[i]
            != w1[j] by {
            if i < j {
                assert(w1[i].id@ != w1[j].id@);
            } else {
                assert(w1[j].id@ != w1[i].id@);
            }
        }
    }
    w1.lemma_multiset_has_no_duplicates();
    w2.lemma_multiset_has_no_duplicates_conv();
    assert forall|i: int, j: int| 0 <= i < j < w2.len() implies (#[trigger] w2[i]).id@
        != (#[trigger] w2[j]).id@ by {
        assert(w2.contains(w2[i]) && w2.contains(w2[j]));
        assert(w1.contains(w2[i]) && w1.contains(w2[j]));
        let p = choose|p: int| 0 <= p < w1.len() && w1[p] == w2[i];
        let q = choose|q: int| 0 <= q < w1.len() && w1[q] == w2[j];
        assert(w2[i] != w2[j]);
        if p < q {
            assert(w1[p].id@ != w1[q].id@);
        } else if q < p {
            assert(w1[q].id@ != w1[p].id@);
        }
    }
    assert forall|i: int| 0 <= i < w2.len() implies (#[trigger] c2(i)) is None by {
        assert(w2.contains(w2[i]));
        assert(w1.contains(w2[i]));
        let p = choose|p: int| 0 <= p < w1.len() && w1[p] == w2[i];
        assert(c1(p) is None);
        assert(!repeats_earlier(work_ids(w2), i)) by {
            if repeats_earlier(work_ids(w2), i) {
                let j = choose|j: int| 0 <= j < i && work_ids(w2)[j] == work_ids(w2)[i];
                assert(w2[j].id@ != w2[i].id@);
            }
        }
    }
    lemma_first_error_none(w2.len(), c2);
    // The same ids are known, so the edges check alike.
    assert forall|x: Seq<char>| #[trigger] work_ids(w1).contains(x) <==> work_ids(w2).contains(x) by {
        if work_ids(w1).contains(x) {
            let i = choose|i: int| 0 <= i < work_ids(w1).len() && work_ids(w1)[i] == x;
            assert(w1.contains(w1[i]));
            assert(w2.contains(w1[i]));
            let j = choose|j: int| 0 <= j < w2.len() && w2[j] == w1[i];
            assert(work_ids(w2)[j] == x);
        }
        if work_ids(w2).contains(x) {
            let i = choose|i: int| 0 <= i < work_ids(w2).len() && work_ids(w2)[i] == x;
            assert(w2.contains(w2[i]));
            assert(w1.contains(w2[i]));
            let j = choose|j: int| 0 <= j < w1.len() && w1[j] == w2[i];
            assert(work_ids(w1)[j] == x);
        }
    }
    let e1 = |i: int| edge_error(cs, i, work_ids(w1));
    let e2 = |i: int| edge_error(cs, i, work_ids(w2));
    assert forall|i: int| 0 <= i < cs.len() implies #[trigger] e1(i) == e2(i) by {}
    lemma_first_error_same(cs.len(), e1, e2);
    // The canonical documents sort alike.
    let d1 = w1.map_values(|w: ProviderWorkFact| work_doc(w));
    let d2 = w2.map_values(|w: ProviderWorkFact| work_doc(w));
    assert forall|i: int| 0 <= i < w1.len() implies (#[trigger] d1[i]).id == w1[i].id@ by {
        assert(c1(i) is None);
    }
    assert forall|i: int| 0 <= i < w2.len() implies (#[trigger] d2[i]).id == w2[i].id@ by {
        assert(c2(i) is None);
    }
    assert(work_ids_distinct(d1)) by {
        assert forall|i: int, j: int| 0 <= i < j < d1.len() implies (#[trigger] d1[i]).id
            != (#[trigger] d1[j]).id by {
            assert(w1[i].id@ != w1[j].id@);
        }
    }
    assert(work_ids_distinct(d2)) by {
        assert forall|i: int, j: int| 0 <= i < j < d2.len() implies (#[trigger] d2[i]).id
            != (#[trigger] d2[j]).id by {
            assert(w2[i].id@ != w2[j].id@);
        }
    }
    assert forall|y: WorkDoc| #[trigger] d1.contains(y) <==> d2.contains(y) by {
        if d1.contains(y) {
            let i = choose|i: int| 0 <= i < d1.len() && d1[i] == y;
            assert(w1.contains(w1[i]));
            assert(w2.contains(w1[i]));
            let j = choose|j: int| 0 <= j < w2.len() && w2[j] == w1[i];
            assert(d2[j] == y);
        }
        if d2.contains(y) {
            let i = choose|i: int| 0 <= i < d2.len() && d2[i] == y;
            assert(w2.contains(w2[i]));
            assert(w1.contains(w2[i]));
            let j = choose|j: int| 0 <= j < w1.len() && w1[j] == w2[i];
            assert(d1[j] == y);
        }
    }
    lemma_sort_works_ignores_order(d1, d2);
    assert(work_facts_json(w1, cs) == work_facts_json(w2, cs));
}

// ---------------------------------------------------------------------------
// Independence of the order of a work fact's changed paths.

/// Strings in strictly ascending order.
pub open spec fn sorted_strings(s: Seq<Seq<char>>) -> bool {
    forall|i: int, j: int| 0 <= i < j < s.len() ==> seq_less(#[trigger] s[i], #[trigger] s[j])
}

#[verifier::spinoff_prover]
#[verifier::rlimit(50)]
proof fn lemma_string_insert_position(t: Seq<Seq<char>>, x: Seq<char>)
    requires
        sorted_strings(t),
        !t.contains(x),
    ensures
        count_less(t, x) <= t.len(),
        forall|j: int| 0 <= j < count_less(t, x) ==> seq_less(#[trigger] t[j], x),
        forall|j: int| count_less(t, x) <= j < t.len() ==> seq_less(x, #[trigger] t[j]),
    decreases t.len(),
{
    if t.len() > 0 {
        let t0 = t.drop_last();
        let last = t.last();
        assert(sorted_strings(t0)) by {
            assert forall|i: int, j: int| 0 <= i < j < t0.len() implies seq_less(
                #[trigger] t0[i],
                #[trigger] t0[j],
            ) by {
                assert(t0[i] == t[i] && t0[j] == t[j]);
            }
        }
        assert(!t0.contains(x)) by {
            if t0.contains(x) {
                let j = choose|j: int| 0 <= j < t0.len() && t0[j] == x;
                assert(t[j] == x);
            }
        }
        lemma_string_insert_position(t0, x);
        let k0 = count_less(t0, x);
        assert(count_less(t, x) == k0 + if seq_less(last, x) {
            1nat
        } else {
            0nat
        });
        assert(last == t[t.len() - 1]);
        crate::text::lemma_seq_less_total(last, x);
        if seq_less(last, x) {
            if k0 < t0.len() {
                assert(t0[k0 as int] == t[k0 as int]);
                assert(seq_less(t[k0 as int], last));
                crate::text::lemma_seq_less_transitive(t[k0 as int], last, x);
                crate::text::lemma_seq_less_total(x, t0[k0 as int]);
            }
            assert forall|j: int| 0 <= j < count_less(t, x) implies seq_less(#[trigger] t[j], x) by {
                if j < t0.len() {
                    assert(t0[j] == t[j]);
                }
            }
        } else {
            assert(seq_less(x, last));
            assert forall|j: int| 0 <= j < count_less(t, x) implies seq_less(#[trigger] t[j], x) by {
                assert(t0[j] == t[j]);
            }
            assert forall|j: int| count_less(t, x) <= j < t.len() implies seq_less(x, #[trigger] t[j]) by {
                if j < t0.len() {
                    assert(t0[j] == t[j]);
                }
            }
        }
    }
}

#[verifier::spinoff_prover]
#[verifier::rlimit(50)]
proof fn lemma_sort_strings_shape(s: Seq<Seq<char>>)
    requires
        s.no_duplicates(),
    ensures
        sorted_strings(sort_strings(s)),
        sort_strings(s).len() == s.len(),
        forall|y: Seq<char>| #[trigger] sort_strings(s).contains(y) <==> s.contains(y),
    decreases s.len(),
{
    if s.len() > 0 {
        let s0 = s.drop_last();
        let x = s.last();
        assert(s0.no_duplicates()) by {
            assert forall|i: int, j: int| 0 <= i < s0.len() && 0 <= j < s0.len() && i != j implies s0[i]
                != s0[j] by {
                assert(s0[i] == s[i] && s0[j] == s[j]);
            }
        }
        lemma_sort_strings_shape(s0);
        let t = sort_strings(s0);
        assert(!t.contains(x)) by {
            if t.contains(x) {
                assert(s0.contains(x));
                let i = choose|i: int| 0 <= i < s0.len() && s0[i] == x;
                assert(s[i] == s[s.len() - 1]);
            }
        }
        lemma_string_insert_position(t, x);
        let k = count_less(t, x) as int;
        let r = t.insert(k, x);
        assert(sort_strings(s) == r);
        assert forall|i: int, j: int| 0 <= i < j < r.len() implies seq_less(
            #[trigger] r[i],
            #[trigger] r[j],
        ) by {
            if j < k {
                assert(r[i] == t[i] && r[j] == t[j]);
            } else if j == k {
                assert(r[i] == t[i]);
            } else if i < k {
                assert(r[i] == t[i] && r[j] == t[j - 1]);
                crate::text::lemma_seq_less_transitive(t[i], x, t[j - 1]);
            } else if i == k {
                assert(r[j] == t[j - 1]);
            } else {
                assert(r[i] == t[i - 1] && r[j] == t[j - 1]);
            }
        }
        lemma_insert_contains(t, k, x);
        assert forall|y: Seq<char>| #[trigger] r.contains(y) <==> s.contains(y) by {
            assert(r.contains(y) == (t.contains(y) || y == x));
            if y == x {
                assert(s[s.len() - 1] == y);
            }
            if s.contains(y) && y != x {
                let i = choose|i: int| 0 <= i < s.len() && s[i] == y;
                assert(s0[i] == y);
                assert(s0.contains(y));
                assert(t.contains(y));
            }
            if t.contains(y) {
                assert(s0.contains(y));
                let m = choose|m: int| 0 <= m < s0.len() && s0[m] == y;
                assert(s[m] == y);
            }
        }
    }
}

#[verifier::spinoff_prover]
#[verifier::rlimit(50)]
proof fn lemma_sorted_strings_unique(a: Seq<Seq<char>>, b: Seq<Seq<char>>)
    requires
        sorted_strings(a),
        sorted_strings(b),
        a.len() == b.len(),
        forall|y: Seq<char>| #[trigger] a.contains(y) <==> b.contains(y),
    ensures
        a == b,
    decreases a.len(),
{
    if a.len() > 0 {
        assert(a.contains(a[0]));
        assert(b.contains(a[0]));
        let j = choose|j: int| 0 <= j < b.len() && b[j] == a[0];
        assert(b.contains(b[0]));
        assert(a.contains(b[0]));
        let k = choose|k: int| 0 <= k < a.len() && a[k] == b[0];
        if j > 0 {
            assert(seq_less(b[0], b[j]));
            if k > 0 {
                assert(seq_less(a[0], a[k]));
                crate::text::lemma_seq_less_total(a[0], b[0]);
            } else {
                crate::text::lemma_seq_less_irreflexive(a[0]);
            }
        }
        assert(a[0] == b[0]);
        let a1 = a.drop_first();
        let b1 = b.drop_first();
        assert(sorted_strings(a1)) by {
            assert forall|i: int, m: int| 0 <= i < m < a1.len() implies seq_less(
                #[trigger] a1[i],
                #[trigger] a1[m],
            ) by {
                assert(a1[i] == a[i + 1] && a1[m] == a[m + 1]);
            }
        }
        assert(sorted_strings(b1)) by {
            assert forall|i: int, m: int| 0 <= i < m < b1.len() implies seq_less(
                #[trigger] b1[i],
                #[trigger] b1[m],
            ) by {
                assert(b1[i] == b[i + 1] && b1[m] == b[m + 1]);
            }
        }
        assert forall|y: Seq<char>| #[trigger] a1.contains(y) <==> b1.contains(y) by {
            if a1.contains(y) {
                let i = choose|i: int| 0 <= i < a1.len() && a1[i] == y;
                assert(a[i + 1] == y);
                assert(seq_less(a[0], a[i + 1]));
                crate::text::lemma_seq_less_irreflexive(a[0]);
                assert(a.contains(y));
                assert(b.contains(y));
                let m = choose|m: int| 0 <= m < b.len() && b[m] == y;
                assert(m != 0);
                assert(b1[m - 1] == y);
            }
            if b1.contains(y) {
                let i = choose|i: int| 0 <= i < b1.len() && b1[i] == y;
                assert(b[i + 1] == y);
                assert(seq_less(b[0], b[i + 1]));
                crate::text::lemma_seq_less_irreflexive(b[0]);
                assert(b.contains(y));
                assert(a.contains(y));
                let m = choose|m: int| 0 <= m < a.len() && a[m] == y;
                assert(m != 0);
                assert(a1[m - 1] == y);
            }
        }
        lemma_sorted_strings_unique(a1, b1);
        assert(a =~= seq![a[0]] + a1);
        assert(b =~= seq![b[0]] + b1);
    }
}

/// A work fact whose changed paths are listed in another order, or whose
/// head sha differs only in ASCII case, has the same canonical form, when it
/// has one.
#[verifier::spinoff_prover]
#[verifier::rlimit(60)]
pub proof fn lemma_canonical_work_ignores_path_order_and_head_case(
    w1: ProviderWorkFact,
    w2: ProviderWorkFact,
)
    requires
        w1.id@ == w2.id@,
        same_up_to_ascii_case(w1.head_sha@, w2.head_sha@),
        w1.activity == w2.activity,
        strings_view(w1.changed_paths@).to_multiset() == strings_view(w2.changed_paths@).to_multiset(),
        canonical_work(w1) is Ok,
    ensures
        canonical_work(w1) == canonical_work(w2),
{
    broadcast use vstd::seq_lib::to_multiset_len, vstd::seq_lib::to_multiset_contains;

    lemma_head_sha_ignores_case(w1.head_sha@, w2.head_sha@);
    let p1 = strings_view(w1.changed_paths@);
    let p2 = strings_view(w2.changed_paths@);
    let id = work_id(w1.id@)->Ok_0;
    assert(p1.len() == p2.len()) by {
        assert(p1.to_multiset().len() == p2.to_multiset().len());
    }
    assert forall|y: Seq<char>| #[trigger] p1.contains(y) <==> p2.contains(y) by {
        assert(p1.to_multiset().count(y) == p2.to_multiset().count(y));
    }
    let c1 = |i: int| work_path_error(p1, id, i);
    let c2 = |i: int| work_path_error(p2, id, i);
    assert(first_error(p1.len(), c1) is None);
    lemma_first_error_none(p1.len(), c1);
    assert(p1.no_duplicates()) by {
        assert forall|i: int, j: int| 0 <= i < p1.len() && 0 <= j < p1.len() && i != j implies p1[i]
            != p1[j] by {
            if i < j {
                assert(c1(j) is None);
            } else {
                assert(c1(i) is None);
            }
        }
    }
    p1.lemma_multiset_has_no_duplicates();
    p2.lemma_multiset_has_no_duplicates_conv();
    assert forall|i: int| 0 <= i < p2.len() implies (#[trigger] c2(i)) is None by {
        assert(p2.contains(p2[i]));
        assert(p1.contains(p2[i]));
        let k = choose|k: int| 0 <= k < p1.len() && p1[k] == p2[i];
        assert(c1(k) is None);
        assert(!repeats_earlier(p2, i));
    }
    lemma_first_error_none(p2.len(), c2);
    lemma_sort_strings_shape(p1);
    lemma_sort_strings_shape(p2);
    lemma_sorted_strings_unique(sort_strings(p1), sort_strings(p2));
}

/// The snapshot identity does not depend on the order in which any work
/// fact lists its changed paths, nor on the ASCII case of a head sha.
#[verifier::spinoff_prover]
#[verifier::rlimit(60)]
pub proof fn lemma_identity_ignores_path_order_and_head_case(
    f1: ProviderSnapshotFacts,
    f2: ProviderSnapshotFacts,
)
    requires
        f1.selection == f2.selection,
        f1.coordination_edges@ == f2.coordination_edges@,
        f1.work@.len() == f2.work@.len(),
        forall|i: int|
            0 <= i < f1.work@.len() ==> {
                let (a, b) = (#[trigger] f1.work@[i], f2.work@[i]);
                &&& a.id@ == b.id@
                &&& same_up_to_ascii_case(a.head_sha@, b.head_sha@)
                &&& a.activity == b.activity
                &&& strings_view(a.changed_paths@).to_multiset() == strings_view(
                    b.changed_paths@,
                ).to_multiset()
            },
        snapshot_identity(f1) is Ok,
    ensures
        snapshot_identity(f1) == snapshot_identity(f2),
{
    let w1 = f1.work@;
    let w2 = f2.work@;
    let cs = f1.coordination_edges@;
    let c1 = |i: int| work_item_error(w1, i);
    let c2 = |i: int| work_item_error(w2, i);
    assert(first_error(w1.len(), c1) is None);
    lemma_first_error_none(w1.len(), c1);
    assert(work_ids(w1) =~= work_ids(w2));
    assert forall|i: int| 0 <= i < w1.len() implies canonical_work(#[trigger] w1[i]) == canonical_work(
        w2[i],
    ) by {
        assert(c1(i) is None);
        lemma_canonical_work_ignores_path_order_and_head_case(w1[i], w2[i]);
    }
    assert forall|i: int| 0 <= i < w1.len() implies #[trigger] c1(i) == c2(i) by {
        assert(canonical_work(w1[i]) == canonical_work(w2[i]));
    }
    lemma_first_error_same(w1.len(), c1, c2);
    let d1 = w1.map_values(|w: ProviderWorkFact| work_doc(w));
    let d2 = w2.map_values(|w: ProviderWorkFact| work_doc(w));
    assert(d1 =~= d2) by {
        assert forall|i: int| 0 <= i < d1.len() implies d1[i] == d2[i] by {
            assert(canonical_work(w1[i]) == canonical_work(w2[i]));
        }
    }
    assert(work_facts_json(w1, cs) == work_facts_json(w2, cs));
}

/// The selection's states give the same document in any order, when they
/// give one.
#[verifier::spinoff_prover]
pub proof fn lemma_states_ignore_order(a: Seq<ProviderState>, b: Seq<ProviderState>)
    requires
        a.to_multiset() == b.to_multiset(),
        states_json(a) is Ok,
    ensures
        states_json(a) == states_json(b),
{
    broadcast use vstd::seq_lib::to_multiset_len, vstd::seq_lib::to_multiset_contains;

    vstd::seq_lib::to_multiset_len(a);
    vstd::seq_lib::to_multiset_len(b);
    assert forall|y: ProviderState| #[trigger] a.contains(y) <==> b.contains(y) by {
        vstd::seq_lib::to_multiset_contains(a, y);
        vstd::seq_lib::to_multiset_contains(b, y);
    }
    let c1 = |i: int| state_repeat_error(a, i);
    let c2 = |i: int| state_repeat_error(b, i);
    lemma_first_error_none(a.len(), c1);
    assert(a.no_duplicates()) by {
        assert forall|i: int, j: int| 0 <= i < a.len() && 0 <= j < a.len() && i != j implies a[i]
            != a[j] by {
            if i < j {
                assert(c1(j) is None);
            } else {
                assert(c1(i) is None);
            }
        }
    }
    a.lemma_multiset_has_no_duplicates();
    b.lemma_multiset_has_no_duplicates_conv();
    assert forall|i: int| 0 <= i < b.len() implies (#[trigger] c2(i)) is None by {}
    lemma_first_error_none(b.len(), c2);
    assert(a.contains(ProviderState::Open) == b.contains(ProviderState::Open));
    assert(a.contains(ProviderState::Closed) == b.contains(ProviderState::Closed));
}

/// The snapshot identity does not depend on the order in which the
/// selection lists its states.
#[verifier::spinoff_prover]
pub proof fn lemma_identity_ignores_state_order(f1: ProviderSnapshotFacts, f2: ProviderSnapshotFacts)
    requires
        f1.selection.states@.to_multiset() == f2.selection.states@.to_multiset(),
        f1.selection.provider_kind == f2.selection.provider_kind,
        f1.selection.provider_instance@ == f2.selection.provider_instance@,
        f1.selection.collection@ == f2.selection.collection@,
        f1.selection.work_kind == f2.selection.work_kind,
        f1.selection.draft_policy == f2.selection.draft_policy,
        f1.selection.traversal_mode == f2.selection.traversal_mode,
        f1.selection.page_size == f2.selection.page_size,
        f1.selection.max_items == f2.selection.max_items,
        f1.selection.order_field == f2.selection.order_field,
        f1.selection.order_direction == f2.selection.order_direction,
        f1.selection.tie_break == f2.selection.tie_break,
        f1.work@ == f2.work@,
        f1.coordination_edges@ == f2.coordination_edges@,
        snapshot_identity(f1) is Ok,
    ensures
        snapshot_identity(f1) == snapshot_identity(f2),
{
    lemma_states_ignore_order(f1.selection.states@, f2.selection.states@);
    assert(coverage_json(f1.selection) == coverage_json(f2.selection));
    assert(selection_json(f1.selection) == selection_json(f2.selection));
    assert(work_facts_json(f1.work@, f1.coordination_edges@) == work_facts_json(
        f2.work@,
        f2.coordination_edges@,
    ));
}

// ---------------------------------------------------------------------------
// Independence of the order of the coordination edges.

proof fn lemma_edge_order(a: EdgeDoc, b: EdgeDoc, c: EdgeDoc)
    ensures
        !edge_less(a, a),
        a != b ==> edge_less(a, b) || edge_less(b, a),
        !(edge_less(a, b) && edge_less(b, a)),
        edge_less(a, b) && edge_less(b, c) ==> edge_less(a, c),
{
    crate::text::lemma_seq_less_irreflexive(a.from);
    crate::text::lemma_seq_less_irreflexive(a.to);
    crate::text::lemma_seq_less_total(a.from, b.from);
    crate::text::lemma_seq_less_total(a.to, b.to);
    if edge_less(a, b) && edge_less(b, c) {
        if seq_less(a.from, b.from) && seq_less(b.from, c.from) {
            crate::text::lemma_seq_less_transitive(a.from, b.from, c.from);
        }
        if seq_less(a.to, b.to) && seq_less(b.to, c.to) {
            crate::text::lemma_seq_less_transitive(a.to, b.to, c.to);
        }
    }
    if a != b && kind_rank(a.kind) == kind_rank(b.kind) && a.from == b.from && a.to == b.to {
        assert(a.kind == b.kind);
    }
}

/// Edges in strictly ascending order.
pub open spec fn sorted_edges(s: Seq<EdgeDoc>) -> bool {
    forall|i: int, j: int| 0 <= i < j < s.len() ==> edge_less(#[trigger] s[i], #[trigger] s[j])
}

#[verifier::spinoff_prover]
#[verifier::rlimit(50)]
proof fn lemma_edge_insert_position(t: Seq<EdgeDoc>, x: EdgeDoc)
    requires
        sorted_edges(t),
        !t.contains(x),
    ensures
        count_edges_less(t, x) <= t.len(),
        forall|j: int| 0 <= j < count_edges_less(t, x) ==> edge_less(#[trigger] t[j], x),
        forall|j: int| count_edges_less(t, x) <= j < t.len() ==> edge_less(x, #[trigger] t[j]),
    decreases t.len(),
{
    if t.len() > 0 {
        let t0 = t.drop_last();
        let last = t.last();
        assert(sorted_edges(t0)) by {
            assert forall|i: int, j: int| 0 <= i < j < t0.len() implies edge_less(
                #[trigger] t0[i],
                #[trigger] t0[j],
            ) by {
                assert(t0[i] == t[i] && t0[j] == t[j]);
            }
        }
        assert(!t0.contains(x)) by {
            if t0.contains(x) {
                let j = choose|j: int| 0 <= j < t0.len() && t0[j] == x;
                assert(t[j] == x);
            }
        }
        lemma_edge_insert_position(t0, x);
        let k0 = count_edges_less(t0, x);
        assert(count_edges_less(t, x) == k0 + if edge_less(last, x) {
            1nat
        } else {
            0nat
        });
        assert(last == t[t.len() - 1]);
        lemma_edge_order(last, x, last);
        if edge_less(last, x) {
            if k0 < t0.len() {
                assert(t0[k0 as int] == t[k0 as int]);
                assert(edge_less(t[k0 as int], last));
                lemma_edge_order(t[k0 as int], last, x);
                lemma_edge_order(x, t0[k0 as int], x);
            }
            assert forall|j: int| 0 <= j < count_edges_less(t, x) implies edge_less(#[trigger] t[j], x) by {
                if j < t0.len() {
                    assert(t0[j] == t[j]);
                }
            }
        } else {
            assert(edge_less(x, last));
            assert forall|j: int| 0 <= j < count_edges_less(t, x) implies edge_less(#[trigger] t[j], x) by {
                assert(t0[j] == t[j]);
            }
            assert forall|j: int| count_edges_less(t, x) <= j < t.len() implies edge_less(x, #[trigger] t[j]) by {
                if j < t0.len() {
                    assert(t0[j] == t[j]);
                }
            }
        }
    }
}

#[verifier::spinoff_prover]
#[verifier::rlimit(50)]
proof fn lemma_edge_set_shape(es: Seq<EdgeDoc>)
    ensures
        sorted_edges(edge_set(es)),
        forall|y: EdgeDoc| #[trigger] edge_set(es).contains(y) <==> es.contains(y),
    decreases es.len(),
{
    if es.len() > 0 {
        let e0 = es.drop_last();
        let x = es.last();
        lemma_edge_set_shape(e0);
        let t = edge_set(e0);
        if t.contains(x) {
            assert(edge_set(es) == t);
            assert forall|y: EdgeDoc| #[trigger] t.contains(y) <==> es.contains(y) by {
                if t.contains(y) {
                    assert(e0.contains(y));
                    let i = choose|i: int| 0 <= i < e0.len() && e0[i] == y;
                    assert(es[i] == y);
                }
                if es.contains(y) {
                    let i = choose|i: int| 0 <= i < es.len() && es[i] == y;
                    if i < es.len() - 1 {
                        assert(e0[i] == y);
                        assert(e0.contains(y));
                    }
                }
            }
        } else {
            lemma_edge_insert_position(t, x);
            let k = count_edges_less(t, x) as int;
            let r = t.insert(k, x);
            assert(edge_set(es) == r);
            assert forall|i: int, j: int| 0 <= i < j < r.len() implies edge_less(
                #[trigger] r[i],
                #[trigger] r[j],
            ) by {
                if j < k {
                    assert(r[i] == t[i] && r[j] == t[j]);
                } else if j == k {
                    assert(r[i] == t[i]);
                } else if i < k {
                    assert(r[i] == t[i] && r[j] == t[j - 1]);
                    lemma_edge_order(t[i], x, t[j - 1]);
                } else if i == k {
                    assert(r[j] == t[j - 1]);
                } else {
                    assert(r[i] == t[i - 1] && r[j] == t[j - 1]);
                }
            }
            lemma_insert_contains(t, k, x);
            assert forall|y: EdgeDoc| #[trigger] r.contains(y) <==> es.contains(y) by {
                assert(r.contains(y) == (t.contains(y) || y == x));
                if y == x {
                    assert(es[es.len() - 1] == y);
                }
                if es.contains(y) && y != x {
                    let i = choose|i: int| 0 <= i < es.len() && es[i] == y;
                    assert(e0[i] == y);
                    assert(e0.contains(y));
                    assert(t.contains(y));
                }
                if t.contains(y) {
                    assert(e0.contains(y));
                    let m = choose|m: int| 0 <= m < e0.len() && e0[m] == y;
                    assert(es[m] == y);
                }
            }
        }
    }
}

#[verifier::spinoff_prover]
#[verifier::rlimit(50)]
proof fn lemma_sorted_edges_unique(a: Seq<EdgeDoc>, b: Seq<EdgeDoc>)
    requires
        sorted_edges(a),
        sorted_edges(b),
        forall|y: EdgeDoc| #[trigger] a.contains(y) <==> b.contains(y),
    ensures
        a == b,
    decreases a.len() + b.len(),
{
    if a.len() == 0 {
        if b.len() > 0 {
            assert(b.contains(b[0]));
            assert(a.contains(b[0]));
        }
        assert(a =~= b);
    } else {
        assert(a.contains(a[0]));
        assert(b.contains(a[0]));
        let j = choose|j: int| 0 <= j < b.len() && b[j] == a[0];
        assert(b.contains(b[0]));
        assert(a.contains(b[0]));
        let k = choose|k: int| 0 <= k < a.len() && a[k] == b[0];
        if j > 0 {
            assert(edge_less(b[0], b[j]));
            lemma_edge_order(a[0], b[0], a[0]);
            if k > 0 {
                assert(edge_less(a[0], a[k]));
            }
        }
        assert(a[0] == b[0]);
        let a1 = a.drop_first();
        let b1 = b.drop_first();
        assert(sorted_edges(a1)) by {
            assert forall|i: int, m: int| 0 <= i < m < a1.len() implies edge_less(
                #[trigger] a1[i],
                #[trigger] a1[m],
            ) by {
                assert(a1[i] == a[i + 1] && a1[m] == a[m + 1]);
            }
        }
        assert(sorted_edges(b1)) by {
            assert forall|i: int, m: int| 0 <= i < m < b1.len() implies edge_less(
                #[trigger] b1[i],
                #[trigger] b1[m],
            ) by {
                assert(b1[i] == b[i + 1] && b1[m] == b[m + 1]);
            }
        }
        assert forall|y: EdgeDoc| #[trigger] a1.contains(y) <==> b1.contains(y) by {
            if a1.contains(y) {
                let i = choose|i: int| 0 <= i < a1.len() && a1[i] == y;
                assert(a[i + 1] == y);
                assert(edge_less(a[0], a[i + 1]));
                lemma_edge_order(a[0], a[0], a[0]);
                assert(a.contains(y));
                assert(b.contains(y));
                let m = choose|m: int| 0 <= m < b.len() && b[m] == y;
                assert(m != 0);
                assert(b1[m - 1] == y);
            }
            if b1.contains(y) {
                let i = choose|i: int| 0 <= i < b1.len() && b1[i] == y;
                assert(b[i + 1] == y);
                assert(edge_less(b[0], b[i + 1]));
                lemma_edge_order(b[0], b[0], b[0]);
                assert(b.contains(y));
                assert(a.contains(y));
                let m = choose|m: int| 0 <= m < a.len() && a[m] == y;
                assert(m != 0);
                assert(a1[m - 1] == y);
            }
        }
        lemma_sorted_edges_unique(a1, b1);
        assert(a =~= seq![a[0]] + a1);
        assert(b =~= seq![b[0]] + b1);
    }
}

/// Two edge lists that hold the same edges, in any order and any number of
/// times, give the same ordered set of edges.
pub proof fn lemma_edge_set_ignores_order(a: Seq<EdgeDoc>, b: Seq<EdgeDoc>)
    requires
        forall|y: EdgeDoc| #[trigger] a.contains(y) <==> b.contains(y),
    ensures
        edge_set(a) == edge_set(b),
{
    lemma_edge_set_shape(a);
    lemma_edge_set_shape(b);
    assert forall|y: EdgeDoc| #[trigger] edge_set(a).contains(y) <==> edge_set(b).contains(y) by {
        assert(a.contains(y) <==> b.contains(y));
    }
    lemma_sorted_edges_unique(edge_set(a), edge_set(b));
}

/// The same coordination evidence, one record for one record.
pub open spec fn same_evidence(a: ProviderCoordination, b: ProviderCoordination) -> bool {
    a.kind == b.kind && a.from@ == b.from@ && a.to@ == b.to@ && a.source@ == b.source@
}

/// The snapshot identity does not depend on the order in which the
/// coordination edges are listed.
#[verifier::spinoff_prover]
#[verifier::rlimit(80)]
pub proof fn lemma_identity_ignores_edge_order(f1: ProviderSnapshotFacts, f2: ProviderSnapshotFacts)
    requires
        f1.selection == f2.selection,
        f1.work@ == f2.work@,
        f1.coordination_edges@.to_multiset() == f2.coordination_edges@.to_multiset(),
        snapshot_identity(f1) is Ok,
    ensures
        snapshot_identity(f1) == snapshot_identity(f2),
{
    let ws = f1.work@;
    let c1 = f1.coordination_edges@;
    let c2 = f2.coordination_edges@;
    let ids = work_ids(ws);
    vstd::seq_lib::to_multiset_len(c1);
    vstd::seq_lib::to_multiset_len(c2);
    assert forall|y: ProviderCoordination| #[trigger] c1.contains(y) <==> c2.contains(y) by {
        vstd::seq_lib::to_multiset_contains(c1, y);
        vstd::seq_lib::to_multiset_contains(c2, y);
    }
    let e1 = |i: int| edge_error(c1, i, ids);
    let e2 = |i: int| edge_error(c2, i, ids);
    lemma_first_error_none(c1.len(), e1);
    // No record of the first list repeats the evidence of an earlier one.
    assert forall|p: int, q: int| 0 <= p < q < c1.len() implies !same_evidence(
        #[trigger] c1[p],
        #[trigger] c1[q],
    ) by {
        assert(e1(q) is None);
        if same_evidence(c1[p], c1[q]) {
            assert(exists|j: int|
                0 <= j < q && (#[trigger] c1[j]).kind == c1[q].kind && c1[j].from@ == c1[q].from@
                    && c1[j].to@ == c1[q].to@ && c1[j].source@ == c1[q].source@);
        }
    }
    assert(c1.no_duplicates()) by {
        assert forall|i: int, j: int| 0 <= i < c1.len() && 0 <= j < c1.len() && i != j implies c1[i]
            != c1[j] by {
            if i < j {
                assert(!same_evidence(c1[i], c1[j]));
            } else {
                assert(!same_evidence(c1[j], c1[i]));
            }
        }
    }
    c1.lemma_multiset_has_no_duplicates();
    c2.lemma_multiset_has_no_duplicates_conv();
    assert forall|i: int| 0 <= i < c2.len() implies (#[trigger] e2(i)) is None by {
        assert(c2.contains(c2[i]));
        assert(c1.contains(c2[i]));
        let p = choose|p: int| 0 <= p < c1.len() && c1[p] == c2[i];
        assert(e1(p) is None);
        assert(!exists|j: int|
            0 <= j < i && (#[trigger] c2[j]).kind == c2[i].kind && c2[j].from@ == c2[i].from@
                && c2[j].to@ == c2[i].to@ && c2[j].source@ == c2[i].source@) by {
            if exists|j: int|
                0 <= j < i && (#[trigger] c2[j]).kind == c2[i].kind && c2[j].from@ == c2[i].from@
                    && c2[j].to@ == c2[i].to@ && c2[j].source@ == c2[i].source@ {
                let j = choose|j: int|
                    0 <= j < i && (#[trigger] c2[j]).kind == c2[i].kind && c2[j].from@
                        == c2[i].from@ && c2[j].to@ == c2[i].to@ && c2[j].source@ == c2[i].source@;
                assert(c2[j] != c2[i]);
                assert(c2.contains(c2[j]));
                assert(c1.contains(c2[j]));
                let q = choose|q: int| 0 <= q < c1.len() && c1[q] == c2[j];
                assert(p != q);
                if q < p {
                    assert(!same_evidence(c1[q], c1[p]));
                } else {
                    assert(!same_evidence(c1[p], c1[q]));
                }
            }
        }
    }
    lemma_first_error_none(c2.len(), e2);
    let m1 = c1.map_values(|c: ProviderCoordination| semantic_edge(c));
    let m2 = c2.map_values(|c: ProviderCoordination| semantic_edge(c));
    assert forall|y: EdgeDoc| #[trigger] m1.contains(y) <==> m2.contains(y) by {
        if m1.contains(y) {
            let i = choose|i: int| 0 <= i < m1.len() && m1[i] == y;
            assert(c1.contains(c1[i]));
            assert(c2.contains(c1[i]));
            let j = choose|j: int| 0 <= j < c2.len() && c2[j] == c1[i];
            assert(m2[j] == y);
        }
        if m2.contains(y) {
            let i = choose|i: int| 0 <= i < m2.len() && m2[i] == y;
            assert(c2.contains(c2[i]));
            assert(c1.contains(c2[i]));
            let j = choose|j: int| 0 <= j < c1.len() && c1[j] == c2[i];
            assert(m1[j] == y);
        }
    }
    lemma_edge_set_ignores_order(m1, m2);
    assert(work_facts_json(ws, c1) == work_facts_json(ws, c2));
}

/// The snapshot identity does not change when an edge already present is
/// recorded once more from another valid source.
#[verifier::spinoff_prover]
#[verifier::rlimit(80)]
pub proof fn lemma_identity_ignores_repeated_edge(
    f1: ProviderSnapshotFacts,
    f2: ProviderSnapshotFacts,
    k: int,
)
    requires
        f1.selection == f2.selection,
        f1.work@ == f2.work@,
        0 <= k < f1.coordination_edges@.len(),
        f2.coordination_edges@.len() == f1.coordination_edges@.len() + 1,
        forall|i: int|
            0 <= i < f1.coordination_edges@.len() ==> #[trigger] f2.coordination_edges@[i]
                == f1.coordination_edges@[i],
        ({
            let c = f2.coordination_edges@.last();
            let e = f1.coordination_edges@[k];
            &&& c.kind == e.kind
            &&& c.from@ == e.from@
            &&& c.to@ == e.to@
            &&& source_error(c.source@) is None
            &&& forall|j: int|
                0 <= j < f1.coordination_edges@.len() ==> !same_evidence(
                    #[trigger] f1.coordination_edges@[j],
                    c,
                )
        }),
        snapshot_identity(f1) is Ok,
    ensures
        snapshot_identity(f1) == snapshot_identity(f2),
{
    let ws = f1.work@;
    let c1 = f1.coordination_edges@;
    let c2 = f2.coordination_edges@;
    let n = c1.len();
    let c = c2.last();
    let ids = work_ids(ws);
    let e1 = |i: int| edge_error(c1, i, ids);
    let e2 = |i: int| edge_error(c2, i, ids);
    lemma_first_error_none(n, e1);
    assert(c2 =~= c1.push(c));
    assert forall|i: int| 0 <= i < n implies #[trigger] e1(i) == e2(i) by {
        assert(c2[i] == c1[i]);
        assert(forall|j: int| 0 <= j < i ==> c2[j] == c1[j]);
    }
    lemma_first_error_same(n, e1, e2);
    assert(e1(k) is None);
    assert(c2[n as int] == c);
    assert(!exists|j: int|
        0 <= j < n && (#[trigger] c2[j]).kind == c.kind && c2[j].from@ == c.from@ && c2[j].to@
            == c.to@ && c2[j].source@ == c.source@) by {
        if exists|j: int|
            0 <= j < n && (#[trigger] c2[j]).kind == c.kind && c2[j].from@ == c.from@ && c2[j].to@
                == c.to@ && c2[j].source@ == c.source@ {
            let j = choose|j: int|
                0 <= j < n && (#[trigger] c2[j]).kind == c.kind && c2[j].from@ == c.from@
                    && c2[j].to@ == c.to@ && c2[j].source@ == c.source@;
            assert(c2[j] == c1[j]);
            assert(!same_evidence(c1[j], c));
        }
    }
    assert(e2(n as int) is None);
    assert(first_error((n + 1) as nat, e2) == either(first_error(n, e2), e2(n as int)));
    let m1 = c1.map_values(|x: ProviderCoordination| semantic_edge(x));
    let m2 = c2.map_values(|x: ProviderCoordination| semantic_edge(x));
    assert(m2 =~= m1.push(semantic_edge(c)));
    assert(semantic_edge(c) == m1[k]);
    assert forall|y: EdgeDoc| #[trigger] m1.contains(y) <==> m2.contains(y) by {
        if m1.contains(y) {
            let i = choose|i: int| 0 <= i < m1.len() && m1[i] == y;
            assert(m2[i] == y);
        }
        if m2.contains(y) {
            let i = choose|i: int| 0 <= i < m2.len() && m2[i] == y;
            if i < n {
                assert(m1[i] == y);
            } else {
                assert(m1[k] == y);
            }
        }
    }
    lemma_edge_set_ignores_order(m1, m2);
    assert(work_facts_json(ws, c1) == work_facts_json(ws, c2));
}

// ---------------------------------------------------------------------------
// Any sequence of such changes.

/// The selections agree on every field but the instance, the collection and
/// the states.
pub open spec fn same_selection_settings(a: ProviderSelection, b: ProviderSelection) -> bool {
    &&& a.provider_kind == b.provider_kind
    &&& a.work_kind == b.work_kind
    &&& a.draft_policy == b.draft_policy
    &&& a.traversal_mode == b.traversal_mode
    &&& a.page_size == b.page_size
    &&& a.max_items == b.max_items
    &&& a.order_field == b.order_field
    &&& a.order_direction == b.order_direction
    &&& a.tie_break == b.tie_break
}

/// `f2` lists the work facts of `f1` in another order.
pub open spec fn reorders_work(f1: ProviderSnapshotFacts, f2: ProviderSnapshotFacts) -> bool {
    &&& f1.selection == f2.selection
    &&& f1.coordination_edges@ == f2.coordination_edges@
    &&& f1.work@.to_multiset() == f2.work@.to_multiset()
}

/// `f2` lists the changed paths of each work fact in another order, or
/// writes a head sha in another ASCII case.
pub open spec fn reorders_paths_or_head_case(f1: ProviderSnapshotFacts, f2: ProviderSnapshotFacts) -> bool {
    &&& f1.selection == f2.selection
    &&& f1.coordination_edges@ == f2.coordination_edges@
    &&& f1.work@.len() == f2.work@.len()
    &&& forall|i: int|
        0 <= i < f1.work@.len() ==> {
            let (a, b) = (#[trigger] f1.work@[i], f2.work@[i]);
            &&& a.id@ == b.id@
            &&& same_up_to_ascii_case(a.head_sha@, b.head_sha@)
            &&& a.activity == b.activity
            &&& strings_view(a.changed_paths@).to_multiset() == strings_view(
                b.changed_paths@,
            ).to_multiset()
        }
}

/// `f2` lists the selection's states in another order.
pub open spec fn reorders_states(f1: ProviderSnapshotFacts, f2: ProviderSnapshotFacts) -> bool {
    &&& f1.selection.states@.to_multiset() == f2.selection.states@.to_multiset()
    &&& f1.selection.provider_instance@ == f2.selection.provider_instance@
    &&& f1.selection.collection@ == f2.selection.collection@
    &&& same_selection_settings(f1.selection, f2.selection)
    &&& f1.work@ == f2.work@
    &&& f1.coordination_edges@ == f2.coordination_edges@
}

/// `f2` lists the coordination edges in another order.
pub open spec fn reorders_edges(f1: ProviderSnapshotFacts, f2: ProviderSnapshotFacts) -> bool {
    &&& f1.selection == f2.selection
    &&& f1.work@ == f2.work@
    &&& f1.coordination_edges@.to_multiset() == f2.coordination_edges@.to_multiset()
}

/// `f2` records the edge `k` of `f1` once more, from another valid source.
pub open spec fn repeats_edge(f1: ProviderSnapshotFacts, f2: ProviderSnapshotFacts, k: int) -> bool {
    &&& f1.selection == f2.selection
    &&& f1.work@ == f2.work@
    &&& 0 <= k < f1.coordination_edges@.len()
    &&& f2.coordination_edges@.len() == f1.coordination_edges@.len() + 1
    &&& forall|i: int|
        0 <= i < f1.coordination_edges@.len() ==> #[trigger] f2.coordination_edges@[i]
            == f1.coordination_edges@[i]
    &&& {
        let c = f2.coordination_edges@.last();
        let e = f1.coordination_edges@[k];
        &&& c.kind == e.kind
        &&& c.from@ == e.from@
        &&& c.to@ == e.to@
        &&& source_error(c.source@) is None
        &&& forall|j: int|
            0 <= j < f1.coordination_edges@.len() ==> !same_evidence(
                #[trigger] f1.coordination_edges@[j],
                c,
            )
    }
}

/// `f2` writes the provider instance and the collection in another ASCII
/// case, or the instance with or without one trailing dot.
pub open spec fn recases_selection(f1: ProviderSnapshotFacts, f2: ProviderSnapshotFacts) -> bool {
    &&& same_up_to_ascii_case(
        strip_trailing_dot(f1.selection.provider_instance@),
        strip_trailing_dot(f2.selection.provider_instance@),
    )
    &&& same_up_to_ascii_case(f1.selection.collection@, f2.selection.collection@)
    &&& f1.selection.states@ == f2.selection.states@
    &&& same_selection_settings(f1.selection, f2.selection)
    &&& f1.work@ == f2.work@
    &&& f1.coordination_edges@ == f2.coordination_edges@
}

/// One change that leaves a snapshot identity as it is.
#[verifier::opaque]
pub open spec fn identity_preserving_change(f1: ProviderSnapshotFacts, f2: ProviderSnapshotFacts) -> bool {
    ||| reorders_work(f1, f2)
    ||| reorders_paths_or_head_case(f1, f2)
    ||| reorders_states(f1, f2)
    ||| reorders_edges(f1, f2)
    ||| exists|k: int| repeats_edge(f1, f2, k)
    ||| recases_selection(f1, f2)
}

proof fn lemma_identity_step(f1: ProviderSnapshotFacts, f2: ProviderSnapshotFacts)
    requires
        identity_preserving_change(f1, f2),
        snapshot_identity(f1) is Ok,
    ensures
        snapshot_identity(f1) == snapshot_identity(f2),
{
    reveal(identity_preserving_change);
    if reorders_work(f1, f2) {
        lemma_identity_ignores_work_order(f1, f2);
    } else if reorders_paths_or_head_case(f1, f2) {
        lemma_identity_ignores_path_order_and_head_case(f1, f2);
    } else if reorders_states(f1, f2) {
        lemma_identity_ignores_state_order(f1, f2);
    } else if reorders_edges(f1, f2) {
        lemma_identity_ignores_edge_order(f1, f2);
    } else if exists|k: int| repeats_edge(f1, f2, k) {
        let k = choose|k: int| repeats_edge(f1, f2, k);
        lemma_identity_ignores_repeated_edge(f1, f2, k);
    } else {
        lemma_identity_ignores_selection_case(f1, f2);
    }
}

/// The identity of the facts, kept folded while chaining steps.
#[verifier::opaque]
spec fn identity_of(f: ProviderSnapshotFacts) -> Result<Seq<char>, Seq<char>> {
    snapshot_identity(f)
}

proof fn lemma_identity_chain(fs: Seq<ProviderSnapshotFacts>)
    requires
        fs.len() > 0,
        forall|i: int| 0 <= i < fs.len() - 1 ==> identity_preserving_change(#[trigger] fs[i], fs[i + 1]),
        identity_of(fs[0]) is Ok,
    ensures
        forall|i: int| 0 <= i < fs.len() ==> identity_of(#[trigger] fs[i]) == identity_of(fs[0]),
    decreases fs.len(),
{
    if fs.len() > 1 {
        let g = fs.drop_last();
        assert forall|i: int| 0 <= i < g.len() - 1 implies identity_preserving_change(
            #[trigger] g[i],
            g[i + 1],
        ) by {
            assert(g[i] == fs[i] && g[i + 1] == fs[i + 1]);
        }
        assert(g[0] == fs[0]);
        lemma_identity_chain(g);
        let n = fs.len() - 1;
        assert(g[n - 1] == fs[n - 1]);
        assert(identity_preserving_change(fs[n - 1], fs[n]));
        assert(identity_of(fs[n - 1]) == identity_of(fs[n])) by {
            reveal(identity_of);
            lemma_identity_step(fs[n - 1], fs[n]);
        }
        assert forall|i: int| 0 <= i < fs.len() implies identity_of(#[trigger] fs[i]) == identity_of(
            fs[0],
        ) by {
            if i < n {
                assert(g[i] == fs[i]);
            }
        }
    }
}

/// Any sequence of reorderings (of work, changed paths, states or edges),
/// case changes (of the instance, the collection or a head sha), trailing
/// dots and edges repeated from other sources leaves a snapshot identity as
/// it is: every facts of the sequence has the identity of the first.
pub proof fn lemma_identity_ignores_changes(fs: Seq<ProviderSnapshotFacts>)
    requires
        fs.len() > 0,
        forall|i: int| 0 <= i < fs.len() - 1 ==> identity_preserving_change(#[trigger] fs[i], fs[i + 1]),
        snapshot_identity(fs[0]) is Ok,
    ensures
        forall|i: int| 0 <= i < fs.len() ==> snapshot_identity(#[trigger] fs[i]) == snapshot_identity(fs[0]),
{
    reveal(identity_of);
    lemma_identity_chain(fs);
}

} // verus!
