//! Syntax fingerprints of Rust sources: the token trees of a text with its
//! doc attributes (`///`, `//!`, `#[doc ..]`, `#![doc ..]`) removed, so that
//! two versions that differ only in comments and docs compare equal.
use vstd::prelude::*;

use crate::generated_diff::SourceChangeClass;
use crate::text::{chars_eq, chars_of, owned};
use proc_macro2::{Delimiter as D, TokenTree as T};

verus! {

/// How a group of tokens is delimited.
#[derive(Debug, Clone, Copy, PartialEq, Eq, Structural)]
pub enum Delim {
    Parenthesis,
    Brace,
    Bracket,
    Invisible,
}

/// One token tree of a Rust source: a delimited group, an identifier (with
/// its `r#` prefix when raw), a punctuation character with whether it joins
/// the next one, or a literal as written.
#[derive(Debug, PartialEq, Eq)]
pub enum TokenModel {
    Group { delimiter: Delim, stream: Vec<TokenModel> },
    Ident(String),
    Punct { ch: char, joint: bool },
    Literal(String),
}

pub enum TokenView {
    Group(Delim, Seq<TokenView>),
    Ident(Seq<char>),
    Punct(char, bool),
    Literal(Seq<char>),
}

impl TokenModel {
    pub open spec fn token_view(&self) -> TokenView
        decreases self,
    {
        match self {
            TokenModel::Group { delimiter, stream } => TokenView::Group(
                *delimiter,
                tokens_view(stream@),
            ),
            TokenModel::Ident(s) => TokenView::Ident(s@),
            TokenModel::Punct { ch, joint } => TokenView::Punct(*ch, *joint),
            TokenModel::Literal(s) => TokenView::Literal(s@),
        }
    }
}

pub open spec fn tokens_view(s: Seq<TokenModel>) -> Seq<TokenView>
    decreases s,
{
    if s.len() == 0 {
        Seq::empty()
    } else {
        tokens_view(s.drop_last()).push(s.last().token_view())
    }
}

pub proof fn lemma_tokens_view(s: Seq<TokenModel>)
    ensures
        tokens_view(s).len() == s.len(),
        forall|i: int| 0 <= i < s.len() ==> #[trigger] tokens_view(s)[i] == s[i].token_view(),
    decreases s.len(),
{
    if s.len() > 0 {
        lemma_tokens_view(s.drop_last());
    }
}

pub open spec fn lexed_view(r: Option<Vec<TokenModel>>) -> Option<Seq<TokenView>> {
    match r {
        Some(v) => Some(tokens_view(v@)),
        None => None,
    }
}

/// A Rust token stream as `proc-macro2` holds it.
#[verifier::external_type_specification]
#[verifier::external_body]
pub struct ExTokenStream(proc_macro2::TokenStream);

/// The token trees that `rust_tokens_of` reads from a source text, or `None`
/// where it does not lex.
pub uninterp spec fn rust_tokens(source: Seq<char>) -> Option<Seq<TokenView>>;

/// Lexes `source` with `proc_macro2::TokenStream::from_str` (through
/// `str::parse`); a lexing error gives `None`. The contract names the token
/// trees `rust_tokens` of the text; it claims nothing more of them.
#[verifier::external_body]
fn rust_tokens_of(source: &str) -> (r: Option<Vec<TokenModel>>)
    ensures
        lexed_view(r) == rust_tokens(source@),
{
    source.parse::<proc_macro2::TokenStream>().ok().map(token_models)
}

/// Turns a `proc_macro2::TokenStream` into token trees, one for one,
/// descending into groups; used by `rust_tokens_of` only.
#[verifier::external_body]
fn token_models(stream: proc_macro2::TokenStream) -> Vec<TokenModel> {
    stream.into_iter().map(|tree| match tree {
        T::Group(g) => TokenModel::Group {
            delimiter: match g.delimiter() {
                D::Parenthesis => Delim::Parenthesis,
                D::Brace => Delim::Brace,
                D::Bracket => Delim::Bracket,
                D::None => Delim::Invisible,
            },
            stream: token_models(g.stream()),
        },
        T::Ident(i) => TokenModel::Ident(i.to_string()),
        T::Punct(p) => TokenModel::Punct { ch: p.as_char(), joint: p.spacing() == proc_macro2::Spacing::Joint },
        T::Literal(l) => TokenModel::Literal(l.to_string()),
    }).collect()
}

pub open spec fn is_punct(t: TokenView, c: char) -> bool {
    t matches TokenView::Punct(p, _) && p == c
}

/// A bracketed group whose first token is the identifier `doc`.
pub open spec fn is_doc_group(t: TokenView) -> bool {
    t matches TokenView::Group(d, inner) && d == Delim::Bracket && inner.len() > 0 && inner[0]
        == TokenView::Ident("doc"@)
}

/// The token trees with every `#` + doc group and `#` `!` + doc group left
/// out, at every depth, scanning from the front.
pub open spec fn strip_docs(ts: Seq<TokenView>) -> Seq<TokenView>
    decreases ts,
{
    if ts.len() == 0 {
        Seq::empty()
    } else if ts.len() >= 2 && is_punct(ts[0], '#') && is_doc_group(ts[1]) {
        strip_docs(ts.subrange(2, ts.len() as int))
    } else if ts.len() >= 3 && is_punct(ts[0], '#') && is_punct(ts[1], '!') && is_doc_group(
        ts[2],
    ) {
        strip_docs(ts.subrange(3, ts.len() as int))
    } else {
        seq![strip_token(ts[0])] + strip_docs(ts.subrange(1, ts.len() as int))
    }
}

pub open spec fn strip_token(t: TokenView) -> TokenView
    decreases t,
{
    match t {
        TokenView::Group(d, inner) => TokenView::Group(d, strip_docs(inner)),
        _ => t,
    }
}

fn is_punct_exec(t: &TokenModel, c: char) -> (r: bool)
    ensures
        r == is_punct(t.token_view(), c),
{
    match t {
        TokenModel::Punct { ch, .. } => *ch == c,
        _ => false,
    }
}

fn is_doc_group_exec(t: &TokenModel) -> (r: bool)
    ensures
        r == is_doc_group(t.token_view()),
{
    match t {
        TokenModel::Group { delimiter, stream } => {
            proof {
                lemma_tokens_view(stream@);
            }
            if *delimiter != Delim::Bracket || stream.len() == 0 {
                return false;
            }
            match &stream[0] {
                TokenModel::Ident(s) => {
                    let a = chars_of(s.as_str());
                    let b = chars_of("doc");
                    let r = chars_eq(a.as_slice(), b.as_slice());
                    proof {
                        if !r {
                            assert(TokenView::Ident(s@) != TokenView::Ident("doc"@));
                        }
                    }
                    r
                },
                _ => false,
            }
        },
        _ => false,
    }
}

/// Removes the doc attributes from token trees, at every depth.
pub fn strip_doc_attributes(t: &Vec<TokenModel>) -> (r: Vec<TokenModel>)
    ensures
        tokens_view(r@) == strip_docs(tokens_view(t@)),
    decreases t@,
{
    let ghost tv = tokens_view(t@);
    proof {
        lemma_tokens_view(t@);
    }
    let n = t.len();
    let mut out: Vec<TokenModel> = Vec::new();
    let mut i: usize = 0;
    assert(tv.subrange(0, n as int) =~= tv);
    while i < n
        invariant
            i <= n,
            n == t@.len(),
            tv == tokens_view(t@),
            tv.len() == n,
            forall|j: int| 0 <= j < n ==> #[trigger] tv[j] == t@[j].token_view(),
            strip_docs(tv) == tokens_view(out@) + strip_docs(tv.subrange(i as int, n as int)),
        decreases n - i,
    {
        let ghost rest = tv.subrange(i as int, n as int);
        if is_punct_exec(&t[i], '#') {
            if i + 1 < n && is_doc_group_exec(&t[i + 1]) {
                assert(rest.subrange(2, rest.len() as int) =~= tv.subrange(i + 2, n as int));
                i = i + 2;
                continue;
            }
            if n - i > 2 && is_punct_exec(&t[i + 1], '!') && is_doc_group_exec(&t[i + 2]) {
                assert(!is_doc_group(rest[1]));
                assert(rest.subrange(3, rest.len() as int) =~= tv.subrange(i + 3, n as int));
                i = i + 3;
                continue;
            }
        }
        proof {
            if rest.len() >= 2 && is_punct(rest[0], '#') {
                assert(!is_doc_group(rest[1]));
            }
            if rest.len() >= 3 && is_punct(rest[0], '#') && is_punct(rest[1], '!') {
                assert(!is_doc_group(rest[2]));
            }
        }
        let tok = match &t[i] {
            TokenModel::Group { delimiter, stream } => {
                proof {
                    assert(decreases_to!(t@ => t@[i as int]));
                }
                let inner = strip_doc_attributes(stream);
                TokenModel::Group { delimiter: *delimiter, stream: inner }
            },
            TokenModel::Ident(s) => TokenModel::Ident(owned(s.as_str())),
            TokenModel::Punct { ch, joint } => TokenModel::Punct { ch: *ch, joint: *joint },
            TokenModel::Literal(s) => TokenModel::Literal(owned(s.as_str())),
        };
        assert(tok.token_view() == strip_token(tv[i as int]));
        let ghost before = out@;
        out.push(tok);
        proof {
            assert(out@.drop_last() =~= before);
            assert(tokens_view(out@) == tokens_view(before).push(tok.token_view()));
            assert(rest.subrange(1, rest.len() as int) =~= tv.subrange(i + 1, n as int));
            assert(tokens_view(out@) + strip_docs(tv.subrange(i + 1, n as int)) =~= tokens_view(
                before,
            ) + (seq![strip_token(rest[0])] + strip_docs(rest.subrange(1, rest.len() as int))));
        }
        i = i + 1;
    }
    assert(tv.subrange(n as int, n as int) =~= Seq::<TokenView>::empty());
    assert(tokens_view(out@) + Seq::<TokenView>::empty() =~= tokens_view(out@));
    out
}

/// The syntax fingerprint of a source text: its token trees without doc
/// attributes; `None` where the text does not lex.
pub open spec fn syntax_fingerprint(source: Seq<char>) -> Option<Seq<TokenView>> {
    match rust_tokens(source) {
        Some(ts) => Some(strip_docs(ts)),
        None => None,
    }
}

pub fn rust_syntax_fingerprint(source: &str) -> (r: Option<Vec<TokenModel>>)
    ensures
        lexed_view(r) == syntax_fingerprint(source@),
{
    match rust_tokens_of(source) {
        Some(tokens) => Some(strip_doc_attributes(&tokens)),
        None => None,
    }
}

fn same_text(a: &String, b: &String) -> (r: bool)
    ensures
        r == (a@ == b@),
{
    let x = chars_of(a.as_str());
    let y = chars_of(b.as_str());
    chars_eq(x.as_slice(), y.as_slice())
}

fn same_token(a: &TokenModel, b: &TokenModel) -> (r: bool)
    ensures
        r == (a.token_view() == b.token_view()),
    decreases a,
{
    match a {
        TokenModel::Group { delimiter: da, stream: sa } => match b {
            TokenModel::Group { delimiter: db, stream: sb } => {
                if *da != *db {
                    return false;
                }
                proof {
                    assert(decreases_to!(a => sa));
                }
                same_tokens(sa, sb)
            },
            _ => false,
        },
        TokenModel::Ident(x) => match b {
            TokenModel::Ident(y) => {
                let r = same_text(x, y);
                proof {
                    if !r {
                        assert(TokenView::Ident(x@) != TokenView::Ident(y@));
                    }
                }
                r
            },
            _ => false,
        },
        TokenModel::Punct { ch: c1, joint: j1 } => match b {
            TokenModel::Punct { ch: c2, joint: j2 } => *c1 == *c2 && *j1 == *j2,
            _ => false,
        },
        TokenModel::Literal(x) => match b {
            TokenModel::Literal(y) => {
                let r = same_text(x, y);
                proof {
                    if !r {
                        assert(TokenView::Literal(x@) != TokenView::Literal(y@));
                    }
                }
                r
            },
            _ => false,
        },
    }
}

/// Whether two token-tree sequences are the same, tree by tree.
pub fn same_tokens(a: &Vec<TokenModel>, b: &Vec<TokenModel>) -> (r: bool)
    ensures
        r == (tokens_view(a@) == tokens_view(b@)),
    decreases a,
{
    proof {
        lemma_tokens_view(a@);
        lemma_tokens_view(b@);
    }
    if a.len() != b.len() {
        return false;
    }
    let mut j: usize = 0;
    while j < a.len()
        invariant
            j <= a@.len(),
            a@.len() == b@.len(),
            tokens_view(a@).len() == a@.len(),
            tokens_view(b@).len() == b@.len(),
            forall|k: int| 0 <= k < a@.len() ==> #[trigger] tokens_view(a@)[k] == a@[k].token_view(),
            forall|k: int| 0 <= k < b@.len() ==> #[trigger] tokens_view(b@)[k] == b@[k].token_view(),
            forall|k: int| 0 <= k < j ==> #[trigger] tokens_view(a@)[k] == tokens_view(b@)[k],
        decreases a@.len() - j,
    {
        proof {
            assert(decreases_to!(a => a@[j as int]));
        }
        if !same_token(&a[j], &b[j]) {
            assert(tokens_view(a@)[j as int] != tokens_view(b@)[j as int]);
            return false;
        }
        j = j + 1;
    }
    assert(tokens_view(a@) =~= tokens_view(b@));
    true
}

/// Whether the syntax of a source changed between two versions: false when
/// the earlier version is missing or either version does not lex.
pub open spec fn syntax_changed(before: Option<Seq<char>>, current: Seq<char>) -> bool {
    match before {
        None => false,
        Some(b) => match (syntax_fingerprint(b), syntax_fingerprint(current)) {
            (Some(x), Some(y)) => x != y,
            _ => false,
        },
    }
}

pub fn source_syntax_changed(before: Option<&str>, current: &str) -> (r: bool)
    ensures
        r == syntax_changed(
            match before {
                Some(b) => Some(b@),
                None => None,
            },
            current@,
        ),
{
    let before = match before {
        Some(b) => b,
        None => return false,
    };
    let b = match rust_syntax_fingerprint(before) {
        Some(f) => f,
        None => return false,
    };
    let c = match rust_syntax_fingerprint(current) {
        Some(f) => f,
        None => return false,
    };
    !same_tokens(&b, &c)
}

/// The class of a source commit from the versions of its input before and
/// after it (`None` where a version is missing).
pub open spec fn version_change_class(before: Option<Seq<char>>, after: Option<Seq<char>>) -> SourceChangeClass {
    let fb = match before {
        Some(b) => syntax_fingerprint(b),
        None => None,
    };
    let fa = match after {
        Some(a) => syntax_fingerprint(a),
        None => None,
    };
    match (fb, fa) {
        (Some(x), Some(y)) => if x == y {
            SourceChangeClass::CommentsOrDocsOnly
        } else {
            SourceChangeClass::SyntaxChanged
        },
        _ => SourceChangeClass::Unclassified,
    }
}

pub fn classify_source_versions(before: Option<&str>, after: Option<&str>) -> (r: SourceChangeClass)
    ensures
        r == version_change_class(
            match before {
                Some(b) => Some(b@),
                None => None,
            },
            match after {
                Some(a) => Some(a@),
                None => None,
            },
        ),
{
    let fb = match before {
        Some(b) => rust_syntax_fingerprint(b),
        None => None,
    };
    let fa = match after {
        Some(a) => rust_syntax_fingerprint(a),
        None => None,
    };
    match (fb, fa) {
        (Some(x), Some(y)) => if same_tokens(&x, &y) {
            SourceChangeClass::CommentsOrDocsOnly
        } else {
            SourceChangeClass::SyntaxChanged
        },
        _ => SourceChangeClass::Unclassified,
    }
}

} // verus!
