//! Syntax facts of Rust files: which modules are gated on `cfg(test)`, which
//! functions carry `#[test]`, and which files of a Git work tree are read,
//! each with the content identity that keys its cached facts.
use vstd::prelude::*;

use crate::text::{chars_less, seq_less, split_chars, split_on, is_ws, is_ws_exec, seqs_view, utf8_decode, byte_len, chars_eq, chars_of, extend_str, is_ascii_hex, is_ascii_hex_exec, owned, string_of};
use crate::validate::strings_view;

verus! {

/// An attribute's meta item, as far as the test checks read it: the path
/// when it is one plain identifier, and for a list the items inside it when
/// they parse as a comma-separated list of metas.
#[derive(Debug)]
pub enum CfgMeta {
    Path { ident: Option<String> },
    List { ident: Option<String>, nested: Option<Vec<CfgMeta>> },
    NameValue { ident: Option<String> },
}

pub enum MetaView {
    Path { ident: Option<Seq<char>> },
    List { ident: Option<Seq<char>>, nested: Option<Seq<MetaView>> },
    NameValue { ident: Option<Seq<char>> },
}

pub open spec fn ident_view(i: Option<String>) -> Option<Seq<char>> {
    match i {
        Some(s) => Some(s@),
        None => None,
    }
}

impl CfgMeta {
    pub open spec fn meta_view(&self) -> MetaView
        decreases self,
    {
        match self {
            CfgMeta::Path { ident } => MetaView::Path { ident: ident_view(*ident) },
            CfgMeta::List { ident, nested } => MetaView::List {
                ident: ident_view(*ident),
                nested: match nested {
                    Some(v) => Some(metas_view(v@)),
                    None => None,
                },
            },
            CfgMeta::NameValue { ident } => MetaView::NameValue { ident: ident_view(*ident) },
        }
    }
}

pub open spec fn metas_view(s: Seq<CfgMeta>) -> Seq<MetaView>
    decreases s,
{
    if s.len() == 0 {
        Seq::empty()
    } else {
        metas_view(s.drop_last()).push(s.last().meta_view())
    }
}

proof fn lemma_metas_view(s: Seq<CfgMeta>)
    ensures
        metas_view(s).len() == s.len(),
        forall|i: int| 0 <= i < s.len() ==> #[trigger] metas_view(s)[i] == s[i].meta_view(),
    decreases s.len(),
{
    if s.len() > 0 {
        lemma_metas_view(s.drop_last());
    }
}

/// Whether a meta item switches on `test`: the word `test` itself, or a
/// list holding such an item, where each `not(..)` around it flips whether
/// it counts.
pub open spec fn mentions_test(m: MetaView, negated: bool) -> bool
    decreases m,
{
    match m {
        MetaView::Path { ident } => ident == Some("test"@) && !negated,
        MetaView::List { ident, nested } => match nested {
            Some(items) => any_mentions_test(
                items,
                if ident == Some("not"@) {
                    !negated
                } else {
                    negated
                },
            ),
            None => false,
        },
        MetaView::NameValue { .. } => false,
    }
}

pub open spec fn any_mentions_test(items: Seq<MetaView>, negated: bool) -> bool
    decreases items,
{
    if items.len() == 0 {
        false
    } else {
        any_mentions_test(items.drop_last(), negated) || mentions_test(items.last(), negated)
    }
}

proof fn lemma_any_mentions_push(items: Seq<MetaView>, i: int, negated: bool)
    requires
        0 <= i < items.len(),
    ensures
        any_mentions_test(items.take(i + 1), negated) == (any_mentions_test(items.take(i), negated)
            || mentions_test(items[i], negated)),
{
    assert(items.take(i + 1).drop_last() =~= items.take(i));
}

/// Whether the identifier is exactly `word`.
pub fn ident_is(ident: &Option<String>, word: &str) -> (r: bool)
    ensures
        r == (ident_view(*ident) == Some(word@)),
{
    match ident {
        Some(s) => {
            let a = chars_of(s.as_str());
            let b = chars_of(word);
            chars_eq(a.as_slice(), b.as_slice())
        },
        None => false,
    }
}

/// Whether a meta item switches on `test` (see [`mentions_test`]).
pub fn meta_mentions_test(meta: &CfgMeta, negated: bool) -> (r: bool)
    ensures
        r == mentions_test(meta.meta_view(), negated),
    decreases meta,
{
    match meta {
        CfgMeta::Path { ident } => ident_is(ident, "test") && !negated,
        CfgMeta::List { ident, nested } => {
            let inner = if ident_is(ident, "not") {
                !negated
            } else {
                negated
            };
            match nested {
                Some(items) => {
                    let ghost iv = metas_view(items@);
                    proof {
                        lemma_metas_view(items@);
                    }
                    assert(mentions_test(meta.meta_view(), negated) == any_mentions_test(iv, inner));
                    let mut i: usize = 0;
                    while i < items.len()
                        invariant
                            i <= items@.len(),
                            iv == metas_view(items@),
                            iv.len() == items@.len(),
                            forall|k: int| 0 <= k < items@.len() ==> #[trigger] iv[k] == items@[k].meta_view(),
                            !any_mentions_test(iv.take(i as int), inner),
                            mentions_test(meta.meta_view(), negated) == any_mentions_test(iv, inner),
                            *meta == (CfgMeta::List { ident: *ident, nested: *nested }),
                            *nested == Some(*items),
                        decreases items.len() - i,
                    {
                        proof {
                            lemma_any_mentions_push(iv, i as int, inner);
                            assert(decreases_to!(*meta => *nested));
                            assert(decreases_to!(*nested => *items));
                            assert(decreases_to!(*items => items@));
                            assert(decreases_to!(items@ => items@[i as int]));
                        }
                        if meta_mentions_test(&items[i], inner) {
                            proof {
                                assert(any_mentions_test(iv.take(i + 1), inner));
                                lemma_any_mentions_prefix(iv, i + 1, inner);
                            }
                            return true;
                        }
                        i = i + 1;
                    }
                    assert(iv.take(i as int) =~= iv);
                    false
                },
                None => false,
            }
        },
        CfgMeta::NameValue { .. } => false,
    }
}

proof fn lemma_any_mentions_prefix(items: Seq<MetaView>, n: int, negated: bool)
    requires
        0 <= n <= items.len(),
        any_mentions_test(items.take(n), negated),
    ensures
        any_mentions_test(items, negated),
    decreases items.len() - n,
{
    if n < items.len() {
        lemma_any_mentions_push(items, n, negated);
        lemma_any_mentions_prefix(items, n + 1, negated);
    } else {
        assert(items.take(n) =~= items);
    }
}

pub open spec fn meta_ident(m: MetaView) -> Option<Seq<char>> {
    match m {
        MetaView::Path { ident } => ident,
        MetaView::List { ident, .. } => ident,
        MetaView::NameValue { ident } => ident,
    }
}

/// An attribute list that holds `#[test]`.
pub open spec fn test_attribute(attrs: Seq<MetaView>) -> bool {
    exists|k: int| 0 <= k < attrs.len() && meta_ident(#[trigger] attrs[k]) == Some("test"@)
}

/// A `cfg(..)` attribute whose items switch on `test`.
pub open spec fn cfg_test(m: MetaView) -> bool {
    &&& meta_ident(m) == Some("cfg"@)
    &&& m matches MetaView::List { nested: Some(items), .. } && any_mentions_test(items, false)
}

/// An attribute list that gates its item on `cfg(test)`.
pub open spec fn test_gated(attrs: Seq<MetaView>) -> bool {
    exists|k: int| 0 <= k < attrs.len() && cfg_test(#[trigger] attrs[k])
}

fn meta_ident_exec(m: &CfgMeta) -> (r: &Option<String>)
    ensures
        ident_view(*r) == meta_ident(m.meta_view()),
{
    match m {
        CfgMeta::Path { ident } => ident,
        CfgMeta::List { ident, .. } => ident,
        CfgMeta::NameValue { ident } => ident,
    }
}

/// Whether the attributes hold `#[test]`.
pub fn has_test_attr(attrs: &Vec<CfgMeta>) -> (r: bool)
    ensures
        r == test_attribute(metas_view(attrs@)),
{
    proof {
        lemma_metas_view(attrs@);
    }
    let ghost av = metas_view(attrs@);
    let mut i: usize = 0;
    while i < attrs.len()
        invariant
            i <= attrs@.len(),
            av == metas_view(attrs@),
            av.len() == attrs@.len(),
            forall|k: int| 0 <= k < attrs@.len() ==> #[trigger] av[k] == attrs@[k].meta_view(),
            forall|k: int| 0 <= k < i ==> meta_ident(#[trigger] av[k]) != Some("test"@),
        decreases attrs.len() - i,
    {
        if ident_is(meta_ident_exec(&attrs[i]), "test") {
            assert(meta_ident(av[i as int]) == Some("test"@));
            return true;
        }
        i = i + 1;
    }
    false
}

/// Whether the attributes gate the item on `cfg(test)`.
pub fn is_test_module(attrs: &Vec<CfgMeta>) -> (r: bool)
    ensures
        r == test_gated(metas_view(attrs@)),
{
    proof {
        lemma_metas_view(attrs@);
    }
    let ghost av = metas_view(attrs@);
    proof {
        reveal_strlit("cfg");
        reveal_strlit("not");
        assert("cfg"@[0] != "not"@[0]);
    }
    let mut i: usize = 0;
    while i < attrs.len()
        invariant
            i <= attrs@.len(),
            av == metas_view(attrs@),
            av.len() == attrs@.len(),
            forall|k: int| 0 <= k < attrs@.len() ==> #[trigger] av[k] == attrs@[k].meta_view(),
            forall|k: int| 0 <= k < i ==> !cfg_test(#[trigger] av[k]),
            "cfg"@ != "not"@,
        decreases attrs.len() - i,
    {
        let attr = &attrs[i];
        let found = if ident_is(meta_ident_exec(attr), "cfg") {
            match attr {
                CfgMeta::List { nested: Some(_), .. } => meta_mentions_test(attr, false),
                _ => false,
            }
        } else {
            false
        };
        if found {
            assert(cfg_test(av[i as int]));
            return true;
        }
        assert(!cfg_test(av[i as int]));
        i = i + 1;
    }
    false
}

/// A named item and the line of its name.
#[derive(Debug, Clone, Eq, PartialEq)]
pub struct NamedRustFact {
    pub name: String,
    pub line: usize,
}

/// What one parse of a Rust file shows: its `cfg(test)` modules, its
/// `#[test]` functions, every module name, or the parse error.
#[derive(Debug, Clone, Eq, PartialEq)]
pub struct RustFileFacts {
    pub test_modules: Vec<NamedRustFact>,
    pub explicit_tests: Vec<NamedRustFact>,
    pub module_names: Vec<String>,
    pub parse_error: Option<String>,
}

pub struct FactsView {
    pub test_modules: Seq<(Seq<char>, nat)>,
    pub explicit_tests: Seq<(Seq<char>, nat)>,
    pub module_names: Seq<Seq<char>>,
    pub parse_error: Option<Seq<char>>,
}

pub open spec fn named_view(v: Seq<NamedRustFact>) -> Seq<(Seq<char>, nat)> {
    v.map_values(|f: NamedRustFact| (f.name@, f.line as nat))
}

impl RustFileFacts {
    pub open spec fn facts_view(&self) -> FactsView {
        FactsView {
            test_modules: named_view(self.test_modules@),
            explicit_tests: named_view(self.explicit_tests@),
            module_names: strings_view(self.module_names@),
            parse_error: ident_view(self.parse_error),
        }
    }

    /// The facts of a file with nothing in it yet.
    pub fn new() -> (r: RustFileFacts)
        ensures
            r.facts_view() == (FactsView {
                test_modules: Seq::empty(),
                explicit_tests: Seq::empty(),
                module_names: Seq::empty(),
                parse_error: None,
            }),
    {
        let r = RustFileFacts {
            test_modules: Vec::new(),
            explicit_tests: Vec::new(),
            module_names: Vec::new(),
            parse_error: None,
        };
        assert(named_view(r.test_modules@) =~= Seq::empty());
        assert(named_view(r.explicit_tests@) =~= Seq::empty());
        assert(strings_view(r.module_names@) =~= Seq::empty());
        r
    }

    /// The facts of a file that did not parse: the error and nothing else.
    pub fn unparsed(error: &str) -> (r: RustFileFacts)
        ensures
            r.facts_view() == (FactsView {
                test_modules: Seq::empty(),
                explicit_tests: Seq::empty(),
                module_names: Seq::empty(),
                parse_error: Some(error@),
            }),
    {
        let mut r = RustFileFacts::new();
        r.parse_error = Some(owned(error));
        r
    }

    /// Records a function item: a `#[test]` function is an explicit test.
    pub fn record_function(&mut self, name: &str, line: usize, attrs: &Vec<CfgMeta>)
        ensures
            final(self).facts_view() == (FactsView {
                explicit_tests: if test_attribute(metas_view(attrs@)) {
                    old(self).facts_view().explicit_tests.push((name@, line as nat))
                } else {
                    old(self).facts_view().explicit_tests
                },
                ..old(self).facts_view()
            }),
    {
        if has_test_attr(attrs) {
            let ghost before = self.explicit_tests@;
            self.explicit_tests.push(NamedRustFact { name: owned(name), line });
            assert(named_view(self.explicit_tests@) =~= named_view(before).push((name@, line as nat)));
        }
    }

    /// Records a module item: its name, and the module once more as a test
    /// module when it is gated on `cfg(test)`.
    pub fn record_module(&mut self, name: &str, line: usize, attrs: &Vec<CfgMeta>)
        ensures
            final(self).facts_view() == (FactsView {
                module_names: old(self).facts_view().module_names.push(name@),
                test_modules: if test_gated(metas_view(attrs@)) {
                    old(self).facts_view().test_modules.push((name@, line as nat))
                } else {
                    old(self).facts_view().test_modules
                },
                ..old(self).facts_view()
            }),
    {
        let ghost names = self.module_names@;
        self.module_names.push(owned(name));
        assert(strings_view(self.module_names@) =~= strings_view(names).push(name@));
        if is_test_module(attrs) {
            let ghost before = self.test_modules@;
            self.test_modules.push(NamedRustFact { name: owned(name), line });
            assert(named_view(self.test_modules@) =~= named_view(before).push((name@, line as nat)));
        }
    }
}

/// A Git object name that can key the fact cache: 32 to 128 hexadecimal
/// digits.
pub open spec fn content_id_ok(value: Seq<char>) -> bool {
    &&& 32 <= byte_len(value) <= 128
    &&& forall|i: int| 0 <= i < value.len() ==> is_ascii_hex(#[trigger] value[i])
}

proof fn lemma_ascii_byte_len(s: Seq<char>)
    requires
        forall|i: int| 0 <= i < s.len() ==> is_ascii_hex(#[trigger] s[i]),
    ensures
        byte_len(s) == s.len(),
    decreases s.len(),
{
    if s.len() > 0 {
        assert forall|i: int| 0 <= i < s.drop_last().len() implies is_ascii_hex(#[trigger] s.drop_last()[i]) by {
            assert(s.drop_last()[i] == s[i]);
        }
        lemma_ascii_byte_len(s.drop_last());
        assert(is_ascii_hex(s[s.len() - 1]));
    }
}

pub fn valid_content_id(value: &str) -> (r: bool)
    ensures
        r == content_id_ok(value@),
{
    let cs = chars_of(value);
    let mut i: usize = 0;
    while i < cs.len()
        invariant
            i <= cs@.len(),
            cs@ == value@,
            forall|k: int| 0 <= k < i ==> is_ascii_hex(#[trigger] cs@[k]),
        decreases cs.len() - i,
    {
        if !is_ascii_hex_exec(cs[i]) {
            return false;
        }
        i = i + 1;
    }
    proof {
        lemma_ascii_byte_len(value@);
    }
    32 <= cs.len() && cs.len() <= 128
}

/// `root.join(relative)` for a relative path: one separator between them,
/// none added after a root that already ends in one.
pub open spec fn joined(root: Seq<char>, relative: Seq<char>) -> Seq<char> {
    if relative.len() > 0 && relative[0] == '/' {
        relative
    } else if root.len() == 0 || root.last() == '/' {
        root + relative
    } else {
        root + seq!['/'] + relative
    }
}

pub fn join_path(root: &str, relative: &str) -> (r: String)
    ensures
        r@ == joined(root@, relative@),
{
    let rc = chars_of(root);
    let lc = chars_of(relative);
    if lc.len() > 0 && lc[0] == '/' {
        return owned(relative);
    }
    let mut out = rc;
    if !(out.len() == 0 || out[out.len() - 1] == '/') {
        out.push('/');
    }
    let ghost mid = out@;
    extend_str(&mut out, relative);
    string_of(out.as_slice())
}

/// Where the cached facts of one content identity live, if the identity can
/// key the cache.
pub fn cache_entry_path(cache_root: &str, content_id: &str) -> (r: Option<String>)
    ensures
        r is Some <==> content_id_ok(content_id@),
        r matches Some(p) ==> p@ == joined(cache_root@, content_id@ + ".json"@),
{
    if !valid_content_id(content_id) {
        return None;
    }
    let mut name = chars_of(content_id);
    extend_str(&mut name, ".json");
    let file = string_of(name.as_slice());
    Some(join_path(cache_root, file.as_str()))
}

/// The pieces of `s` between NUL bytes, always at least one.
pub open spec fn nul_split(s: Seq<u8>) -> Seq<Seq<u8>>
    decreases s.len(),
{
    if s.len() == 0 {
        seq![Seq::<u8>::empty()]
    } else {
        let rest = nul_split(s.drop_last());
        if s.last() == 0 {
            rest.push(Seq::<u8>::empty())
        } else {
            rest.update(rest.len() - 1, rest.last().push(s.last()))
        }
    }
}

/// The NUL-terminated records of Git's `-z` output, empty ones dropped.
pub open spec fn nul_records(s: Seq<u8>) -> Seq<Seq<u8>> {
    nul_split(s).filter(|r: Seq<u8>| r.len() > 0)
}

proof fn lemma_nul_split_nonempty(s: Seq<u8>)
    ensures
        nul_split(s).len() >= 1,
    decreases s.len(),
{
    if s.len() > 0 {
        lemma_nul_split_nonempty(s.drop_last());
    }
}

proof fn lemma_filter_push<A>(a: Seq<Seq<A>>, x: Seq<A>)
    ensures
        a.push(x).filter(|r: Seq<A>| r.len() > 0) == if x.len() > 0 {
            a.filter(|r: Seq<A>| r.len() > 0).push(x)
        } else {
            a.filter(|r: Seq<A>| r.len() > 0)
        },
{
    reveal_with_fuel(Seq::filter, 1);
    assert(a.push(x).drop_last() =~= a);
}

pub open spec fn bytes_view(v: Seq<Vec<u8>>) -> Seq<Seq<u8>> {
    v.map_values(|x: Vec<u8>| x@)
}

/// Splits Git's `-z` output into its non-empty records.
pub fn split_nul_records(output: &[u8]) -> (r: Vec<Vec<u8>>)
    ensures
        bytes_view(r@) == nul_records(output@),
{
    let mut r: Vec<Vec<u8>> = Vec::new();
    let mut cur: Vec<u8> = Vec::new();
    let mut i: usize = 0;
    proof {
        assert(output@.take(0) =~= Seq::<u8>::empty());
        assert(nul_split(output@.take(0)).drop_last() =~= Seq::<Seq<u8>>::empty());
        reveal_with_fuel(Seq::filter, 1);
    }
    while i < output.len()
        invariant
            i <= output@.len(),
            nul_split(output@.take(i as int)).len() >= 1,
            bytes_view(r@) == nul_split(output@.take(i as int)).drop_last().filter(
                |x: Seq<u8>| x.len() > 0,
            ),
            cur@ == nul_split(output@.take(i as int)).last(),
        decreases output.len() - i,
    {
        let b = output[i];
        let ghost t = output@.take(i as int + 1);
        let ghost prev = nul_split(output@.take(i as int));
        proof {
            assert(t.drop_last() == output@.take(i as int));
            assert(t.last() == b);
            lemma_nul_split_nonempty(output@.take(i as int));
        }
        if b == 0 {
            let ghost before = bytes_view(r@);
            if cur.len() > 0 {
                r.push(cur);
                assert(bytes_view(r@) =~= before.push(prev.last()));
            }
            cur = Vec::new();
            proof {
                assert(nul_split(t).drop_last() =~= prev);
                assert(prev =~= prev.drop_last().push(prev.last()));
                lemma_filter_push(prev.drop_last(), prev.last());
            }
        } else {
            cur.push(b);
            proof {
                assert(nul_split(t).drop_last() =~= prev.drop_last());
            }
        }
        i = i + 1;
    }
    proof {
        assert(output@.take(output@.len() as int) =~= output@);
        let sp = nul_split(output@);
        lemma_nul_split_nonempty(output@);
        assert(sp =~= sp.drop_last().push(sp.last()));
        lemma_filter_push(sp.drop_last(), sp.last());
    }
    if cur.len() > 0 {
        let ghost before = bytes_view(r@);
        r.push(cur);
        assert(bytes_view(r@) =~= before.push(nul_split(output@).last()));
    }
    r
}

pub open spec fn all_utf8(rs: Seq<Seq<u8>>) -> bool {
    forall|i: int| 0 <= i < rs.len() ==> vstd::utf8::valid_utf8(#[trigger] rs[i])
}

/// The paths of `git ls-files -z`: every record decoded, or nothing when one
/// is not UTF-8.
pub open spec fn nul_paths(output: Seq<u8>) -> Option<Seq<Seq<char>>> {
    let rs = nul_records(output);
    if all_utf8(rs) {
        Some(rs.map_values(|r: Seq<u8>| vstd::utf8::decode_utf8(r)))
    } else {
        None
    }
}

pub fn parse_nul_paths(output: &[u8]) -> (r: Option<Vec<String>>)
    ensures
        r matches Some(v) ==> nul_paths(output@) == Some(strings_view(v@)),
        r is None ==> nul_paths(output@) is None,
{
    let records = split_nul_records(output);
    let ghost rs = nul_records(output@);
    let mut paths: Vec<String> = Vec::new();
    let mut i: usize = 0;
    while i < records.len()
        invariant
            i <= records@.len(),
            bytes_view(records@) == rs,
            rs == nul_records(output@),
            strings_view(paths@) == rs.take(i as int).map_values(|r: Seq<u8>| vstd::utf8::decode_utf8(r)),
            forall|k: int| 0 <= k < i ==> vstd::utf8::valid_utf8(#[trigger] rs[k]),
        decreases records.len() - i,
    {
        assert(records@[i as int]@ == rs[i as int]);
        match utf8_decode(records[i].as_slice()) {
            Some(p) => {
                let ghost before = strings_view(paths@);
                let ghost pv = p@;
                assert(pv == vstd::utf8::decode_utf8(rs[i as int]));
                paths.push(p);
                proof {
                    let m = rs.take(i + 1).map_values(|r: Seq<u8>| vstd::utf8::decode_utf8(r));
                    let old_m = rs.take(i as int).map_values(|r: Seq<u8>| vstd::utf8::decode_utf8(r));
                    assert(rs.len() == records@.len());
                    assert(before.len() == i);
                    assert(strings_view(paths@).len() == m.len());
                    assert forall|k: int| 0 <= k < m.len() implies strings_view(paths@)[k] == m[k] by {
                        if k < i {
                            assert(strings_view(paths@)[k] == before[k]);
                            assert(before[k] == old_m[k]);
                        } else {
                            assert(strings_view(paths@)[k] == pv);
                        }
                    }
                    assert(strings_view(paths@) =~= m);
                }
            },
            None => {
                return None;
            },
        }
        i = i + 1;
    }
    assert(rs.take(i as int) =~= rs);
    Some(paths)
}

/// The pieces of `s` between whitespace characters, always at least one.
pub open spec fn ws_split(s: Seq<char>) -> Seq<Seq<char>>
    decreases s.len(),
{
    if s.len() == 0 {
        seq![Seq::<char>::empty()]
    } else {
        let rest = ws_split(s.drop_last());
        if is_ws(s.last()) {
            rest.push(Seq::<char>::empty())
        } else {
            rest.update(rest.len() - 1, rest.last().push(s.last()))
        }
    }
}

/// `str::split_whitespace`.
pub open spec fn words(s: Seq<char>) -> Seq<Seq<char>> {
    ws_split(s).filter(|w: Seq<char>| w.len() > 0)
}

proof fn lemma_ws_split_nonempty(s: Seq<char>)
    ensures
        ws_split(s).len() >= 1,
    decreases s.len(),
{
    if s.len() > 0 {
        lemma_ws_split_nonempty(s.drop_last());
    }
}

/// The whitespace-separated words of `s`.
pub fn split_words(s: &[char]) -> (r: Vec<Vec<char>>)
    ensures
        seqs_view(r@) == words(s@),
{
    let mut r: Vec<Vec<char>> = Vec::new();
    let mut cur: Vec<char> = Vec::new();
    let mut i: usize = 0;
    proof {
        assert(s@.take(0) =~= Seq::<char>::empty());
        assert(ws_split(s@.take(0)).drop_last() =~= Seq::<Seq<char>>::empty());
        reveal_with_fuel(Seq::filter, 1);
    }
    while i < s.len()
        invariant
            i <= s@.len(),
            ws_split(s@.take(i as int)).len() >= 1,
            seqs_view(r@) == ws_split(s@.take(i as int)).drop_last().filter(
                |x: Seq<char>| x.len() > 0,
            ),
            cur@ == ws_split(s@.take(i as int)).last(),
        decreases s.len() - i,
    {
        let c = s[i];
        let ghost t = s@.take(i as int + 1);
        let ghost prev = ws_split(s@.take(i as int));
        proof {
            assert(t.drop_last() == s@.take(i as int));
            assert(t.last() == c);
            lemma_ws_split_nonempty(s@.take(i as int));
        }
        if is_ws_exec(c) {
            let ghost before = seqs_view(r@);
            if cur.len() > 0 {
                r.push(cur);
                assert(seqs_view(r@) =~= before.push(prev.last()));
            }
            cur = Vec::new();
            proof {
                assert(ws_split(t).drop_last() =~= prev);
                assert(prev =~= prev.drop_last().push(prev.last()));
                lemma_filter_push(prev.drop_last(), prev.last());
            }
        } else {
            cur.push(c);
            proof {
                assert(ws_split(t).drop_last() =~= prev.drop_last());
            }
        }
        i = i + 1;
    }
    proof {
        assert(s@.take(s@.len() as int) =~= s@);
        let sp = ws_split(s@);
        lemma_ws_split_nonempty(s@);
        assert(sp =~= sp.drop_last().push(sp.last()));
        lemma_filter_push(sp.drop_last(), sp.last());
    }
    if cur.len() > 0 {
        let ghost before = seqs_view(r@);
        r.push(cur);
        assert(seqs_view(r@) =~= before.push(ws_split(s@).last()));
    }
    r
}

/// `str::split_once(c)`: the text before the first `c` and after it.
pub open spec fn split_once(s: Seq<char>, c: char) -> Option<(Seq<char>, Seq<char>)> {
    if exists|i: int| 0 <= i < s.len() && s[i] == c {
        let i = choose|i: int| 0 <= i < s.len() && s[i] == c && forall|j: int| 0 <= j < i ==> s[j] != c;
        Some((s.take(i), s.skip(i + 1)))
    } else {
        None
    }
}

proof fn lemma_first_index(s: Seq<char>, c: char, i: int)
    requires
        0 <= i < s.len(),
        s[i] == c,
        forall|j: int| 0 <= j < i ==> s[j] != c,
    ensures
        split_once(s, c) == Some((s.take(i), s.skip(i + 1))),
{
    let k = choose|k: int| 0 <= k < s.len() && s[k] == c && forall|j: int| 0 <= j < k ==> s[j] != c;
    assert(k == i) by {
        if k < i {
            assert(s[k] != c);
        } else if k > i {
            assert(s[i] != c);
        }
    }
}

pub fn split_once_char(s: &[char], c: char) -> (r: Option<(Vec<char>, Vec<char>)>)
    ensures
        match r {
            Some((a, b)) => split_once(s@, c) == Some((a@, b@)),
            None => split_once(s@, c) is None,
        },
{
    let mut i: usize = 0;
    while i < s.len()
        invariant
            i <= s@.len(),
            forall|j: int| 0 <= j < i ==> s@[j] != c,
        decreases s.len() - i,
    {
        if s[i] == c {
            proof {
                lemma_first_index(s@, c, i as int);
            }
            let a = crate::text::slice_chars(s, 0, i);
            let b = crate::text::slice_chars(s, i + 1, s.len());
            assert(a@ =~= s@.take(i as int));
            assert(b@ =~= s@.skip(i + 1));
            return Some((a, b));
        }
        i = i + 1;
    }
    None
}

/// One record of `git ls-files -s -z`: `None` when it is malformed (not
/// UTF-8, no tab, fewer than three fields before the tab), else the path and
/// object name when the entry is at stage 0 and its name can key the cache.
pub open spec fn index_record(r: Seq<u8>) -> Option<Option<(Seq<char>, Seq<char>)>> {
    if !vstd::utf8::valid_utf8(r) {
        None
    } else {
        match split_once(vstd::utf8::decode_utf8(r), '\t') {
            None => None,
            Some((meta, path)) => {
                let fields = words(meta);
                if fields.len() < 3 {
                    None
                } else if fields[2] == "0"@ && content_id_ok(fields[1]) {
                    Some(Some((path, fields[1])))
                } else {
                    Some(None)
                }
            },
        }
    }
}

/// The stage-0 entries of `git ls-files -s -z` in order, or nothing when a
/// record is malformed.
pub open spec fn index_entries(rs: Seq<Seq<u8>>) -> Option<Seq<(Seq<char>, Seq<char>)>>
    decreases rs.len(),
{
    if rs.len() == 0 {
        Some(Seq::empty())
    } else {
        match (index_entries(rs.drop_last()), index_record(rs.last())) {
            (Some(e), Some(Some(x))) => Some(e.push(x)),
            (Some(e), Some(None)) => Some(e),
            _ => None,
        }
    }
}

pub open spec fn pairs_view(v: Seq<(String, String)>) -> Seq<(Seq<char>, Seq<char>)> {
    v.map_values(|p: (String, String)| (p.0@, p.1@))
}

/// Reads one index record (see [`index_record`]).
pub fn parse_index_record(record: &[u8]) -> (r: Option<Option<(String, String)>>)
    ensures
        match r {
            None => index_record(record@) is None,
            Some(None) => index_record(record@) == Some(None::<(Seq<char>, Seq<char>)>),
            Some(Some((p, id))) => index_record(record@) == Some(Some((p@, id@))),
        },
{
    let text = match utf8_decode(record) {
        Some(t) => t,
        None => {
            return None;
        },
    };
    let cs = chars_of(text.as_str());
    let (meta, path) = match split_once_char(cs.as_slice(), '\t') {
        Some(parts) => parts,
        None => {
            return None;
        },
    };
    let fields = split_words(meta.as_slice());
    if fields.len() < 3 {
        return None;
    }
    assert(fields@[2]@ == words(meta@)[2]);
    assert(fields@[1]@ == words(meta@)[1]);
    let stage = string_of(fields[2].as_slice());
    let id = string_of(fields[1].as_slice());
    let zero = chars_of("0");
    if chars_eq(fields[2].as_slice(), zero.as_slice()) && valid_content_id(id.as_str()) {
        Some(Some((string_of(path.as_slice()), id)))
    } else {
        Some(None)
    }
}

/// The stage-0 entries of `git ls-files -s -z` (see [`index_entries`]).
pub fn parse_index_ids(output: &[u8]) -> (r: Option<Vec<(String, String)>>)
    ensures
        r matches Some(v) ==> index_entries(nul_records(output@)) == Some(pairs_view(v@)),
        r is None ==> index_entries(nul_records(output@)) is None,
{
    let records = split_nul_records(output);
    let ghost rs = nul_records(output@);
    let mut entries: Vec<(String, String)> = Vec::new();
    let mut i: usize = 0;
    proof {
        assert(rs.take(0) =~= Seq::<Seq<u8>>::empty());
        assert(pairs_view(entries@) =~= Seq::empty());
    }
    while i < records.len()
        invariant
            i <= records@.len(),
            bytes_view(records@) == rs,
            rs == nul_records(output@),
            rs.len() == records@.len(),
            index_entries(rs.take(i as int)) == Some(pairs_view(entries@)),
        decreases records.len() - i,
    {
        assert(records@[i as int]@ == rs[i as int]);
        assert(rs.take(i + 1).drop_last() =~= rs.take(i as int));
        match parse_index_record(records[i].as_slice()) {
            None => {
                assert(index_entries(rs.take(i + 1)) is None);
                proof {
                    lemma_index_entries_none(rs, i + 1);
                }
                assert(rs.take(rs.len() as int) =~= rs);
                return None;
            },
            Some(None) => {},
            Some(Some(pair)) => {
                let ghost before = pairs_view(entries@);
                let ghost pv = (pair.0@, pair.1@);
                entries.push(pair);
                assert(pairs_view(entries@) =~= before.push(pv));
            },
        }
        i = i + 1;
    }
    assert(rs.take(i as int) =~= rs);
    Some(entries)
}

proof fn lemma_index_entries_none(rs: Seq<Seq<u8>>, n: int)
    requires
        0 <= n <= rs.len(),
        index_entries(rs.take(n)) is None,
    ensures
        index_entries(rs) is None,
    decreases rs.len() - n,
{
    if n < rs.len() {
        assert(rs.take(n + 1).drop_last() =~= rs.take(n));
        lemma_index_entries_none(rs, n + 1);
    } else {
        assert(rs.take(n) =~= rs);
    }
}

/// The object name the index records last for `path`.
pub open spec fn index_id(entries: Seq<(Seq<char>, Seq<char>)>, path: Seq<char>) -> Option<Seq<char>>
    decreases entries.len(),
{
    if entries.len() == 0 {
        None
    } else if same_path(entries.last().0, path) {
        Some(entries.last().1)
    } else {
        index_id(entries.drop_last(), path)
    }
}

pub fn lookup_index_id(entries: &Vec<(String, String)>, path: &str) -> (r: Option<String>)
    ensures
        ident_view(r) == index_id(pairs_view(entries@), path@),
{
    let mut i: usize = entries.len();
    assert(pairs_view(entries@).take(i as int) =~= pairs_view(entries@));
    while i > 0
        invariant
            i <= entries@.len(),
            index_id(pairs_view(entries@), path@) == index_id(pairs_view(entries@).take(i as int), path@),
        decreases i,
    {
        let ghost pv = pairs_view(entries@);
        assert(pv.take(i as int).drop_last() =~= pv.take(i - 1));
        assert(pv.take(i as int).last() == (entries@[i - 1].0@, entries@[i - 1].1@));
        if same_path_exec(entries[i - 1].0.as_str(), path) {
            return Some(owned(entries[i - 1].1.as_str()));
        }
        i = i - 1;
    }
    None
}

fn bytes_from(s: &[u8], start: usize) -> (r: Vec<u8>)
    requires
        start <= s@.len(),
    ensures
        r@ == s@.skip(start as int),
{
    let mut r: Vec<u8> = Vec::new();
    let mut i: usize = start;
    while i < s.len()
        invariant
            start <= i <= s@.len(),
            r@ == s@.subrange(start as int, i as int),
        decreases s.len() - i,
    {
        r.push(s[i]);
        i = i + 1;
        assert(r@ =~= s@.subrange(start as int, i as int));
    }
    assert(s@.subrange(start as int, i as int) =~= s@.skip(start as int));
    r
}

pub open spec fn renamed_or_copied(r: Seq<u8>) -> bool {
    r[0] == 0x52u8 || r[0] == 0x43u8 || r[1] == 0x52u8 || r[1] == 0x43u8
}

/// A well-formed `git status --porcelain=v1 -z` entry: two status bytes, a
/// space, a path.
pub open spec fn status_entry_ok(r: Seq<u8>) -> bool {
    &&& vstd::utf8::valid_utf8(r)
    &&& r.len() >= 4
    &&& r[2] == 0x20u8
    &&& vstd::utf8::valid_utf8(r.skip(3))
}

/// The paths that `git status --porcelain=v1 -z` reports from record `k` on
/// (a rename or copy brings its source path in the next record), or nothing
/// when a record is malformed.
pub open spec fn dirty_from(rs: Seq<Seq<u8>>, k: int) -> Option<Seq<Seq<char>>>
    decreases rs.len() - k,
{
    if k < 0 || k >= rs.len() {
        Some(Seq::empty())
    } else if !status_entry_ok(rs[k]) {
        None
    } else {
        let first = vstd::utf8::decode_utf8(rs[k].skip(3));
        if renamed_or_copied(rs[k]) {
            if k + 1 >= rs.len() || !vstd::utf8::valid_utf8(rs[k + 1]) {
                None
            } else {
                match dirty_from(rs, k + 2) {
                    Some(rest) => Some(seq![first, vstd::utf8::decode_utf8(rs[k + 1])] + rest),
                    None => None,
                }
            }
        } else {
            match dirty_from(rs, k + 1) {
                Some(rest) => Some(seq![first] + rest),
                None => None,
            }
        }
    }
}

pub open spec fn after(acc: Seq<Seq<char>>, rest: Option<Seq<Seq<char>>>) -> Option<Seq<Seq<char>>> {
    match rest {
        Some(r) => Some(acc + r),
        None => None,
    }
}

/// The paths that `git status --porcelain=v1 -z` reports as changed, in
/// order (see [`dirty_from`]).
pub fn parse_dirty_paths(output: &[u8]) -> (r: Option<Vec<String>>)
    ensures
        r matches Some(v) ==> dirty_from(nul_records(output@), 0) == Some(strings_view(v@)),
        r is None ==> dirty_from(nul_records(output@), 0) is None,
{
    let records = split_nul_records(output);
    let ghost rs = nul_records(output@);
    let mut dirty: Vec<String> = Vec::new();
    let mut index: usize = 0;
    assert(Seq::<Seq<char>>::empty() + dirty_from(rs, 0)->Some_0 =~= dirty_from(rs, 0)->Some_0);
    assert(after(strings_view(dirty@), dirty_from(rs, 0)) == dirty_from(rs, 0)) by {
        assert(strings_view(dirty@) =~= Seq::<Seq<char>>::empty());
    }
    while index < records.len()
        invariant
            index <= records@.len() + 1,
            bytes_view(records@) == rs,
            rs == nul_records(output@),
            rs.len() == records@.len(),
            dirty_from(rs, 0) == after(strings_view(dirty@), dirty_from(rs, index as int)),
        decreases records.len() + 1 - index,
    {
        let record = &records[index];
        assert(record@ == rs[index as int]);
        let text = utf8_decode(record.as_slice());
        if text.is_none() || record.len() < 4 || record[2] != 0x20u8 {
            return None;
        }
        let tail = bytes_from(record.as_slice(), 3);
        assert(tail@ =~= rs[index as int].skip(3));
        let first = match utf8_decode(tail.as_slice()) {
            Some(t) => t,
            None => {
                return None;
            },
        };
        let ghost before = strings_view(dirty@);
        let ghost fv = first@;
        dirty.push(first);
        assert(strings_view(dirty@) =~= before.push(fv));
        if record[0] == 0x52u8 || record[0] == 0x43u8 || record[1] == 0x52u8 || record[1] == 0x43u8 {
            if index + 1 >= records.len() {
                return None;
            }
            let other_bytes = &records[index + 1];
            assert(other_bytes@ == rs[index + 1]);
            let other = match utf8_decode(other_bytes.as_slice()) {
                Some(t) => t,
                None => {
                    return None;
                },
            };
            let ghost mid = strings_view(dirty@);
            let ghost ov = other@;
            dirty.push(other);
            assert(strings_view(dirty@) =~= mid.push(ov));
            proof {
                match dirty_from(rs, index + 2) {
                    Some(rest) => {
                        assert(before + (seq![fv, ov] + rest) =~= strings_view(dirty@) + rest);
                    },
                    None => {},
                }
            }
            index = index + 2;
        } else {
            proof {
                match dirty_from(rs, index + 1) {
                    Some(rest) => {
                        assert(before + (seq![fv] + rest) =~= strings_view(dirty@) + rest);
                    },
                    None => {},
                }
            }
            index = index + 1;
        }
    }
    assert(dirty_from(rs, index as int) == Some(Seq::<Seq<char>>::empty()));
    assert(strings_view(dirty@) + Seq::<Seq<char>>::empty() =~= strings_view(dirty@));
    Some(dirty)
}

/// A piece of a path between separators that names a file or directory:
/// not empty, not `.` and not `..`.
pub open spec fn normal_segment(s: Seq<char>) -> bool {
    s.len() > 0 && s != "."@ && s != ".."@
}

/// Whether a path passes through one of the skipped directory names.
pub open spec fn has_skipped_dir(path: Seq<char>, skipped: Seq<Seq<char>>) -> bool {
    exists|i: int|
        0 <= i < split_on(path, '/').len() && normal_segment(#[trigger] split_on(path, '/')[i])
            && skipped.contains(split_on(path, '/')[i])
}

fn contains_string(v: &Vec<String>, s: &[char]) -> (r: bool)
    ensures
        r == strings_view(v@).contains(s@),
{
    let mut i: usize = 0;
    while i < v.len()
        invariant
            i <= v@.len(),
            forall|k: int| 0 <= k < i ==> v@[k]@ != s@,
        decreases v.len() - i,
    {
        let c = chars_of(v[i].as_str());
        if chars_eq(c.as_slice(), s) {
            assert(strings_view(v@)[i as int] == s@);
            return true;
        }
        i = i + 1;
    }
    proof {
        if strings_view(v@).contains(s@) {
            let k = choose|k: int| 0 <= k < strings_view(v@).len() && strings_view(v@)[k] == s@;
            assert(v@[k]@ == s@);
        }
    }
    false
}

fn is_normal_segment(s: &[char]) -> (r: bool)
    ensures
        r == normal_segment(s@),
{
    proof {
        reveal_strlit(".");
        reveal_strlit("..");
    }
    if s.len() == 0 {
        return false;
    }
    if s.len() == 1 && s[0] == '.' {
        assert(s@ =~= "."@);
        return false;
    }
    if s.len() == 2 && s[0] == '.' && s[1] == '.' {
        assert(s@ =~= ".."@);
        return false;
    }
    assert(s@ != "."@ && s@ != ".."@) by {
        if s@ == "."@ {
            assert(s@[0] == '.');
        }
        if s@ == ".."@ {
            assert(s@[0] == '.' && s@[1] == '.');
        }
    }
    true
}

/// Whether the path passes through a skipped directory.
pub fn path_has_skipped_dir(path: &str, skipped_dirs: &Vec<String>) -> (r: bool)
    ensures
        r == has_skipped_dir(path@, strings_view(skipped_dirs@)),
{
    let cs = chars_of(path);
    let parts = split_chars(cs.as_slice(), '/');
    let ghost sp = split_on(path@, '/');
    let mut i: usize = 0;
    while i < parts.len()
        invariant
            i <= parts@.len(),
            crate::text::seqs_view(parts@) == sp,
            sp == split_on(path@, '/'),
            forall|k: int|
                0 <= k < i ==> !(normal_segment(#[trigger] sp[k]) && strings_view(skipped_dirs@).contains(sp[k])),
        decreases parts.len() - i,
    {
        assert(parts@[i as int]@ == sp[i as int]);
        if is_normal_segment(parts[i].as_slice()) && contains_string(skipped_dirs, parts[i].as_slice()) {
            return true;
        }
        i = i + 1;
    }
    false
}

/// The segments between separators, empty ones and `.` dropped.
pub open spec fn path_segments(p: Seq<char>) -> Seq<Seq<char>> {
    split_on(p, '/').filter(|s: Seq<char>| s.len() > 0 && s != "."@)
}

/// The components of a path, as std splits it: a root (`/`) or a leading
/// current-directory (`.`) marker, then the segments.
pub open spec fn path_components(p: Seq<char>) -> Seq<Seq<char>> {
    if p.len() > 0 && p[0] == '/' {
        seq!["/"@] + path_segments(p)
    } else if split_on(p, '/')[0] == "."@ {
        seq!["."@] + path_segments(p)
    } else {
        path_segments(p)
    }
}

/// Two paths with the same components (what `PathBuf` equality compares).
pub open spec fn same_path(a: Seq<char>, b: Seq<char>) -> bool {
    path_components(a) == path_components(b)
}

/// Component-wise order of paths.
pub open spec fn components_less(a: Seq<Seq<char>>, b: Seq<Seq<char>>) -> bool
    decreases a.len(),
{
    if a.len() == 0 {
        b.len() > 0
    } else if b.len() == 0 {
        false
    } else if a[0] != b[0] {
        seq_less(a[0], b[0])
    } else {
        components_less(a.drop_first(), b.drop_first())
    }
}

pub open spec fn path_less(a: Seq<char>, b: Seq<char>) -> bool {
    components_less(path_components(a), path_components(b))
}

proof fn lemma_components_less_irreflexive(a: Seq<Seq<char>>)
    ensures
        !components_less(a, a),
    decreases a.len(),
{
    if a.len() > 0 {
        lemma_components_less_irreflexive(a.drop_first());
    }
}

proof fn lemma_components_less_transitive(a: Seq<Seq<char>>, b: Seq<Seq<char>>, c: Seq<Seq<char>>)
    requires
        components_less(a, b),
        components_less(b, c),
    ensures
        components_less(a, c),
    decreases a.len(),
{
    if a.len() > 0 && b.len() > 0 && c.len() > 0 {
        if a[0] == b[0] && b[0] == c[0] {
            lemma_components_less_transitive(a.drop_first(), b.drop_first(), c.drop_first());
        } else if a[0] != b[0] && b[0] != c[0] {
            crate::text::lemma_seq_less_transitive(a[0], b[0], c[0]);
            if a[0] == c[0] {
                crate::text::lemma_seq_less_total(a[0], b[0]);
            }
        }
    }
}

proof fn lemma_filter_push_pred(a: Seq<Seq<char>>, x: Seq<char>)
    ensures
        a.push(x).filter(|s: Seq<char>| s.len() > 0 && s != "."@) == if x.len() > 0 && x != "."@ {
            a.filter(|s: Seq<char>| s.len() > 0 && s != "."@).push(x)
        } else {
            a.filter(|s: Seq<char>| s.len() > 0 && s != "."@)
        },
{
    reveal_with_fuel(Seq::filter, 1);
    assert(a.push(x).drop_last() =~= a);
}

pub(crate) fn components_of(path: &str) -> (r: Vec<Vec<char>>)
    ensures
        crate::text::seqs_view(r@) == path_components(path@),
{
    let cs = chars_of(path);
    let parts = split_chars(cs.as_slice(), '/');
    let ghost sp = split_on(path@, '/');
    let mut out: Vec<Vec<char>> = Vec::new();
    let mut i: usize = 0;
    proof {
        reveal_with_fuel(Seq::filter, 1);
        assert(sp.take(0) =~= Seq::<Seq<char>>::empty());
    }
    while i < parts.len()
        invariant
            i <= parts@.len(),
            crate::text::seqs_view(parts@) == sp,
            sp == split_on(path@, '/'),
            crate::text::seqs_view(out@) == sp.take(i as int).filter(|s: Seq<char>| s.len() > 0 && s != "."@),
            cs@ == path@,
        decreases parts.len() - i,
    {
        let seg = &parts[i];
        assert(seg@ == sp[i as int]);
        proof {
            assert(sp.take(i + 1) =~= sp.take(i as int).push(sp[i as int]));
            lemma_filter_push_pred(sp.take(i as int), sp[i as int]);
            reveal_strlit(".");
        }
        let dot = seg.len() == 1 && seg[0] == '.';
        assert(dot <==> seg@ == "."@) by {
            if seg@ == "."@ {
                assert(seg@[0] == '.');
            }
            if dot {
                assert(seg@ =~= "."@);
            }
        }
        if seg.len() > 0 && !dot {
            let ghost before = crate::text::seqs_view(out@);
            let copy = crate::text::slice_chars(seg.as_slice(), 0, seg.len());
            assert(copy@ =~= seg@);
            out.push(copy);
            assert(crate::text::seqs_view(out@) =~= before.push(seg@));
        }
        i = i + 1;
    }
    assert(sp.take(i as int) =~= sp);
    proof {
        crate::text::lemma_split_on_nonempty(path@, '/');
        reveal_strlit("/");
        reveal_strlit(".");
    }
    assert(parts@[0]@ == sp[0]);
    let first_dot = parts[0].len() == 1 && parts[0][0] == '.';
    assert(first_dot <==> sp[0] == "."@) by {
        if sp[0] == "."@ {
            assert(sp[0][0] == '.');
        }
        if first_dot {
            assert(parts@[0]@ =~= "."@);
        }
    }
    if cs.len() > 0 && cs[0] == '/' {
        let ghost segs = crate::text::seqs_view(out@);
        let marker = vec!['/'];
        assert(marker@ =~= "/"@);
        out.insert(0, marker);
        assert(crate::text::seqs_view(out@) =~= seq!["/"@] + segs);
    } else if first_dot {
        let ghost segs = crate::text::seqs_view(out@);
        let marker = vec!['.'];
        assert(marker@ =~= "."@);
        out.insert(0, marker);
        assert(crate::text::seqs_view(out@) =~= seq!["."@] + segs);
    }
    out
}

/// Whether two paths have the same components.
pub fn same_path_exec(a: &str, b: &str) -> (r: bool)
    ensures
        r == same_path(a@, b@),
{
    let ca = components_of(a);
    let cb = components_of(b);
    let ghost av = crate::text::seqs_view(ca@);
    let ghost bv = crate::text::seqs_view(cb@);
    assert(av.len() == ca@.len() && bv.len() == cb@.len());
    if ca.len() != cb.len() {
        return false;
    }
    let mut i: usize = 0;
    while i < ca.len()
        invariant
            i <= ca@.len(),
            ca@.len() == cb@.len(),
            av == crate::text::seqs_view(ca@),
            bv == crate::text::seqs_view(cb@),
            av == path_components(a@),
            bv == path_components(b@),
            forall|k: int| 0 <= k < i ==> av[k] == bv[k],
        decreases ca.len() - i,
    {
        assert(av[i as int] == ca@[i as int]@ && bv[i as int] == cb@[i as int]@);
        if !chars_eq(ca[i].as_slice(), cb[i].as_slice()) {
            assert(av[i as int] != bv[i as int]);
            return false;
        }
        i = i + 1;
    }
    assert(av =~= bv);
    true
}

fn components_less_exec(a: &Vec<Vec<char>>, b: &Vec<Vec<char>>) -> (r: bool)
    ensures
        r == components_less(crate::text::seqs_view(a@), crate::text::seqs_view(b@)),
{
    let ghost av = crate::text::seqs_view(a@);
    let ghost bv = crate::text::seqs_view(b@);
    let mut i: usize = 0;
    assert(av.skip(0) =~= av && bv.skip(0) =~= bv);
    while i < a.len() && i < b.len() && chars_eq(a[i].as_slice(), b[i].as_slice())
        invariant
            i <= a@.len(),
            i <= b@.len(),
            av == crate::text::seqs_view(a@),
            bv == crate::text::seqs_view(b@),
            components_less(av, bv) == components_less(av.skip(i as int), bv.skip(i as int)),
        decreases a.len() - i,
    {
        assert(av.skip(i as int)[0] == a@[i as int]@);
        assert(bv.skip(i as int)[0] == b@[i as int]@);
        assert(av.skip(i as int).drop_first() =~= av.skip(i + 1));
        assert(bv.skip(i as int).drop_first() =~= bv.skip(i + 1));
        i = i + 1;
    }
    if i == a.len() {
        i < b.len()
    } else if i == b.len() {
        false
    } else {
        assert(av.skip(i as int)[0] == a@[i as int]@);
        assert(bv.skip(i as int)[0] == b@[i as int]@);
        chars_less(a[i].as_slice(), b[i].as_slice())
    }
}

/// Whether `a` sorts before `b` as paths.
pub fn path_before(a: &str, b: &str) -> (r: bool)
    ensures
        r == path_less(a@, b@),
{
    let ca = components_of(a);
    let cb = components_of(b);
    components_less_exec(&ca, &cb)
}

/// The facts of one file.
#[derive(Debug, Clone, Eq, PartialEq)]
pub struct RustFactFile {
    pub path: String,
    pub facts: RustFileFacts,
}

/// The facts of every file read, and how many came from the cache and how
/// many from a parse.
#[derive(Debug)]
pub struct RustFactScan {
    pub files: Vec<RustFactFile>,
    pub cache_hits: usize,
    pub parsed_files: usize,
}

pub open spec fn file_paths(v: Seq<RustFactFile>) -> Seq<Seq<char>> {
    v.map_values(|f: RustFactFile| f.path@)
}

/// Files in path order.
pub open spec fn paths_sorted(v: Seq<RustFactFile>) -> bool {
    forall|a: int, b: int| 0 <= a < b < v.len() ==> !path_less(#[trigger] v[b].path@, #[trigger] v[a].path@)
}

impl RustFactScan {
    pub fn new() -> (r: RustFactScan)
        ensures
            r.files@.len() == 0,
            r.cache_hits == 0,
            r.parsed_files == 0,
    {
        RustFactScan { files: Vec::new(), cache_hits: 0, parsed_files: 0 }
    }

    /// Adds the facts of one file, counting where they came from.
    pub fn record(&mut self, path: &str, facts: RustFileFacts, from_cache: bool)
        requires
            old(self).cache_hits + old(self).parsed_files < usize::MAX,
        ensures
            final(self).files@.len() == old(self).files@.len() + 1,
            final(self).files@.drop_last() == old(self).files@,
            final(self).files@.last().path@ == path@,
            final(self).files@.last().facts == facts,
            final(self).cache_hits == old(self).cache_hits + if from_cache { 1int } else { 0int },
            final(self).parsed_files == old(self).parsed_files + if from_cache { 0int } else { 1int },
    {
        self.files.push(RustFactFile { path: owned(path), facts });
        if from_cache {
            self.cache_hits = self.cache_hits + 1;
        } else {
            self.parsed_files = self.parsed_files + 1;
        }
    }

    /// Puts the files in path order; among equal paths, the earlier stays
    /// first.
    pub fn sort_files(&mut self)
        ensures
            paths_sorted(final(self).files@),
            final(self).files@.to_multiset() == old(self).files@.to_multiset(),
            final(self).cache_hits == old(self).cache_hits,
            final(self).parsed_files == old(self).parsed_files,
    {
        let mut files: Vec<RustFactFile> = Vec::new();
        std::mem::swap(&mut files, &mut self.files);
        let ghost input = files@;
        let mut sorted: Vec<RustFactFile> = Vec::new();
        let mut rest = files;
        proof {
            broadcast use vstd::seq_lib::group_to_multiset_ensures;
            assert(sorted@.to_multiset() =~= vstd::multiset::Multiset::empty());
        }
        while rest.len() > 0
            invariant
                paths_sorted(sorted@),
                sorted@.to_multiset().add(rest@.to_multiset()) == input.to_multiset(),
            decreases rest.len(),
        {
            let ghost before_rest = rest@;
            let ghost before_sorted = sorted@;
            let item = rest.remove(0);
            proof {
                broadcast use vstd::seq_lib::group_to_multiset_ensures;
                assert(rest@ =~= before_rest.remove(0));
            }
            let mut j: usize = 0;
            let mut stop = false;
            while j < sorted.len() && !stop
                invariant
                    j <= sorted@.len(),
                    sorted@ == before_sorted,
                    forall|k: int| 0 <= k < j ==> !path_less(item.path@, #[trigger] sorted@[k].path@),
                    stop ==> j < sorted@.len() && path_less(item.path@, sorted@[j as int].path@),
                decreases sorted.len() - j + if stop { 0int } else { 1int },
            {
                if path_before(item.path.as_str(), sorted[j].path.as_str()) {
                    stop = true;
                } else {
                    j = j + 1;
                }
            }
            let ghost iv = item;
            sorted.insert(j, item);
            proof {
                broadcast use vstd::seq_lib::group_to_multiset_ensures;
                let t = sorted@;
                assert(t =~= before_sorted.insert(j as int, iv));
                assert forall|a: int, b: int| 0 <= a < b < t.len() implies !path_less(
                    #[trigger] t[b].path@,
                    #[trigger] t[a].path@,
                ) by {
                    if b < j {
                        assert(t[a] == before_sorted[a] && t[b] == before_sorted[b]);
                    } else if b == j {
                        assert(t[a] == before_sorted[a]);
                        assert(t[b] == iv);
                        if path_less(iv.path@, before_sorted[a].path@) {
                            assert(!path_less(iv.path@, before_sorted[a].path@));
                        }
                    } else if a == j {
                        assert(t[a] == iv && t[b] == before_sorted[b - 1]);
                        if path_less(before_sorted[b - 1].path@, iv.path@) {
                            if b - 1 > j {
                                assert(!path_less(before_sorted[b - 1].path@, before_sorted[j as int].path@));
                            }
                            lemma_components_less_transitive(
                                path_components(before_sorted[b - 1].path@),
                                path_components(iv.path@),
                                path_components(before_sorted[j as int].path@),
                            );
                            lemma_components_less_irreflexive(path_components(before_sorted[j as int].path@));
                        }
                    } else if a < j {
                        assert(t[a] == before_sorted[a] && t[b] == before_sorted[b - 1]);
                    } else {
                        assert(t[a] == before_sorted[a - 1] && t[b] == before_sorted[b - 1]);
                    }
                }
                assert(t.to_multiset() == before_sorted.to_multiset().insert(iv));
                assert(sorted@.to_multiset().add(rest@.to_multiset()) =~= input.to_multiset());
            }
        }
        proof {
            broadcast use vstd::seq_lib::group_to_multiset_ensures;
            assert(rest@.to_multiset() =~= vstd::multiset::Multiset::empty());
            assert(sorted@.to_multiset() =~= input.to_multiset());
        }
        self.files = sorted;
    }
}

/// Whether some path of the list is the same path as `p`.
pub open spec fn lists_path(v: Seq<Seq<char>>, p: Seq<char>) -> bool {
    exists|k: int| 0 <= k < v.len() && same_path(#[trigger] v[k], p)
}

pub(crate) fn lists_path_exec(v: &Vec<String>, p: &str) -> (r: bool)
    ensures
        r == lists_path(strings_view(v@), p@),
{
    let mut i: usize = 0;
    while i < v.len()
        invariant
            i <= v@.len(),
            forall|k: int| 0 <= k < i ==> !same_path(#[trigger] strings_view(v@)[k], p@),
        decreases v.len() - i,
    {
        assert(strings_view(v@)[i as int] == v@[i as int]@);
        if same_path_exec(v[i].as_str(), p) {
            return true;
        }
        i = i + 1;
    }
    false
}

/// A file to read, and the content identity that keys its cached facts
/// when the file is clean.
#[derive(Debug, Clone, Eq, PartialEq)]
pub struct RustInput {
    pub path: String,
    pub content_id: Option<String>,
}

pub struct InputView {
    pub path: Seq<char>,
    pub content_id: Option<Seq<char>>,
}

pub open spec fn inputs_view(v: Seq<RustInput>) -> Seq<InputView> {
    v.map_values(|i: RustInput| InputView { path: i.path@, content_id: ident_view(i.content_id) })
}

/// What one listed file contributes: nothing when it lies under a skipped
/// directory, is excluded or is not a regular file; else its path under the
/// root and, unless Git reports it changed, its index object name.
pub open spec fn git_input(
    root: Seq<char>,
    relative: Seq<char>,
    regular: bool,
    excluded: Seq<Seq<char>>,
    skipped: Seq<Seq<char>>,
    index: Seq<(Seq<char>, Seq<char>)>,
    dirty: Seq<Seq<char>>,
) -> Option<InputView> {
    let path = joined(root, relative);
    if has_skipped_dir(relative, skipped) || lists_path(excluded, path) || !regular {
        None
    } else {
        Some(
            InputView {
                path,
                content_id: if lists_path(dirty, relative) {
                    None
                } else {
                    index_id(index, relative)
                },
            },
        )
    }
}

pub open spec fn git_inputs(
    root: Seq<char>,
    relatives: Seq<Seq<char>>,
    regular: Seq<bool>,
    excluded: Seq<Seq<char>>,
    skipped: Seq<Seq<char>>,
    index: Seq<(Seq<char>, Seq<char>)>,
    dirty: Seq<Seq<char>>,
) -> Seq<InputView>
    decreases relatives.len(),
{
    if relatives.len() == 0 {
        Seq::empty()
    } else {
        let before = git_inputs(
            root,
            relatives.drop_last(),
            regular,
            excluded,
            skipped,
            index,
            dirty,
        );
        match git_input(
            root,
            relatives.last(),
            regular[relatives.len() - 1],
            excluded,
            skipped,
            index,
            dirty,
        ) {
            Some(x) => before.push(x),
            None => before,
        }
    }
}

/// The Rust files of a Git work tree to read, in listing order:
/// `regular[i]` says whether `relatives[i]` under the root is a regular
/// file (see [`git_input`]).
pub fn select_git_inputs(
    root: &str,
    relatives: &Vec<String>,
    regular: &Vec<bool>,
    excluded: &Vec<String>,
    skipped_dirs: &Vec<String>,
    index: &Vec<(String, String)>,
    dirty: &Vec<String>,
) -> (r: Vec<RustInput>)
    requires
        regular@.len() == relatives@.len(),
    ensures
        inputs_view(r@) == git_inputs(
            root@,
            strings_view(relatives@),
            regular@,
            strings_view(excluded@),
            strings_view(skipped_dirs@),
            pairs_view(index@),
            strings_view(dirty@),
        ),
{
    let ghost rels = strings_view(relatives@);
    let ghost ex = strings_view(excluded@);
    let ghost sk = strings_view(skipped_dirs@);
    let ghost ix = pairs_view(index@);
    let ghost dv = strings_view(dirty@);
    let mut out: Vec<RustInput> = Vec::new();
    let mut i: usize = 0;
    assert(inputs_view(out@) =~= git_inputs(root@, rels.take(0), regular@, ex, sk, ix, dv)) by {
        assert(rels.take(0) =~= Seq::<Seq<char>>::empty());
    }
    while i < relatives.len()
        invariant
            i <= relatives@.len(),
            regular@.len() == relatives@.len(),
            rels == strings_view(relatives@),
            ex == strings_view(excluded@),
            sk == strings_view(skipped_dirs@),
            ix == pairs_view(index@),
            dv == strings_view(dirty@),
            inputs_view(out@) == git_inputs(root@, rels.take(i as int), regular@, ex, sk, ix, dv),
        decreases relatives.len() - i,
    {
        let rel = relatives[i].as_str();
        assert(rels.take(i + 1).drop_last() =~= rels.take(i as int));
        assert(rels.take(i + 1).last() == rel@);
        let path = join_path(root, rel);
        if !path_has_skipped_dir(rel, skipped_dirs) && !lists_path_exec(excluded, path.as_str())
            && regular[i] {
            let content_id = if lists_path_exec(dirty, rel) {
                None
            } else {
                lookup_index_id(index, rel)
            };
            let item = RustInput { path, content_id };
            let ghost before = inputs_view(out@);
            let ghost v = InputView { path: item.path@, content_id: ident_view(item.content_id) };
            out.push(item);
            assert(inputs_view(out@) =~= before.push(v));
        }
        i = i + 1;
    }
    assert(rels.take(i as int) =~= rels);
    out
}

/// `Path::file_name`: the last component when it names a file or
/// directory.
pub open spec fn file_name(p: Seq<char>) -> Option<Seq<char>> {
    let c = path_components(p);
    if c.len() == 0 || c.last() == "/"@ || c.last() == "."@ || c.last() == ".."@ {
        None
    } else {
        Some(c.last())
    }
}

/// A path whose extension, as std reports it, is `rs`: its file name ends
/// in `.rs` after at least one other character.
pub open spec fn rust_source_name(p: Seq<char>) -> bool {
    match file_name(p) {
        Some(n) => n.len() > 3 && n.skip(n.len() - 3) == ".rs"@,
        None => false,
    }
}

pub fn has_rust_extension(path: &str) -> (r: bool)
    ensures
        r == rust_source_name(path@),
{
    let comps = components_of(path);
    proof {
        reveal_strlit("/");
        reveal_strlit(".");
        reveal_strlit("..");
        reveal_strlit(".rs");
    }
    if comps.len() == 0 {
        return false;
    }
    let last = &comps[comps.len() - 1];
    let ghost lv = crate::text::seqs_view(comps@).last();
    assert(last@ == lv);
    let special = is_marker(last.as_slice());
    if special {
        return false;
    }
    let n = last.len();
    if n <= 3 {
        return false;
    }
    let ok = last[n - 3] == '.' && last[n - 2] == 'r' && last[n - 1] == 's';
    assert(ok <==> last@.skip(n - 3) == ".rs"@) by {
        if ok {
            assert(last@.skip(n - 3) =~= ".rs"@);
        }
        if last@.skip(n - 3) == ".rs"@ {
            assert(last@.skip(n - 3)[0] == last@[n - 3]);
            assert(last@.skip(n - 3)[1] == last@[n - 2]);
            assert(last@.skip(n - 3)[2] == last@[n - 1]);
        }
    }
    ok
}

fn is_marker(s: &[char]) -> (r: bool)
    ensures
        r == (s@ == "/"@ || s@ == "."@ || s@ == ".."@),
{
    proof {
        reveal_strlit("/");
        reveal_strlit(".");
        reveal_strlit("..");
    }
    if s.len() == 1 && (s[0] == '/' || s[0] == '.') {
        if s[0] == '/' {
            assert(s@ =~= "/"@);
        } else {
            assert(s@ =~= "."@);
        }
        return true;
    }
    if s.len() == 2 && s[0] == '.' && s[1] == '.' {
        assert(s@ =~= ".."@);
        return true;
    }
    assert(!(s@ == "/"@ || s@ == "."@ || s@ == ".."@)) by {
        if s@ == "/"@ || s@ == "."@ {
            assert(s@.len() == 1);
            assert(s@[0] == '/' || s@[0] == '.');
        }
        if s@ == ".."@ {
            assert(s@.len() == 2 && s@[0] == '.' && s@[1] == '.');
        }
    }
    false
}

/// Whether a directory walk enters an entry: anything but a directory, or
/// a directory whose name is not skipped.
pub fn should_visit(is_dir: bool, name: Option<&str>, skipped_dirs: &Vec<String>) -> (r: bool)
    ensures
        r == (!is_dir || !(name matches Some(n) && strings_view(skipped_dirs@).contains(n@))),
{
    if !is_dir {
        return true;
    }
    match name {
        Some(n) => {
            let cs = chars_of(n);
            !contains_string(skipped_dirs, cs.as_slice())
        },
        None => true,
    }
}

/// A parsed Rust source file, as `syn` gives it.
#[verifier::external_type_specification]
#[verifier::external_body]
pub struct ExSynFile(syn::File);

/// What `syn::parse_file` makes of a source text: `None` when it parses,
/// else the text of its error.
pub uninterp spec fn rust_parse_outcome(source: Seq<char>) -> Option<Seq<char>>;

/// Parses `source` as a whole Rust file with `syn::parse_file`; a refusal is
/// returned as the error's text. The contract names the outcome
/// `rust_parse_outcome`; it says nothing of the parsed tree, which Verus
/// cannot see.
#[verifier::external_body]
fn parse_rust_file(source: &str) -> (r: Result<syn::File, String>)
    ensures
        match r {
            Ok(_) => rust_parse_outcome(source@) is None,
            Err(e) => rust_parse_outcome(source@) == Some(e@),
        },
{
    syn::parse_file(source).map_err(|error| error.to_string())
}

/// Parses one Rust source text. A text that does not parse yields, in place
/// of the tree, the facts of an unparsed file: its error and nothing else.
pub fn parse_rust_source(source: &str) -> (r: Result<syn::File, RustFileFacts>)
    ensures
        match r {
            Ok(_) => rust_parse_outcome(source@) is None,
            Err(f) => rust_parse_outcome(source@) matches Some(e) && f.facts_view() == (FactsView {
                test_modules: Seq::empty(),
                explicit_tests: Seq::empty(),
                module_names: Seq::empty(),
                parse_error: Some(e),
            }),
        },
{
    match parse_rust_file(source) {
        Ok(file) => Ok(file),
        Err(error) => Err(RustFileFacts::unparsed(error.as_str())),
    }
}

} // verus!
