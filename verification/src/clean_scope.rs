//! Clean files of a repository arranged by directory: each scope holds the
//! files directly in it, keyed by name, and its subdirectories, keyed by
//! name, both in name order; a scope's identity binds its coordinate, its
//! files' content identities and its subdirectories' identities.
use vstd::prelude::*;

use crate::rust_facts::{components_of, inputs_view, join_path, joined, lists_path, path_components, same_path_exec, InputView, RustInput};
use crate::validate::strings_view;
use crate::provider_snapshot_applicability::identity::{hex_encode, hex_lower, sha256, sha256_digest};
use crate::text::{chars_less, chars_of, decimal, decimal_chars, owned, seq_less, string_of};

verus! {

/// A clean file directly in a scope: its name and content identity.
#[derive(Debug)]
pub struct ScopeFile {
    pub name: String,
    pub content_id: String,
}

/// A subdirectory of a scope.
#[derive(Debug)]
pub struct ScopeChild {
    pub name: String,
    pub node: ScopeNode,
}

/// One directory of clean files.
#[derive(Debug)]
pub struct ScopeNode {
    /// Repository-relative directory path; empty for the root scope.
    pub relative: String,
    pub files: Vec<ScopeFile>,
    pub children: Vec<ScopeChild>,
}

pub struct ScopeView {
    pub relative: Seq<char>,
    pub files: Seq<(Seq<char>, Seq<char>)>,
    pub children: Seq<(Seq<char>, ScopeView)>,
}

pub open spec fn files_view(v: Seq<ScopeFile>) -> Seq<(Seq<char>, Seq<char>)> {
    v.map_values(|f: ScopeFile| (f.name@, f.content_id@))
}

impl ScopeNode {
    pub open spec fn scope_view(&self) -> ScopeView
        decreases self,
    {
        ScopeView {
            relative: self.relative@,
            files: files_view(self.files@),
            children: children_view(self.children@),
        }
    }
}

pub open spec fn children_view(v: Seq<ScopeChild>) -> Seq<(Seq<char>, ScopeView)>
    decreases v,
{
    if v.len() == 0 {
        Seq::empty()
    } else {
        children_view(v.drop_last()).push((v.last().name@, v.last().node.scope_view()))
    }
}

proof fn lemma_children_view(v: Seq<ScopeChild>)
    ensures
        children_view(v).len() == v.len(),
        forall|i: int|
            0 <= i < v.len() ==> #[trigger] children_view(v)[i] == (v[i].name@, v[i].node.scope_view()),
    decreases v.len(),
{
    if v.len() > 0 {
        lemma_children_view(v.drop_last());
    }
}

/// Where `key` belongs among name-ordered keys: the first position whose key
/// is not smaller.
pub open spec fn key_position<V>(entries: Seq<(Seq<char>, V)>, key: Seq<char>) -> int
    decreases entries.len(),
{
    if entries.len() == 0 {
        0
    } else if seq_less(entries[0].0, key) {
        1 + key_position(entries.drop_first(), key)
    } else {
        0
    }
}

proof fn lemma_key_position_bounds<V>(entries: Seq<(Seq<char>, V)>, key: Seq<char>)
    ensures
        0 <= key_position(entries, key) <= entries.len(),
        forall|j: int| 0 <= j < key_position(entries, key) ==> seq_less(#[trigger] entries[j].0, key),
        key_position(entries, key) < entries.len() ==> !seq_less(entries[key_position(entries, key)].0, key),
    decreases entries.len(),
{
    if entries.len() > 0 && seq_less(entries[0].0, key) {
        let rest = entries.drop_first();
        lemma_key_position_bounds(rest, key);
        assert forall|j: int| 0 <= j < key_position(entries, key) implies seq_less(#[trigger] entries[j].0, key) by {
            if j > 0 {
                assert(entries[j] == rest[j - 1]);
            }
        }
    }
}

/// Sets `key` to `value`, keeping the name order: replaced where the key is
/// present, inserted where it belongs otherwise.
pub open spec fn assoc_set<V>(entries: Seq<(Seq<char>, V)>, key: Seq<char>, value: V) -> Seq<(Seq<char>, V)> {
    let p = key_position(entries, key);
    if p < entries.len() && entries[p].0 == key {
        entries.update(p, (key, value))
    } else {
        entries.insert(p, (key, value))
    }
}

/// The position of `key` among name-ordered file entries.
fn file_position(files: &Vec<ScopeFile>, key: &[char]) -> (r: usize)
    ensures
        r == key_position(files_view(files@), key@),
{
    let ghost fv = files_view(files@);
    assert(fv.skip(0) =~= fv);
    let mut i: usize = 0;
    while i < files.len()
        invariant
            i <= files@.len(),
            fv == files_view(files@),
            key_position(fv, key@) == i + key_position(fv.skip(i as int), key@),
        decreases files.len() - i,
    {
        let name = chars_of(files[i].name.as_str());
        assert(fv.skip(i as int)[0] == fv[i as int]);
        assert(fv.skip(i as int).drop_first() =~= fv.skip(i + 1));
        if !chars_less(name.as_slice(), key) {
            return i;
        }
        i = i + 1;
    }
    i
}

/// The position of `key` among name-ordered subdirectories.
fn child_position(children: &Vec<ScopeChild>, key: &[char]) -> (r: usize)
    ensures
        r == key_position(children_view(children@), key@),
{
    let ghost cv = children_view(children@);
    proof {
        lemma_children_view(children@);
    }
    assert(cv.skip(0) =~= cv);
    let mut i: usize = 0;
    while i < children.len()
        invariant
            i <= children@.len(),
            cv == children_view(children@),
            cv.len() == children@.len(),
            forall|k: int| 0 <= k < children@.len() ==> #[trigger] cv[k] == (children@[k].name@, children@[k].node.scope_view()),
            key_position(cv, key@) == i + key_position(cv.skip(i as int), key@),
        decreases children.len() - i,
    {
        let name = chars_of(children[i].name.as_str());
        assert(cv.skip(i as int)[0] == cv[i as int]);
        assert(cv.skip(i as int).drop_first() =~= cv.skip(i + 1));
        if !chars_less(name.as_slice(), key) {
            return i;
        }
        i = i + 1;
    }
    i
}

pub open spec fn empty_scope(relative: Seq<char>) -> ScopeView {
    ScopeView { relative, files: Seq::empty(), children: Seq::empty() }
}

/// The scope with the file `name` (content `id`) recorded under the
/// subdirectory path `dirs`, creating the directories on the way.
pub open spec fn insert_at(v: ScopeView, dirs: Seq<Seq<char>>, name: Seq<char>, id: Seq<char>) -> ScopeView
    decreases dirs.len(),
{
    if dirs.len() == 0 {
        ScopeView { files: assoc_set(v.files, name, id), ..v }
    } else {
        let c = dirs[0];
        let p = key_position(v.children, c);
        let base = if p < v.children.len() && v.children[p].0 == c {
            v.children[p].1
        } else {
            empty_scope(joined(v.relative, c))
        };
        ScopeView { children: assoc_set(v.children, c, insert_at(base, dirs.drop_first(), name, id)), ..v }
    }
}

fn set_file(files: &mut Vec<ScopeFile>, name: &str, id: &str)
    ensures
        files_view(final(files)@) == assoc_set(files_view(old(files)@), name@, id@),
{
    let key = chars_of(name);
    let p = file_position(files, key.as_slice());
    proof {
        lemma_key_position_bounds(files_view(files@), name@);
    }
    let ghost before = files_view(files@);
    let found = if p < files.len() {
        let here = chars_of(files[p].name.as_str());
        crate::text::chars_eq(here.as_slice(), key.as_slice())
    } else {
        false
    };
    if found {
        files.set(p, ScopeFile { name: owned(name), content_id: owned(id) });
        assert(files_view(files@) =~= before.update(p as int, (name@, id@)));
    } else {
        files.insert(p, ScopeFile { name: owned(name), content_id: owned(id) });
        assert(files_view(files@) =~= before.insert(p as int, (name@, id@)));
    }
}

proof fn lemma_children_update(a: Seq<ScopeChild>, b: Seq<ScopeChild>, p: int, x: ScopeChild)
    requires
        0 <= p < a.len(),
        b == a.update(p, x),
    ensures
        children_view(b) == children_view(a).update(p, (x.name@, x.node.scope_view())),
{
    lemma_children_view(a);
    lemma_children_view(b);
    assert(children_view(b) =~= children_view(a).update(p, (x.name@, x.node.scope_view())));
}

proof fn lemma_children_insert(a: Seq<ScopeChild>, b: Seq<ScopeChild>, p: int, x: ScopeChild)
    requires
        0 <= p <= a.len(),
        b == a.insert(p, x),
    ensures
        children_view(b) == children_view(a).insert(p, (x.name@, x.node.scope_view())),
{
    lemma_children_view(a);
    lemma_children_view(b);
    assert(children_view(b) =~= children_view(a).insert(p, (x.name@, x.node.scope_view())));
}

pub open spec fn dirs_view(v: Seq<String>) -> Seq<Seq<char>> {
    v.map_values(|s: String| s@)
}

/// Records the file `name` (content `id`) under `dirs[d..]`.
fn insert_row(node: ScopeNode, dirs: &Vec<String>, d: usize, name: &str, id: &str) -> (r: ScopeNode)
    requires
        d <= dirs@.len(),
    ensures
        r.scope_view() == insert_at(node.scope_view(), dirs_view(dirs@).skip(d as int), name@, id@),
    decreases dirs@.len() - d,
{
    let mut node = node;
    let ghost dv = dirs_view(dirs@).skip(d as int);
    if d == dirs.len() {
        assert(dv.len() == 0);
        set_file(&mut node.files, name, id);
        return node;
    }
    let ghost v = node.scope_view();
    let c = dirs[d].as_str();
    assert(dv[0] == c@);
    assert(dv.drop_first() =~= dirs_view(dirs@).skip(d + 1));
    let key = chars_of(c);
    let p = child_position(&node.children, key.as_slice());
    proof {
        lemma_key_position_bounds(children_view(node.children@), c@);
        lemma_children_view(node.children@);
    }
    let found = if p < node.children.len() {
        let here = chars_of(node.children[p].name.as_str());
        crate::text::chars_eq(here.as_slice(), key.as_slice())
    } else {
        false
    };
    if found {
        let ghost before = node.children@;
        let child = node.children.remove(p);
        assert(child.node.scope_view() == v.children[p as int].1);
        let updated = insert_row(child.node, dirs, d + 1, name, id);
        let entry = ScopeChild { name: child.name, node: updated };
        node.children.insert(p, entry);
        proof {
            assert(node.children@ =~= before.update(p as int, entry));
            lemma_children_update(before, node.children@, p as int, entry);
        }
    } else {
        let ghost before = node.children@;
        let base = ScopeNode { relative: join_path(node.relative.as_str(), c), files: Vec::new(), children: Vec::new() };
        assert(files_view(base.files@) =~= Seq::empty());
        assert(children_view(base.children@) =~= Seq::empty());
        assert(base.scope_view() == empty_scope(joined(v.relative, c@)));
        let updated = insert_row(base, dirs, d + 1, name, id);
        let entry = ScopeChild { name: owned(c), node: updated };
        node.children.insert(p, entry);
        proof {
            lemma_children_insert(before, node.children@, p as int, entry);
        }
    }
    node
}

/// Where a path lies under the root: its directories below the root and its
/// file name (empty for the root itself), or nothing when it is not under
/// the root.
pub open spec fn row_place(root: Seq<char>, path: Seq<char>) -> Option<(Seq<Seq<char>>, Seq<char>)> {
    let pc = path_components(path);
    let rc = path_components(root);
    if rc.len() <= pc.len() && pc.take(rc.len() as int) == rc {
        let rest = pc.skip(rc.len() as int);
        if rest.len() == 0 {
            Some((Seq::empty(), Seq::empty()))
        } else {
            Some((rest.drop_last(), rest.last()))
        }
    } else {
        None
    }
}

/// The clean scope tree of the rows: every row with a content identity that
/// lies under the root, recorded in order (a later row of the same path
/// replaces the earlier one).
pub open spec fn clean_tree(root: Seq<char>, rows: Seq<InputView>) -> ScopeView
    decreases rows.len(),
{
    if rows.len() == 0 {
        empty_scope(Seq::empty())
    } else {
        let t = clean_tree(root, rows.drop_last());
        let r = rows.last();
        match (r.content_id, row_place(root, r.path)) {
            (Some(id), Some((dirs, name))) => insert_at(t, dirs, name, id),
            _ => t,
        }
    }
}

fn row_place_exec(root: &str, path: &str) -> (r: Option<(Vec<String>, String)>)
    ensures
        match r {
            Some((dirs, name)) => row_place(root@, path@) == Some((dirs_view(dirs@), name@)),
            None => row_place(root@, path@) is None,
        },
{
    let pc = components_of(path);
    let rc = components_of(root);
    let ghost pv = crate::text::seqs_view(pc@);
    let ghost rv = crate::text::seqs_view(rc@);
    assert(pv.len() == pc@.len() && rv.len() == rc@.len());
    if rc.len() > pc.len() {
        return None;
    }
    let mut i: usize = 0;
    while i < rc.len()
        invariant
            i <= rc@.len(),
            rc@.len() <= pc@.len(),
            pv == crate::text::seqs_view(pc@),
            rv == crate::text::seqs_view(rc@),
            pv.len() == pc@.len() && rv.len() == rc@.len(),
            pv == path_components(path@),
            rv == path_components(root@),
            forall|k: int| 0 <= k < i ==> pv[k] == rv[k],
        decreases rc.len() - i,
    {
        assert(pv[i as int] == pc@[i as int]@ && rv[i as int] == rc@[i as int]@);
        if !crate::text::chars_eq(pc[i].as_slice(), rc[i].as_slice()) {
            assert(pv.take(rv.len() as int)[i as int] != rv[i as int]);
            return None;
        }
        i = i + 1;
    }
    assert(pv.take(rv.len() as int) =~= rv);
    let ghost rest = pv.skip(rv.len() as int);
    if pc.len() == rc.len() {
        let dirs: Vec<String> = Vec::new();
        assert(dirs_view(dirs@) =~= Seq::<Seq<char>>::empty());
        assert(rest.len() == 0);
        let empty = String::new();
        assert(empty@ =~= Seq::<char>::empty());
        return Some((dirs, empty));
    }
    let mut dirs: Vec<String> = Vec::new();
    let mut k: usize = rc.len();
    while k + 1 < pc.len()
        invariant
            rc@.len() <= k < pc@.len(),
            pv == crate::text::seqs_view(pc@),
            pv.len() == pc@.len(),
            rest == pv.skip(rc@.len() as int),
            dirs_view(dirs@) == rest.take(k - rc@.len()),
        decreases pc.len() - k,
    {
        let ghost before = dirs_view(dirs@);
        let piece = string_of(pc[k].as_slice());
        assert(piece@ == pv[k as int]);
        assert(rest[k - rc@.len()] == pv[k as int]);
        let ghost pw = piece@;
        dirs.push(piece);
        assert(dirs_view(dirs@) =~= before.push(pw));
        assert(rest.take(k + 1 - rc@.len()) =~= rest.take(k - rc@.len()).push(rest[k - rc@.len()]));
        assert(dirs_view(dirs@) =~= rest.take(k + 1 - rc@.len()));
        k = k + 1;
    }
    let name = string_of(pc[k].as_slice());
    assert(rest.drop_last() =~= rest.take(k - rc@.len()));
    assert(name@ == rest.last());
    Some((dirs, name))
}

/// The clean scope tree of the rows (see [`clean_tree`]).
pub fn build_clean_tree(root: &str, rows: &Vec<RustInput>) -> (r: ScopeNode)
    ensures
        r.scope_view() == clean_tree(root@, inputs_view(rows@)),
        scope_ordered(r.scope_view()),
{
    proof {
        lemma_clean_tree_ordered(root@, inputs_view(rows@));
    }
    let ghost rv = inputs_view(rows@);
    let mut tree = ScopeNode { relative: String::new(), files: Vec::new(), children: Vec::new() };
    proof {
        assert(files_view(tree.files@) =~= Seq::empty());
        assert(children_view(tree.children@) =~= Seq::empty());
        assert(tree.relative@ =~= Seq::<char>::empty());
        assert(rv.take(0) =~= Seq::<InputView>::empty());
    }
    let mut i: usize = 0;
    while i < rows.len()
        invariant
            i <= rows@.len(),
            rv == inputs_view(rows@),
            tree.scope_view() == clean_tree(root@, rv.take(i as int)),
        decreases rows.len() - i,
    {
        let row = &rows[i];
        assert(rv.take(i + 1).drop_last() =~= rv.take(i as int));
        assert(rv.take(i + 1).last() == rv[i as int]);
        match &row.content_id {
            Some(id) => {
                match row_place_exec(root, row.path.as_str()) {
                    Some((dirs, name)) => {
                        assert(dirs_view(dirs@).skip(0) =~= dirs_view(dirs@));
                        tree = insert_row(tree, &dirs, 0, name.as_str(), id.as_str());
                    },
                    None => {},
                }
            },
            None => {},
        }
        i = i + 1;
    }
    assert(rv.take(i as int) =~= rv);
    tree
}

/// The scheme that opens every scope identity.
pub const SCOPE_FINGERPRINT_SCHEME: &'static str = "cultist-test-module-scope-v1";

/// The namespace of the per-file fact cache whose extractor the scopes use.
pub const CACHE_NAMESPACE: &'static str = "rust-syntax-v1";

/// The schema generation of the per-file facts.
pub const CACHE_SCHEMA_VERSION: u32 = 1;

/// The schema generation of the scope aggregates.
pub const AGGREGATE_SCHEMA_VERSION: u32 = 1;

/// The `k` low bytes of `n`, least significant first.
pub open spec fn le_bytes(n: nat, k: nat) -> Seq<u8>
    decreases k,
{
    if k == 0 {
        Seq::empty()
    } else {
        seq![(n % 256) as u8] + le_bytes(n / 256, (k - 1) as nat)
    }
}

/// A part with its length in front, as eight little-endian bytes.
pub open spec fn framed(part: Seq<u8>) -> Seq<u8> {
    le_bytes(part.len(), 8) + part
}

pub open spec fn utf8(s: Seq<char>) -> Seq<u8> {
    vstd::utf8::encode_utf8(s)
}

pub open spec fn files_material(files: Seq<(Seq<char>, Seq<char>)>) -> Seq<u8>
    decreases files.len(),
{
    if files.len() == 0 {
        Seq::empty()
    } else {
        files_material(files.drop_last()) + framed(utf8(files.last().0)) + framed(utf8(files.last().1))
    }
}

/// The bytes a scope's identity is taken over: its coordinate, the
/// file-selection configuration, its files' names and content identities
/// and its subdirectories' names and identities, each part framed.
pub open spec fn scope_material(v: ScopeView, root: Seq<char>, selection: Seq<char>) -> Seq<u8>
    decreases v, 0nat,
{
    framed(utf8(v.relative)) + framed(utf8(selection)) + files_material(v.files) + children_material(
        v.children,
        root,
        selection,
    )
}

pub open spec fn children_material(
    cs: Seq<(Seq<char>, ScopeView)>,
    root: Seq<char>,
    selection: Seq<char>,
) -> Seq<u8>
    decreases cs, 0nat,
{
    if cs.len() == 0 {
        Seq::empty()
    } else {
        children_material(cs.drop_last(), root, selection) + framed(utf8(cs.last().0)) + framed(
            utf8(scope_fingerprint(cs.last().1, root, selection)),
        )
    }
}

/// A scope's identity: the lowercase hex SHA-256 of the scheme, the fact
/// extractor's namespace and schema, the aggregate schema, the repository
/// coordinate and the scope's material, each part framed.
pub open spec fn scope_fingerprint(v: ScopeView, root: Seq<char>, selection: Seq<char>) -> Seq<char>
    decreases v, 1nat,
{
    hex_lower(
        sha256(
            framed(utf8(SCOPE_FINGERPRINT_SCHEME@)) + framed(utf8(CACHE_NAMESPACE@)) + framed(
                utf8(decimal(CACHE_SCHEMA_VERSION as nat)),
            ) + framed(utf8(decimal(AGGREGATE_SCHEMA_VERSION as nat))) + framed(utf8(root)) + framed(
                scope_material(v, root, selection),
            ),
        ),
    )
}

fn push_framed(out: &mut Vec<u8>, part: &[u8])
    ensures
        final(out)@ == old(out)@ + framed(part@),
{
    let ghost start = out@;
    let mut n: u64 = part.len() as u64;
    let mut k: usize = 0;
    assert(le_bytes(part@.len(), 8) == le_bytes(n as nat, (8 - k) as nat));
    while k < 8
        invariant
            k <= 8,
            out@ + le_bytes(n as nat, (8 - k) as nat) == start + le_bytes(part@.len(), 8),
        decreases 8 - k,
    {
        let ghost before = out@;
        out.push((n % 256) as u8);
        proof {
            assert(le_bytes(n as nat, (8 - k) as nat) == seq![(n % 256) as u8] + le_bytes(
                (n / 256) as nat,
                (8 - k - 1) as nat,
            ));
            assert(out@ + le_bytes((n / 256) as nat, (8 - k - 1) as nat) =~= before + le_bytes(
                n as nat,
                (8 - k) as nat,
            ));
        }
        n = n / 256;
        k = k + 1;
    }
    assert(le_bytes(n as nat, 0) =~= Seq::<u8>::empty());
    assert(out@ =~= start + le_bytes(part@.len(), 8));
    let ghost mid = out@;
    let mut i: usize = 0;
    while i < part.len()
        invariant
            i <= part@.len(),
            out@ == mid + part@.take(i as int),
        decreases part.len() - i,
    {
        out.push(part[i]);
        i = i + 1;
        assert(out@ =~= mid + part@.take(i as int));
    }
    assert(part@.take(i as int) =~= part@);
}

fn push_framed_text(out: &mut Vec<u8>, text: &str)
    ensures
        final(out)@ == old(out)@ + framed(utf8(text@)),
{
    push_framed(out, text.as_bytes());
}

fn files_material_exec(out: &mut Vec<u8>, files: &Vec<ScopeFile>)
    ensures
        final(out)@ == old(out)@ + files_material(files_view(files@)),
{
    let ghost start = out@;
    let ghost fv = files_view(files@);
    let mut i: usize = 0;
    assert(fv.take(0) =~= Seq::<(Seq<char>, Seq<char>)>::empty());
    assert(out@ =~= start + files_material(fv.take(0)));
    while i < files.len()
        invariant
            i <= files@.len(),
            fv == files_view(files@),
            out@ == start + files_material(fv.take(i as int)),
        decreases files.len() - i,
    {
        assert(fv.take(i + 1).drop_last() =~= fv.take(i as int));
        assert(fv.take(i + 1).last() == (files@[i as int].name@, files@[i as int].content_id@));
        push_framed_text(out, files[i].name.as_str());
        push_framed_text(out, files[i].content_id.as_str());
        assert(out@ =~= start + files_material(fv.take(i + 1)));
        i = i + 1;
    }
    assert(fv.take(i as int) =~= fv);
}

fn decimal_text(n: u32) -> (r: String)
    ensures
        r@ == decimal(n as nat),
{
    let cs = decimal_chars(n as usize);
    string_of(cs.as_slice())
}

/// The identity of a scope (see [`scope_fingerprint`]); `selection` is the
/// file-selection configuration, the skipped directory names joined by the
/// unit separator.
pub fn scope_fingerprint_exec(node: &ScopeNode, root: &str, selection: &str) -> (r: String)
    ensures
        r@ == scope_fingerprint(node.scope_view(), root@, selection@),
    decreases node, 1nat,
{
    let mut bytes: Vec<u8> = Vec::new();
    push_framed_text(&mut bytes, SCOPE_FINGERPRINT_SCHEME);
    push_framed_text(&mut bytes, CACHE_NAMESPACE);
    let schema = decimal_text(CACHE_SCHEMA_VERSION);
    push_framed_text(&mut bytes, schema.as_str());
    let aggregate = decimal_text(AGGREGATE_SCHEMA_VERSION);
    push_framed_text(&mut bytes, aggregate.as_str());
    push_framed_text(&mut bytes, root);
    let material = scope_material_exec(node, root, selection);
    push_framed(&mut bytes, material.as_slice());
    let digest = sha256_digest(bytes.as_slice());
    let hex = hex_encode(digest.as_slice());
    assert(bytes@ =~= framed(utf8(SCOPE_FINGERPRINT_SCHEME@)) + framed(utf8(CACHE_NAMESPACE@)) + framed(
        utf8(decimal(CACHE_SCHEMA_VERSION as nat)),
    ) + framed(utf8(decimal(AGGREGATE_SCHEMA_VERSION as nat))) + framed(utf8(root@)) + framed(
        scope_material(node.scope_view(), root@, selection@),
    ));
    string_of(hex.as_slice())
}

/// The material of a scope (see [`scope_material`]).
pub fn scope_material_exec(node: &ScopeNode, root: &str, selection: &str) -> (r: Vec<u8>)
    ensures
        r@ == scope_material(node.scope_view(), root@, selection@),
    decreases node, 0nat,
{
    let mut out: Vec<u8> = Vec::new();
    push_framed_text(&mut out, node.relative.as_str());
    push_framed_text(&mut out, selection);
    files_material_exec(&mut out, &node.files);
    let ghost head = out@;
    let ghost cv = children_view(node.children@);
    proof {
        lemma_children_view(node.children@);
        assert(cv.take(0) =~= Seq::<(Seq<char>, ScopeView)>::empty());
    }
    let mut i: usize = 0;
    assert(out@ =~= head + children_material(cv.take(0), root@, selection@));
    while i < node.children.len()
        invariant
            i <= node.children@.len(),
            cv == children_view(node.children@),
            cv.len() == node.children@.len(),
            forall|k: int|
                0 <= k < node.children@.len() ==> #[trigger] cv[k] == (
                    node.children@[k].name@,
                    node.children@[k].node.scope_view(),
                ),
            out@ == head + children_material(cv.take(i as int), root@, selection@),
        decreases node.children.len() - i,
    {
        let child = &node.children[i];
        assert(cv.take(i + 1).drop_last() =~= cv.take(i as int));
        assert(cv.take(i + 1).last() == cv[i as int]);
        proof {
            assert(decreases_to!(*node => node.children));
            assert(decreases_to!(node.children => node.children@));
            assert(decreases_to!(node.children@ => node.children@[i as int]));
            assert(decreases_to!(node.children@[i as int] => node.children@[i as int].node));
        }
        let id = scope_fingerprint_exec(&child.node, root, selection);
        push_framed_text(&mut out, child.name.as_str());
        push_framed_text(&mut out, id.as_str());
        assert(out@ =~= head + children_material(cv.take(i + 1), root@, selection@));
        i = i + 1;
    }
    assert(cv.take(i as int) =~= cv);
    out
}

/// The names joined by the unit separator.
pub open spec fn unit_joined(names: Seq<Seq<char>>) -> Seq<char>
    decreases names.len(),
{
    if names.len() == 0 {
        Seq::empty()
    } else if names.len() == 1 {
        names[0]
    } else {
        unit_joined(names.drop_last()) + seq!['\u{1f}'] + names.last()
    }
}

/// The file-selection configuration a scope identity binds: the skipped
/// directory names joined by the unit separator.
pub fn selection_text(skipped_dirs: &Vec<String>) -> (r: String)
    ensures
        r@ == unit_joined(strings_view(skipped_dirs@)),
{
    let ghost sv = strings_view(skipped_dirs@);
    let mut out: Vec<char> = Vec::new();
    let mut i: usize = 0;
    assert(sv.take(0) =~= Seq::<Seq<char>>::empty());
    while i < skipped_dirs.len()
        invariant
            i <= sv.len(),
            sv == strings_view(skipped_dirs@),
            out@ == unit_joined(sv.take(i as int)),
        decreases skipped_dirs.len() - i,
    {
        assert(sv.take(i + 1).drop_last() =~= sv.take(i as int));
        assert(sv.take(i + 1).last() == skipped_dirs@[i as int]@);
        if i > 0 {
            out.push('\u{1f}');
        } else {
            assert(sv.take(i + 1)[0] == skipped_dirs@[0]@);
        }
        crate::text::extend_str(&mut out, skipped_dirs[i].as_str());
        i = i + 1;
        if i == 1 {
            assert(out@ =~= unit_joined(sv.take(i as int)));
        }
    }
    assert(sv.take(i as int) =~= sv);
    string_of(out.as_slice())
}

/// Whether the cached clean baseline can stand in for a full scan: every row
/// without a content identity is a changed path, and every changed path is a
/// row.
pub open spec fn overlay_exact(rows: Seq<InputView>, changed: Seq<Seq<char>>) -> bool {
    &&& forall|k: int| 0 <= k < rows.len() ==> (#[trigger] rows[k]).content_id is Some || lists_path(changed, rows[k].path)
    &&& forall|k: int|
        0 <= k < changed.len() ==> lists_path(rows.map_values(|r: InputView| r.path), #[trigger] changed[k])
}

fn lists_path_in(v: &Vec<String>, p: &str) -> (r: bool)
    ensures
        r == lists_path(strings_view(v@), p@),
{
    let mut i: usize = 0;
    while i < v.len()
        invariant
            i <= v@.len(),
            forall|k: int| 0 <= k < i ==> !crate::rust_facts::same_path(#[trigger] strings_view(v@)[k], p@),
        decreases v.len() - i,
    {
        assert(strings_view(v@)[i as int] == v@[i as int]@);
        if same_path_exec(v[i].as_str(), p) {
            return true;
        }
        i = i + 1;
    }
    false
}

pub fn overlay_applies(rows: &Vec<RustInput>, changed: &Vec<String>) -> (r: bool)
    ensures
        r == overlay_exact(inputs_view(rows@), strings_view(changed@)),
{
    let ghost rv = inputs_view(rows@);
    let ghost cv = strings_view(changed@);
    let mut i: usize = 0;
    while i < rows.len()
        invariant
            i <= rows@.len(),
            rv == inputs_view(rows@),
            cv == strings_view(changed@),
            forall|k: int| 0 <= k < i ==> (#[trigger] rv[k]).content_id is Some || lists_path(cv, rv[k].path),
        decreases rows.len() - i,
    {
        assert(rv[i as int].path == rows@[i as int].path@);
        assert(rv[i as int].content_id == crate::rust_facts::ident_view(rows@[i as int].content_id));
        if rows[i].content_id.is_none() && !lists_path_in(changed, rows[i].path.as_str()) {
            assert(!(rv[i as int].content_id is Some || lists_path(cv, rv[i as int].path)));
            return false;
        }
        i = i + 1;
    }
    let mut paths: Vec<String> = Vec::new();
    let mut j: usize = 0;
    while j < rows.len()
        invariant
            j <= rows@.len(),
            rv == inputs_view(rows@),
            rv.len() == rows@.len(),
            cv == strings_view(changed@),
            forall|q: int| 0 <= q < rv.len() ==> (#[trigger] rv[q]).content_id is Some || lists_path(cv, rv[q].path),
            strings_view(paths@) == rv.take(j as int).map_values(|r: InputView| r.path),
        decreases rows.len() - j,
    {
        let ghost before = strings_view(paths@);
        let ghost pv = rows@[j as int].path@;
        assert(rv[j as int].path == pv);
        paths.push(owned(rows[j].path.as_str()));
        proof {
            let m = rv.take(j + 1).map_values(|r: InputView| r.path);
            assert(before.len() == j);
            assert(strings_view(paths@).len() == m.len());
            assert forall|q: int| 0 <= q < m.len() implies strings_view(paths@)[q] == m[q] by {
                if q < j {
                    assert(strings_view(paths@)[q] == before[q]);
                } else {
                    assert(strings_view(paths@)[q] == pv);
                }
            }
            assert(strings_view(paths@) =~= m);
        }
        j = j + 1;
    }
    assert(rv.take(j as int) =~= rv);
    let mut k: usize = 0;
    while k < changed.len()
        invariant
            k <= changed@.len(),
            cv == strings_view(changed@),
            rv == inputs_view(rows@),
            forall|q: int| 0 <= q < rv.len() ==> (#[trigger] rv[q]).content_id is Some || lists_path(cv, rv[q].path),
            strings_view(paths@) == rv.map_values(|r: InputView| r.path),
            forall|q: int| 0 <= q < k ==> lists_path(rv.map_values(|r: InputView| r.path), #[trigger] cv[q]),
        decreases changed.len() - k,
    {
        assert(cv[k as int] == changed@[k as int]@);
        if !lists_path_in(&paths, changed[k].as_str()) {
            assert(!lists_path(rv.map_values(|r: InputView| r.path), cv[k as int]));
            return false;
        }
        k = k + 1;
    }
    true
}

/// Where a file of a scope lives: under the root, inside the scope's
/// directory unless that is the root itself.
pub open spec fn scope_file_path(root: Seq<char>, relative: Seq<char>, name: Seq<char>) -> Seq<char> {
    if relative.len() == 0 {
        joined(root, name)
    } else {
        joined(joined(root, relative), name)
    }
}

pub fn node_file_path(root: &str, relative: &str, name: &str) -> (r: String)
    ensures
        r@ == scope_file_path(root@, relative@, name@),
{
    let rc = chars_of(relative);
    if rc.len() == 0 {
        join_path(root, name)
    } else {
        let dir = join_path(root, relative);
        join_path(dir.as_str(), name)
    }
}

/// Keys in strictly increasing name order.
pub open spec fn keys_ordered<V>(entries: Seq<(Seq<char>, V)>) -> bool {
    forall|a: int, b: int| 0 <= a < b < entries.len() ==> seq_less(#[trigger] entries[a].0, #[trigger] entries[b].0)
}

/// Every scope of the tree keeps its files and its subdirectories in
/// strictly increasing name order.
pub open spec fn scope_ordered(v: ScopeView) -> bool
    decreases v,
{
    &&& keys_ordered(v.files)
    &&& keys_ordered(v.children)
    &&& forall|i: int| 0 <= i < v.children.len() ==> scope_ordered(#[trigger] v.children[i].1)
}

proof fn lemma_assoc_set_ordered<V>(entries: Seq<(Seq<char>, V)>, key: Seq<char>, value: V)
    requires
        keys_ordered(entries),
    ensures
        keys_ordered(assoc_set(entries, key, value)),
{
    lemma_key_position_bounds(entries, key);
    let p = key_position(entries, key);
    let r = assoc_set(entries, key, value);
    if p < entries.len() && entries[p].0 == key {
        assert forall|a: int, b: int| 0 <= a < b < r.len() implies seq_less(#[trigger] r[a].0, #[trigger] r[b].0) by {
            assert(r[a].0 == entries[a].0 && r[b].0 == entries[b].0);
        }
    } else {
        assert forall|a: int, b: int| 0 <= a < b < r.len() implies seq_less(#[trigger] r[a].0, #[trigger] r[b].0) by {
            if b < p {
                assert(r[a] == entries[a] && r[b] == entries[b]);
            } else if b == p {
                assert(r[a] == entries[a]);
            } else if a == p {
                assert(r[b] == entries[b - 1]);
                crate::text::lemma_seq_less_total(entries[p].0, key);
                if b - 1 > p {
                    crate::text::lemma_seq_less_transitive(key, entries[p].0, entries[b - 1].0);
                }
            } else if a < p {
                assert(r[a] == entries[a] && r[b] == entries[b - 1]);
            } else {
                assert(r[a] == entries[a - 1] && r[b] == entries[b - 1]);
            }
        }
    }
}

proof fn lemma_assoc_set_entries<V>(entries: Seq<(Seq<char>, V)>, key: Seq<char>, value: V)
    ensures
        forall|i: int|
            0 <= i < assoc_set(entries, key, value).len() ==> #[trigger] assoc_set(entries, key, value)[i]
                == (key, value) || exists|j: int| 0 <= j < entries.len() && entries[j] == assoc_set(entries, key, value)[i],
{
    lemma_key_position_bounds(entries, key);
    let p = key_position(entries, key);
    let r = assoc_set(entries, key, value);
    assert forall|i: int| 0 <= i < r.len() implies #[trigger] r[i] == (key, value) || exists|j: int|
        0 <= j < entries.len() && entries[j] == r[i] by {
        if p < entries.len() && entries[p].0 == key {
            if i != p {
                assert(entries[i] == r[i]);
            }
        } else {
            if i < p {
                assert(entries[i] == r[i]);
            } else if i > p {
                assert(entries[i - 1] == r[i]);
            }
        }
    }
}

/// Recording a file keeps every scope in name order.
pub proof fn lemma_insert_keeps_order(v: ScopeView, dirs: Seq<Seq<char>>, name: Seq<char>, id: Seq<char>)
    requires
        scope_ordered(v),
    ensures
        scope_ordered(insert_at(v, dirs, name, id)),
    decreases dirs.len(),
{
    if dirs.len() == 0 {
        lemma_assoc_set_ordered(v.files, name, id);
    } else {
        let c = dirs[0];
        let p = key_position(v.children, c);
        lemma_key_position_bounds(v.children, c);
        let base = if p < v.children.len() && v.children[p].0 == c {
            v.children[p].1
        } else {
            empty_scope(joined(v.relative, c))
        };
        if !(p < v.children.len() && v.children[p].0 == c) {
            assert(scope_ordered(base));
        }
        lemma_insert_keeps_order(base, dirs.drop_first(), name, id);
        let nc = insert_at(base, dirs.drop_first(), name, id);
        lemma_assoc_set_ordered(v.children, c, nc);
        lemma_assoc_set_entries(v.children, c, nc);
        let r = assoc_set(v.children, c, nc);
        assert forall|i: int| 0 <= i < r.len() implies scope_ordered(#[trigger] r[i].1) by {
            if r[i] != (c, nc) {
                let j = choose|j: int| 0 <= j < v.children.len() && v.children[j] == r[i];
                assert(scope_ordered(v.children[j].1));
            }
        }
    }
}

/// The clean scope tree keeps every scope in name order.
pub proof fn lemma_clean_tree_ordered(root: Seq<char>, rows: Seq<InputView>)
    ensures
        scope_ordered(clean_tree(root, rows)),
    decreases rows.len(),
{
    if rows.len() == 0 {
        assert(scope_ordered(empty_scope(Seq::empty())));
    } else {
        lemma_clean_tree_ordered(root, rows.drop_last());
        let r = rows.last();
        match (r.content_id, row_place(root, r.path)) {
            (Some(id), Some((dirs, name))) => {
                lemma_insert_keeps_order(clean_tree(root, rows.drop_last()), dirs, name, id);
            },
            _ => {},
        }
    }
}

/// The value recorded for `key`.
pub open spec fn assoc_get<V>(entries: Seq<(Seq<char>, V)>, key: Seq<char>) -> Option<V>
    decreases entries.len(),
{
    if entries.len() == 0 {
        None
    } else if entries[0].0 == key {
        Some(entries[0].1)
    } else {
        assoc_get(entries.drop_first(), key)
    }
}

/// The content identity the tree records for the file `name` under `dirs`.
pub open spec fn tree_file(v: ScopeView, dirs: Seq<Seq<char>>, name: Seq<char>) -> Option<Seq<char>>
    decreases dirs.len(),
{
    if dirs.len() == 0 {
        assoc_get(v.files, name)
    } else {
        match assoc_get(v.children, dirs[0]) {
            Some(c) => tree_file(c, dirs.drop_first(), name),
            None => None,
        }
    }
}

/// The content identity of the last clean row at the place `(dirs, name)`
/// under the root.
pub open spec fn rows_file(root: Seq<char>, rows: Seq<InputView>, dirs: Seq<Seq<char>>, name: Seq<char>) -> Option<
    Seq<char>,
>
    decreases rows.len(),
{
    if rows.len() == 0 {
        None
    } else {
        let r = rows.last();
        match (r.content_id, row_place(root, r.path)) {
            (Some(id), Some(place)) => if place == (dirs, name) {
                Some(id)
            } else {
                rows_file(root, rows.drop_last(), dirs, name)
            },
            _ => rows_file(root, rows.drop_last(), dirs, name),
        }
    }
}

proof fn lemma_assoc_get_index<V>(entries: Seq<(Seq<char>, V)>, key: Seq<char>, i: int)
    requires
        keys_ordered(entries),
        0 <= i < entries.len(),
        entries[i].0 == key,
    ensures
        assoc_get(entries, key) == Some(entries[i].1),
    decreases entries.len(),
{
    if i > 0 {
        if entries[0].0 == key {
            crate::text::lemma_seq_less_irreflexive(key);
            assert(seq_less(entries[0].0, entries[i].0));
        }
        let rest = entries.drop_first();
        assert forall|a: int, b: int| 0 <= a < b < rest.len() implies seq_less(#[trigger] rest[a].0, #[trigger] rest[b].0) by {
            assert(rest[a] == entries[a + 1] && rest[b] == entries[b + 1]);
        }
        assert(rest[i - 1] == entries[i]);
        lemma_assoc_get_index(rest, key, i - 1);
    }
}

proof fn lemma_assoc_get_absent<V>(entries: Seq<(Seq<char>, V)>, key: Seq<char>)
    requires
        forall|j: int| 0 <= j < entries.len() ==> (#[trigger] entries[j]).0 != key,
    ensures
        assoc_get(entries, key) is None,
    decreases entries.len(),
{
    if entries.len() > 0 {
        let rest = entries.drop_first();
        assert forall|j: int| 0 <= j < rest.len() implies (#[trigger] rest[j]).0 != key by {
            assert(rest[j] == entries[j + 1]);
        }
        lemma_assoc_get_absent(rest, key);
    }
}

proof fn lemma_assoc_get_set<V>(entries: Seq<(Seq<char>, V)>, key: Seq<char>, value: V, other: Seq<char>)
    requires
        keys_ordered(entries),
    ensures
        assoc_get(assoc_set(entries, key, value), other) == if other == key {
            Some(value)
        } else {
            assoc_get(entries, other)
        },
{
    lemma_key_position_bounds(entries, key);
    lemma_assoc_set_ordered(entries, key, value);
    let p = key_position(entries, key);
    let r = assoc_set(entries, key, value);
    if other == key {
        assert(r[p] == (key, value));
        lemma_assoc_get_index(r, key, p);
    } else if exists|j: int| 0 <= j < entries.len() && entries[j].0 == other {
        let j = choose|j: int| 0 <= j < entries.len() && entries[j].0 == other;
        lemma_assoc_get_index(entries, other, j);
        if p < entries.len() && entries[p].0 == key {
            assert(r[j] == entries[j]);
            lemma_assoc_get_index(r, other, j);
        } else if j < p {
            assert(r[j] == entries[j]);
            lemma_assoc_get_index(r, other, j);
        } else {
            assert(r[j + 1] == entries[j]);
            lemma_assoc_get_index(r, other, j + 1);
        }
    } else {
        lemma_assoc_get_absent(entries, other);
        assert forall|j: int| 0 <= j < r.len() implies (#[trigger] r[j]).0 != other by {
            if p < entries.len() && entries[p].0 == key {
                if j != p {
                    assert(r[j] == entries[j]);
                }
            } else if j < p {
                assert(r[j] == entries[j]);
            } else if j > p {
                assert(r[j] == entries[j - 1]);
            }
        }
        lemma_assoc_get_absent(r, other);
    }
}

proof fn lemma_empty_scope_files(rel: Seq<char>, dirs: Seq<Seq<char>>, name: Seq<char>)
    ensures
        tree_file(empty_scope(rel), dirs, name) is None,
{
}

/// Recording a file sets that one place and leaves every other place as it
/// was.
pub proof fn lemma_insert_lookup(
    v: ScopeView,
    dirs: Seq<Seq<char>>,
    name: Seq<char>,
    id: Seq<char>,
    qdirs: Seq<Seq<char>>,
    qname: Seq<char>,
)
    requires
        scope_ordered(v),
    ensures
        tree_file(insert_at(v, dirs, name, id), qdirs, qname) == if qdirs == dirs && qname == name {
            Some(id)
        } else {
            tree_file(v, qdirs, qname)
        },
    decreases dirs.len(),
{
    let r = insert_at(v, dirs, name, id);
    if dirs.len() == 0 {
        if qdirs.len() == 0 {
            lemma_assoc_get_set(v.files, name, id, qname);
            if qname == name {
                assert(qdirs =~= dirs);
            }
        } else {
            assert(qdirs != dirs);
        }
    } else {
        let c = dirs[0];
        let p = key_position(v.children, c);
        lemma_key_position_bounds(v.children, c);
        let existing = p < v.children.len() && v.children[p].0 == c;
        let base = if existing {
            v.children[p].1
        } else {
            empty_scope(joined(v.relative, c))
        };
        let nc = insert_at(base, dirs.drop_first(), name, id);
        if existing {
            lemma_assoc_get_index(v.children, c, p);
        } else {
            assert forall|j: int| 0 <= j < v.children.len() implies (#[trigger] v.children[j]).0 != c by {
                if j < p {
                    crate::text::lemma_seq_less_irreflexive(c);
                } else if j > p {
                    assert(seq_less(v.children[p].0, v.children[j].0));
                    crate::text::lemma_seq_less_total(v.children[p].0, c);
                    if v.children[j].0 == c {
                        crate::text::lemma_seq_less_total(v.children[p].0, c);
                    }
                }
            }
            lemma_assoc_get_absent(v.children, c);
        }
        if qdirs.len() == 0 {
            assert(qdirs != dirs);
        } else {
            lemma_assoc_get_set(v.children, c, nc, qdirs[0]);
            if qdirs[0] == c {
                if existing {
                    assert(scope_ordered(v.children[p].1));
                }
                lemma_insert_lookup(base, dirs.drop_first(), name, id, qdirs.drop_first(), qname);
                if !existing {
                    lemma_empty_scope_files(joined(v.relative, c), qdirs.drop_first(), qname);
                }
                if qdirs.drop_first() == dirs.drop_first() {
                    assert(qdirs =~= seq![c] + qdirs.drop_first());
                    assert(dirs =~= seq![c] + dirs.drop_first());
                } else {
                    assert(qdirs != dirs) by {
                        if qdirs == dirs {
                            assert(qdirs.drop_first() == dirs.drop_first());
                        }
                    }
                }
            } else {
                assert(qdirs != dirs);
            }
        }
    }
}

/// The tree records, at every place, the content identity of the last clean
/// row there under the root, and nothing where no clean row lies.
pub proof fn lemma_clean_tree_lookup(root: Seq<char>, rows: Seq<InputView>, dirs: Seq<Seq<char>>, name: Seq<char>)
    ensures
        tree_file(clean_tree(root, rows), dirs, name) == rows_file(root, rows, dirs, name),
    decreases rows.len(),
{
    if rows.len() == 0 {
        lemma_empty_scope_files(Seq::empty(), dirs, name);
    } else {
        lemma_clean_tree_lookup(root, rows.drop_last(), dirs, name);
        lemma_clean_tree_ordered(root, rows.drop_last());
        let r = rows.last();
        match (r.content_id, row_place(root, r.path)) {
            (Some(id), Some((d, n))) => {
                lemma_insert_lookup(clean_tree(root, rows.drop_last()), d, n, id, dirs, name);
            },
            _ => {},
        }
    }
}

} // verus!
