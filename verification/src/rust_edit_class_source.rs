//! The subject of a Rust edit-class observation: one Rust source path at one
//! commit of one repository, its reference text, and the checks that admit
//! it before any Git work is done for it.
use vstd::prelude::*;

use crate::cmux_review::{all_lower_hex, all_lower_hex_exec};
use crate::rust_facts::{components_of, has_rust_extension, path_components, rust_source_name};
use crate::text::{byte_len, byte_len_at_most, chars_eq, chars_of, contains_char, extend_str, string_of, trim, trimmed};

verus! {

pub const RUST_EDIT_CLASS_DISCRIMINATOR_ID: &'static str = "edit_class";

pub const RUST_EDIT_CLASS_PROBE_KIND: &'static str = "rust_edit_class";

pub const MAX_REPOSITORY_BYTES: usize = 256;

pub const MAX_PATH_BYTES: usize = 2048;

pub const SHA_BYTES: usize = 40;

pub const MAX_SUBJECT_REF_BYTES: usize = 480;

/// One Rust source path at one commit of one repository.
#[derive(Debug, Clone, Eq, PartialEq)]
pub struct RustEditClassSubject {
    pub repository: String,
    pub revision: String,
    pub path: String,
}

/// A refusal, with its text.
#[derive(Debug, Clone, Eq, PartialEq)]
pub struct RustEditClassSourceError {
    message: String,
}

impl RustEditClassSourceError {
    pub closed spec fn spec_message(&self) -> Seq<char> {
        self.message@
    }

    fn new(message: Vec<char>) -> (e: RustEditClassSourceError)
        ensures
            e.spec_message() == message@,
    {
        RustEditClassSourceError { message: string_of(message.as_slice()) }
    }

    /// The refusal's text.
    pub fn to_string(&self) -> (s: String)
        ensures
            s@ == self.spec_message(),
    {
        self.message.clone()
    }
}

/// `repository@revision:path`.
pub open spec fn subject_reference(repository: Seq<char>, revision: Seq<char>, path: Seq<char>) -> Seq<char> {
    repository + "@"@ + revision + ":"@ + path
}

pub fn subject_ref(subject: &RustEditClassSubject) -> (r: String)
    ensures
        r@ == subject_reference(subject.repository@, subject.revision@, subject.path@),
{
    let mut out = chars_of(subject.repository.as_str());
    extend_str(&mut out, "@");
    extend_str(&mut out, subject.revision.as_str());
    extend_str(&mut out, ":");
    extend_str(&mut out, subject.path.as_str());
    string_of(out.as_slice())
}

/// Non-empty, without surrounding whitespace, within `max` UTF-8 bytes and
/// on one line with no NUL.
pub open spec fn canonical_line(v: Seq<char>, max: nat) -> bool {
    &&& v.len() > 0
    &&& trim(v) == v
    &&& byte_len(v) <= max
    &&& !v.contains('\n')
    &&& !v.contains('\r')
    &&& !v.contains('\0')
}

pub open spec fn repository_error(v: Seq<char>, label: Seq<char>) -> Option<Seq<char>> {
    if canonical_line(v, MAX_REPOSITORY_BYTES as nat) {
        None
    } else {
        Some(label + " must be bounded canonical single-line text"@)
    }
}

/// A revision is 40 lowercase hexadecimal digits (all ASCII, so 40 bytes).
pub open spec fn revision_error(v: Seq<char>, label: Seq<char>) -> Option<Seq<char>> {
    if v.len() == SHA_BYTES && all_lower_hex(v) {
        None
    } else {
        Some(label + " must be an exact lowercase 40-hex Git commit"@)
    }
}

/// Every component of the path is a plain name (no root, `.` or `..`).
pub open spec fn normal_components(p: Seq<char>) -> bool {
    forall|i: int|
        0 <= i < path_components(p).len() ==> {
            let c = #[trigger] path_components(p)[i];
            c != "/"@ && c != "."@ && c != ".."@
        }
}

/// Why a subject is refused, checked in order: the repository, the
/// revision, the path's text, the path's shape, and the length of the
/// reference; `None` when it is admitted.
pub open spec fn subject_error(repository: Seq<char>, revision: Seq<char>, path: Seq<char>) -> Option<Seq<char>> {
    if repository_error(repository, "subject repository"@) is Some {
        repository_error(repository, "subject repository"@)
    } else if revision_error(revision, "subject revision"@) is Some {
        revision_error(revision, "subject revision"@)
    } else if !canonical_line(path, MAX_PATH_BYTES as nat) || path.contains('\\') {
        Some("path must be bounded canonical repository-relative text"@)
    } else if path[0] == '/' || !rust_source_name(path) || !normal_components(path) {
        Some("path must be a normalized repository-relative Rust source path"@)
    } else if byte_len(subject_reference(repository, revision, path)) > MAX_SUBJECT_REF_BYTES {
        Some("edit-class subject reference exceeds the admitted boundary"@)
    } else {
        None
    }
}

fn canonical_line_exec(v: &str, max: usize) -> (r: bool)
    ensures
        r == canonical_line(v@, max as nat),
{
    let cs = chars_of(v);
    if cs.len() == 0 {
        return false;
    }
    let t = trimmed(cs.as_slice());
    chars_eq(t.as_slice(), cs.as_slice()) && byte_len_at_most(cs.as_slice(), max)
        && !contains_char(cs.as_slice(), '\n') && !contains_char(cs.as_slice(), '\r')
        && !contains_char(cs.as_slice(), '\0')
}

fn validate_repository(value: &str, label: &str) -> (r: Result<(), RustEditClassSourceError>)
    ensures
        match r {
            Ok(()) => repository_error(value@, label@) is None,
            Err(e) => repository_error(value@, label@) == Some(e.spec_message()),
        },
{
    if !canonical_line_exec(value, MAX_REPOSITORY_BYTES) {
        let mut m = chars_of(label);
        extend_str(&mut m, " must be bounded canonical single-line text");
        return Err(RustEditClassSourceError::new(m));
    }
    Ok(())
}

fn validate_revision(value: &str, label: &str) -> (r: Result<(), RustEditClassSourceError>)
    ensures
        match r {
            Ok(()) => revision_error(value@, label@) is None,
            Err(e) => revision_error(value@, label@) == Some(e.spec_message()),
        },
{
    let cs = chars_of(value);
    if cs.len() != SHA_BYTES || !all_lower_hex_exec(value) {
        let mut m = chars_of(label);
        extend_str(&mut m, " must be an exact lowercase 40-hex Git commit");
        return Err(RustEditClassSourceError::new(m));
    }
    Ok(())
}

fn normal_components_exec(path: &str) -> (r: bool)
    ensures
        r == normal_components(path@),
{
    let comps = components_of(path);
    let ghost pc = path_components(path@);
    proof {
        reveal_strlit("/");
        reveal_strlit(".");
        reveal_strlit("..");
    }
    let root = chars_of("/");
    let cur = chars_of(".");
    let parent = chars_of("..");
    let mut i: usize = 0;
    while i < comps.len()
        invariant
            i <= comps@.len(),
            crate::text::seqs_view(comps@) == pc,
            pc == path_components(path@),
            root@ == "/"@,
            cur@ == "."@,
            parent@ == ".."@,
            forall|j: int|
                0 <= j < i ==> {
                    let c = #[trigger] pc[j];
                    c != "/"@ && c != "."@ && c != ".."@
                },
        decreases comps@.len() - i,
    {
        let c = comps[i].as_slice();
        assert(c@ == pc[i as int]);
        if chars_eq(c, root.as_slice()) || chars_eq(c, cur.as_slice()) || chars_eq(
            c,
            parent.as_slice(),
        ) {
            return false;
        }
        i = i + 1;
    }
    true
}

/// Admits a subject, or says why not.
pub fn validate_subject(subject: &RustEditClassSubject) -> (r: Result<(), RustEditClassSourceError>)
    ensures
        match r {
            Ok(()) => subject_error(subject.repository@, subject.revision@, subject.path@) is None,
            Err(e) => subject_error(subject.repository@, subject.revision@, subject.path@) == Some(
                e.spec_message(),
            ),
        },
{
    match validate_repository(subject.repository.as_str(), "subject repository") {
        Ok(()) => {},
        Err(e) => return Err(e),
    }
    match validate_revision(subject.revision.as_str(), "subject revision") {
        Ok(()) => {},
        Err(e) => return Err(e),
    }
    let path = subject.path.as_str();
    let pcs = chars_of(path);
    if !canonical_line_exec(path, MAX_PATH_BYTES) || contains_char(pcs.as_slice(), '\\') {
        return Err(
            RustEditClassSourceError::new(
                chars_of("path must be bounded canonical repository-relative text"),
            ),
        );
    }
    if pcs[0] == '/' || !has_rust_extension(path) || !normal_components_exec(path) {
        return Err(
            RustEditClassSourceError::new(
                chars_of("path must be a normalized repository-relative Rust source path"),
            ),
        );
    }
    let reference = subject_ref(subject);
    let rcs = chars_of(reference.as_str());
    if !byte_len_at_most(rcs.as_slice(), MAX_SUBJECT_REF_BYTES) {
        return Err(
            RustEditClassSourceError::new(
                chars_of("edit-class subject reference exceeds the admitted boundary"),
            ),
        );
    }
    Ok(())
}

} // verus!
