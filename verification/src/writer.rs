//! The manifest writer's computable core: the deterministic lock-file
//! name and path for a trigger type, and the file URL under which a
//! written manifest is handed to a child process. Serialization and the
//! file write itself are effectful and live outside the library.

use vstd::prelude::*;

verus! {

/// The lock-file name of a trigger type: `manifest.<type>.lock`.
pub open spec fn lock_file_name_spec(tt: Seq<char>) -> Seq<char> {
    "manifest."@ + tt + ".lock"@
}

pub fn lock_file_name(trigger_type: &str) -> (r: String)
    ensures
        r@ == lock_file_name_spec(trigger_type@),
{
    String::from_str("manifest.").concat(trigger_type).concat(".lock")
}

/// The manifest path of a trigger type under a working directory:
/// `<working_dir>/manifest.<type>.lock`.
pub open spec fn manifest_path_spec(wd: Seq<char>, tt: Seq<char>) -> Seq<char> {
    wd + "/"@ + lock_file_name_spec(tt)
}

pub fn manifest_path(working_dir: &str, trigger_type: &str) -> (r: String)
    ensures
        r@ == manifest_path_spec(working_dir@, trigger_type@),
{
    let name = lock_file_name(trigger_type);
    String::from_str(working_dir).concat("/").concat(name.as_str())
}

/// The `file:` URL of an absolute path, as the `url` crate renders it.
pub uninterp spec fn file_url_of(path: Seq<char>) -> Seq<char>;

/// Whether the `url` crate accepts a path as the base of a `file:` URL;
/// on this platform, exactly the absolute paths.
pub uninterp spec fn file_url_ok(path: Seq<char>) -> bool;

/// Relies on url::Url::from_file_path and url::Url::as_str: whether the
/// conversion succeeds, and the rendered `file:` URL when it does, depend
/// on the path alone; the conversion fails exactly on paths the platform
/// refuses (ones that are not absolute).
#[verifier::external_body]
fn path_file_url(path: &str) -> (r: Option<String>)
    ensures
        (r is Some) == file_url_ok(path@),
        (r matches Some(u) ==> u@ == file_url_of(path@)),
{
    match url::Url::from_file_path(path) {
        Ok(u) => Some(String::from(u.as_str())),
        Err(_) => None,
    }
}

/// The reference handed to a child process so it can locate its scoped
/// manifest: the `file:` URL of the manifest path. `None` exactly when
/// the URL library refuses the path (for instance a relative working
/// directory).
pub fn manifest_url(working_dir: &str, trigger_type: &str) -> (r: Option<String>)
    ensures
        (r is Some) == file_url_ok(manifest_path_spec(working_dir@, trigger_type@)),
        (r matches Some(u) ==> u@ == file_url_of(
            manifest_path_spec(working_dir@, trigger_type@),
        )),
{
    let p = manifest_path(working_dir, trigger_type);
    path_file_url(p.as_str())
}

} // verus!
