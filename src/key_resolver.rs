//! Object key layout of an archive under a prefix.
use vstd::prelude::*;
use vstd::string::*;

verus! {

/// Key of the object holding the content of the archived file `path`.
pub open spec fn data_key_spec(prefix: Seq<char>, path: Seq<char>) -> Seq<char> {
    prefix + "data/"@ + path
}

/// Key of the manifest object of the archive under `prefix`.
pub open spec fn manifest_key_spec(prefix: Seq<char>) -> Seq<char> {
    prefix + "manifest"@
}

/// `prefix + "data/" + path`; the prefix is taken verbatim.
pub fn data_key(s3_prefix: &str, path: &str) -> (r: String)
    ensures
        r@ == data_key_spec(s3_prefix@, path@),
{
    let mut r = s3_prefix.to_owned();
    r.append("data/");
    r.append(path);
    r
}

/// `prefix + "manifest"`; the prefix is taken verbatim.
pub fn manifest_key(s3_prefix: &str) -> (r: String)
    ensures
        r@ == manifest_key_spec(s3_prefix@),
{
    let mut r = s3_prefix.to_owned();
    r.append("manifest");
    r
}

} // verus!
