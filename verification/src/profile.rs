//! Where the data of a profile is kept.
use vstd::prelude::*;
use crate::keys;
#[allow(unused_imports)]
use crate::keys::safe_of;
use crate::text;

verus! {

/// A file in the data folder of a profile.
pub open spec fn data_path(folder: Seq<char>, name: Seq<char>) -> Seq<char> {
    folder + "/"@ + name
}

pub fn profile_data_path(folder: &str, name: &str) -> (r: String)
    ensures
        r@ == data_path(folder@, name@),
{
    text::cat3(folder, "/", name)
}

/// The name of a profile as a part of file names.
pub fn profile_key(profile: &str) -> (r: String)
    ensures
        r@ == safe_of(profile@),
{
    keys::safe_name(profile)
}

/// The name of a file that held a profile's data before there were data folders.
pub fn legacy_name(prefix: &str, profile: &str, suffix: &str) -> (r: String)
    ensures
        r@ == prefix@ + safe_of(profile@) + suffix@,
{
    let safe = keys::safe_name(profile);
    text::cat3(prefix, safe.as_str(), suffix)
}

} // verus!
