use vstd::prelude::*;
use vstd::string::StringExecFns;

verus! {

/// The path of the persisted document inside the configuration directory.
pub fn get_db_path(config_dir: &str) -> (r: String)
    ensures
        r@ == config_dir@ + "/db.json"@,
{
    let mut r = String::from_str(config_dir);
    r.append("/db.json");
    r
}

/// The path of the directory that caches one favicon image per bookmark.
pub fn get_favicons_dir(config_dir: &str) -> (r: String)
    ensures
        r@ == config_dir@ + "/favicons"@,
{
    let mut r = String::from_str(config_dir);
    r.append("/favicons");
    r
}

/// The path of the cached favicon image file called `name` (the decimal
/// rendering of a bookmark identifier).
pub fn get_favicon_path(config_dir: &str, name: &str) -> (r: String)
    ensures
        r@ == config_dir@ + "/favicons/"@ + name@ + ".png"@,
{
    let mut r = String::from_str(config_dir);
    r.append("/favicons/");
    r.append(name);
    r.append(".png");
    r
}

} // verus!
