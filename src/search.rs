//! What is searched for: the characteristic files of the runtime, and the pattern
//! handed to the path search for each of them.
use vstd::prelude::*;

verus! {

/// The characteristic files of the runtime, as path-search regular expressions, in
/// the order in which they are searched.
pub fn runtime_signatures() -> (r: Vec<String>)
    ensures
        r@.len() == 5,
        r@[0]@ == "chrome_100_percent\\.pak"@,
        r@[1]@ == "chrome_crashpad_handler"@,
        r@[2]@ == "chrome-sandbox"@,
        r@[3]@ == "libcef\\.so"@,
        r@[4]@ == "resources\\.pak"@,
{
    let mut r: Vec<String> = Vec::new();
    r.push(String::from_str("chrome_100_percent\\.pak"));
    r.push(String::from_str("chrome_crashpad_handler"));
    r.push(String::from_str("chrome-sandbox"));
    r.push(String::from_str("libcef\\.so"));
    r.push(String::from_str("resources\\.pak"));
    r
}

/// The pattern that matches paths ending in `/` followed by `signature`:
/// `\/`, the signature, then `$`.
pub fn search_pattern(signature: &str) -> (r: String)
    ensures
        r@ == seq!['\\', '/'] + signature@ + seq!['$'],
{
    let mut r = String::from_str("\\/");
    r.append(signature);
    r.append("$");
    proof {
        reveal_strlit("\\/");
        reveal_strlit("$");
        assert(r@ =~= seq!['\\', '/'] + signature@ + seq!['$']);
    }
    r
}

} // verus!
