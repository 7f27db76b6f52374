use vstd::prelude::*;
use vstd::string::StringExecFns;

verus! {

/// The greeting for a visitor of the given name.
pub open spec fn greeting_of(name: Seq<char>) -> Seq<char> {
    "Hello, "@ + name + "! Welcome to Onta Order Center"@
}

/// Greets a visitor by name.
pub fn greet(name: String) -> (r: String)
    ensures
        r@ == greeting_of(name@),
{
    let mut r = "Hello, ".to_owned();
    r.append(name.as_str());
    r.append("! Welcome to Onta Order Center");
    r
}

} // verus!
