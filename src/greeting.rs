use vstd::prelude::*;
use vstd::string::StringExecFns;

verus! {

/// The words that open a greeting.
pub open spec fn greeting_head() -> Seq<char> {
    seq!['H', 'e', 'l', 'l', 'o', ',', ' ']
}

/// The greeting for `name`.
pub open spec fn greeting_of(name: Seq<char>) -> Seq<char> {
    greeting_head() + name + "! You've been greeted from Rust!"@
}

/// Greets `name` by name.
pub fn greet(name: &str) -> (r: String)
    ensures
        r@ == greeting_of(name@),
{
    let mut r = String::from_str("Hello, ");
    proof { reveal_strlit("Hello, "); }
    assert(r@ =~= greeting_head());
    r.append(name);
    r.append("! You've been greeted from Rust!");
    r
}

} // verus!
