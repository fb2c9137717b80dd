use vstd::prelude::*;

use crate::text::chars_of;

verus! {

/// A launch argument that is an option rather than a path: it starts with a dash.
pub open spec fn is_option(arg: Seq<char>) -> bool {
    arg.len() > 0 && arg[0] == '-'
}

/// Whether `arg` is an option rather than a path.
pub fn option_argument(arg: &str) -> (r: bool)
    ensures
        r == is_option(arg@),
{
    let cs = chars_of(arg);
    cs.len() > 0 && cs[0] == '-'
}

/// Which launch argument names the file to open at startup: the first one after the
/// program name that is no option and that could be read (`readable`), if any.
pub fn startup_file_index(args: &Vec<String>, readable: &Vec<bool>) -> (r: Option<usize>)
    requires
        readable.len() == args.len(),
    ensures
        r is Some <==> exists|i: int| 1 <= i < args.len() && !is_option(args[i]@) && readable[i],
        r is Some ==> {
            let i = r->Some_0 as int;
            &&& 1 <= i < args.len()
            &&& !is_option(args[i]@)
            &&& readable[i]
            &&& forall|j: int| 1 <= j < i ==> is_option(args[j]@) || !readable[j]
        },
{
    let mut i: usize = 1;
    while i < args.len()
        invariant
            1 <= i,
            readable.len() == args.len(),
            forall|j: int| 1 <= j < i && j < args.len() ==> is_option(args[j]@) || !readable[j],
        decreases args.len() - i,
    {
        if !option_argument(args[i].as_str()) && readable[i] {
            return Some(i);
        }
        i = i + 1;
    }
    None
}

} // verus!
