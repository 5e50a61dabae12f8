//! Small helpers shared by the command layer.

use vstd::prelude::*;

verus! {

/// `None` for an empty vector, the vector itself otherwise. The command
/// layer uses this to tell "no filter requested" from a requested list.
pub fn noneify<T>(v: &Vec<T>) -> (r: Option<&Vec<T>>)
    ensures
        match r {
            None => v@.len() == 0,
            Some(w) => w == v && v@.len() > 0,
        },
{
    if v.is_empty() {
        None
    } else {
        Some(v)
    }
}

/// A tri-state answer as text: the answer where there is one, nothing where
/// there is none.
pub fn display_option(o: &Option<bool>) -> (r: String)
    ensures
        r@ == match o {
            Some(true) => "true"@,
            Some(false) => "false"@,
            None => ""@,
        },
{
    match o {
        Some(true) => "true".to_owned(),
        Some(false) => "false".to_owned(),
        None => "".to_owned(),
    }
}

} // verus!
