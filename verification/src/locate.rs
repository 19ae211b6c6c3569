//! Which project a lookup picks: by the id a project is configured under, or
//! by the name a found project carries. The first match wins.
use vstd::prelude::*;

verus! {

/// The index of the first of `ids` written exactly `id`, if any: the
/// configured project a lookup by id picks.
pub fn configured_index_by_id(ids: &Vec<String>, id: &str) -> (found: Option<usize>)
    ensures
        match found {
            Some(i) => i < ids@.len() && ids@[i as int]@ == id@ && forall|j: int| 0 <= j < i ==> (#[trigger] ids@[j])@ != id@,
            None => forall|j: int| 0 <= j < ids@.len() ==> (#[trigger] ids@[j])@ != id@,
        },
{
    let wanted = String::from_str(id);
    let n = ids.len();
    let mut i: usize = 0;
    while i < n
        invariant
            n == ids@.len(),
            wanted@ == id@,
            i <= n,
            forall|j: int| 0 <= j < i ==> (#[trigger] ids@[j])@ != id@,
        decreases n - i,
    {
        if ids[i] == wanted {
            return Some(i);
        }
        i = i + 1;
    }
    None
}

/// The index of the first of `names` that is `name`, if any: the found
/// project a lookup by name picks. A project without a name matches none.
pub fn found_index_by_name(names: &Vec<Option<String>>, name: &str) -> (found: Option<usize>)
    ensures
        match found {
            Some(i) => i < names@.len() && (names@[i as int] matches Some(n) && n@ == name@) && forall|j: int|
                0 <= j < i ==> !(#[trigger] names@[j] matches Some(n) && n@ == name@),
            None => forall|j: int| 0 <= j < names@.len() ==> !(#[trigger] names@[j] matches Some(n) && n@ == name@),
        },
{
    let wanted = String::from_str(name);
    let n = names.len();
    let mut i: usize = 0;
    while i < n
        invariant
            n == names@.len(),
            wanted@ == name@,
            i <= n,
            forall|j: int| 0 <= j < i ==> !(#[trigger] names@[j] matches Some(n) && n@ == name@),
        decreases n - i,
    {
        match &names[i] {
            Some(candidate) => {
                if *candidate == wanted {
                    return Some(i);
                }
            },
            None => {},
        }
        i = i + 1;
    }
    None
}

} // verus!
