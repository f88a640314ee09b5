use vstd::prelude::*;
use linked_hash_set::LinkedHashSet;
use crate::module::views;

verus! {

/// A set of paths that remembers the order in which they went in.
#[verifier::external_type_specification]
#[verifier::external_body]
#[verifier::reject_recursive_types(T)]
#[verifier::reject_recursive_types(S)]
pub struct ExLinkedHashSet<T, S>(LinkedHashSet<T, S>);

/// The paths that a set holds, oldest first.
pub uninterp spec fn set_items(s: LinkedHashSet<String>) -> Seq<Seq<char>>;

/// No path appears twice.
pub open spec fn distinct(s: Seq<Seq<char>>) -> bool {
    forall|i: int, j: int| 0 <= i < j < s.len() ==> s[i] != s[j]
}

/// Relies on `LinkedHashSet::new`: a new set is empty.
#[verifier::external_body]
pub(crate) fn new_path_set() -> (r: LinkedHashSet<String>)
    ensures
        set_items(r) == Seq::<Seq<char>>::empty(),
{
    LinkedHashSet::new()
}

/// Relies on `LinkedHashSet::insert`: the set then holds what it held and
/// `v`, each once, with `v` moved to the end when it was already there.
#[verifier::external_body]
pub(crate) fn path_set_insert(s: &mut LinkedHashSet<String>, v: String)
    ensures
        forall|x: Seq<char>|
            #[trigger] set_items(*final(s)).contains(x) <==> (set_items(*old(s)).contains(x) || x
                == v@),
        distinct(set_items(*old(s))) ==> distinct(set_items(*final(s))),
        set_items(*final(s)).len() > 0,
        set_items(*final(s)).last() == v@,
{
    s.insert(v);
}

/// Relies on `LinkedHashSet::iter`: the paths in the order of the set.
#[verifier::external_body]
pub(crate) fn path_set_to_vec(s: &LinkedHashSet<String>) -> (r: Vec<String>)
    ensures
        views(r@) == set_items(*s),
{
    s.iter().cloned().collect()
}

} // verus!
