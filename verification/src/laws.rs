//! The store's ordering laws, stated over the key → value map that the
//! contracts of `set`, `get` and `remove` speak of: `set(k, v)` makes the
//! map `model().insert(k@, v@)`, `remove(k)` makes it `model().remove(k@)`,
//! and `get(k)` answers `model()[k@]`.

use vstd::prelude::*;

verus! {

/// Get-after-set: once `set(k, v)` has taken effect, a lookup of `k`
/// answers `v`; and it still does after any store or removal of a
/// different key — only a later `set(k, _)` or `remove(k)` can change it.
pub proof fn lemma_get_after_set(
    m: Map<Seq<char>, Seq<char>>,
    k: Seq<char>,
    v: Seq<char>,
    k2: Seq<char>,
    v2: Seq<char>,
)
    requires
        k2 != k,
    ensures
        m.insert(k, v).contains_key(k),
        m.insert(k, v)[k] == v,
        m.insert(k, v).insert(k2, v2).contains_key(k),
        m.insert(k, v).insert(k2, v2)[k] == v,
        m.insert(k, v).remove(k2).contains_key(k),
        m.insert(k, v).remove(k2)[k] == v,
{
}

/// Get-after-remove: once `remove(k)` has taken effect, a lookup of `k`
/// answers nothing; and it still does after any store or removal of a
/// different key — only a later `set(k, _)` can bring `k` back.
pub proof fn lemma_get_after_remove(
    m: Map<Seq<char>, Seq<char>>,
    k: Seq<char>,
    k2: Seq<char>,
    v2: Seq<char>,
)
    requires
        k2 != k,
    ensures
        !m.remove(k).contains_key(k),
        !m.remove(k).insert(k2, v2).contains_key(k),
        !m.remove(k).remove(k2).contains_key(k),
        m.remove(k).insert(k, v2).contains_key(k) && m.remove(k).insert(k, v2)[k] == v2,
{
}

} // verus!
