//! Paths as bytes: how the names on the way to a file make its path.

use vstd::prelude::*;

verus! {

/// The byte that separates the components of a path.
pub const SEPARATOR: u8 = 47;

/// The path `base` extended by the component `name`: a name that starts
/// with the separator replaces the path, a separator is put between the two
/// where the path does not end in one, and nothing is put after the empty
/// path.
pub open spec fn push_component(base: Seq<u8>, name: Seq<u8>) -> Seq<u8> {
    if name.len() > 0 && name[0] == SEPARATOR {
        name
    } else if base.len() > 0 && base.last() != SEPARATOR {
        base + seq![SEPARATOR] + name
    } else {
        base + name
    }
}

/// The path made of `components`, the outermost first.
pub open spec fn join_path(components: Seq<Seq<u8>>) -> Seq<u8>
    decreases components.len(),
{
    if components.len() == 0 {
        Seq::empty()
    } else {
        push_component(join_path(components.drop_last()), components.last())
    }
}

/// The names of `components`, in their order.
pub open spec fn component_names(components: Seq<Vec<u8>>) -> Seq<Seq<u8>> {
    Seq::new(components.len(), |k: int| components[k]@)
}

/// Extends the path `base` by the component `name`.
pub fn push_path(base: &mut Vec<u8>, name: &[u8])
    ensures
        final(base)@ == push_component(old(base)@, name@),
{
    if name.len() > 0 && name[0] == SEPARATOR {
        base.clear();
    } else if base.len() > 0 && base[base.len() - 1] != SEPARATOR {
        base.push(SEPARATOR);
    }
    let ghost start = base@;
    let mut i: usize = 0;
    while i < name.len()
        invariant
            i <= name.len(),
            base@ == start + name@.subrange(0, i as int),
        decreases name.len() - i,
    {
        base.push(name[i]);
        assert(base@ =~= start + name@.subrange(0, i + 1));
        i += 1;
    }
    assert(name@.subrange(0, name.len() as int) =~= name@);
    assert(Seq::<u8>::empty() + name@ =~= name@);
}

/// The path made of `components`, which are given innermost first, as a
/// resolver names a file.
pub fn path_of_components(components: &Vec<Vec<u8>>) -> (path: Vec<u8>)
    ensures
        path@ == join_path(component_names(components@).reverse()),
{
    let ghost names = component_names(components@).reverse();
    let n = components.len();
    let mut path: Vec<u8> = Vec::new();
    let mut k: usize = 0;
    assert(names.take(0) =~= Seq::<Seq<u8>>::empty());
    while k < n
        invariant
            n == components.len(),
            names == component_names(components@).reverse(),
            k <= n,
            path@ == join_path(names.take(k as int)),
        decreases n - k,
    {
        assert(names[k as int] == components@[n - 1 - k]@);
        assert(names.take(k + 1).drop_last() =~= names.take(k as int));
        assert(names.take(k + 1).last() == names[k as int]);
        push_path(&mut path, components[n - 1 - k].as_slice());
        k += 1;
    }
    assert(names.take(n as int) =~= names);
    path
}

} // verus!
