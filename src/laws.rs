use vstd::prelude::*;
use crate::namespace::{ItemId, Namespace, NodeId, PathSpec, ResolutionError, Target, Visibility};

verus! {

/// The modules met when walking the absolute path of `n`, root excluded.
spec fn chain(ns: Namespace, n: int) -> Seq<Target>
    decreases n,
{
    if 0 < n < ns.nodes.len() && 0 <= ns.parent(n) < n {
        chain(ns, ns.parent(n)).push(Target::Node(NodeId { index: n as usize }))
    } else {
        Seq::empty()
    }
}

proof fn lemma_in_subtree_trans(ns: Namespace, a: int, b: int, c: int)
    requires
        ns.in_subtree(a, b),
        ns.in_subtree(b, c),
    ensures
        ns.in_subtree(a, c),
    decreases c,
{
    if c != b {
        lemma_in_subtree_trans(ns, a, b, ns.parent(c));
    }
}

/// Walking the absolute path of `n` passes exactly its chain of modules.
proof fn lemma_trail_of_path(ns: Namespace, n: int)
    requires
        ns.wf(),
        ns.has_node(n),
    ensures
        ns.trail(0, ns.path_to(n)) == Some(chain(ns, n)),
        ns.stop(0, chain(ns, n)) == Some(n),
    decreases n,
{
    if n > 0 {
        let p = ns.parent(n);
        lemma_trail_of_path(ns, p);
        assert(ns.path_to(n).drop_last() =~= ns.path_to(p));
        ns.lemma_entry_child(p, n, ns.nodes[n].name);
    }
}

/// Code in `f` sees every module on the way down to a module above it.
proof fn lemma_chain_open(ns: Namespace, m: int, f: int)
    requires
        ns.wf(),
        ns.has_node(m),
        ns.in_subtree(m, f),
    ensures
        ns.first_blocked(chain(ns, m), f) is None,
    decreases m,
{
    if m > 0 {
        let p = ns.parent(m);
        assert(ns.in_subtree(p, p));
        assert(ns.in_subtree(p, m));
        lemma_in_subtree_trans(ns, p, m, f);
        lemma_chain_open(ns, p, f);
        assert(chain(ns, m).drop_last() =~= chain(ns, p));
    }
}

/// Walking the absolute path of item `i` passes the modules above it, then `i`.
proof fn lemma_trail_of_item_path(ns: Namespace, i: int)
    requires
        ns.wf(),
        ns.has_item(i),
    ensures
        ns.trail(0, ns.path_to(ns.items[i].owner).push(ns.items[i].name)) == Some(
            chain(ns, ns.items[i].owner).push(Target::Item(ItemId { index: i as usize })),
        ),
{
    let a = ns.items[i].owner;
    let segs = ns.path_to(a).push(ns.items[i].name);
    lemma_trail_of_path(ns, a);
    assert(segs.drop_last() =~= ns.path_to(a));
    ns.lemma_entry_item(a, i, ns.items[i].name);
}

/// Every module is reached, from itself, by its own absolute path.
pub proof fn lemma_absolute_path_to_self(ns: Namespace, n: int)
    requires
        ns.wf(),
        ns.has_node(n),
    ensures
        ns.resolve(n, PathSpec::Absolute(ns.path_to(n))) == Ok::<Target, ResolutionError>(
            Target::Node(NodeId { index: n as usize }),
        ),
{
    lemma_trail_of_path(ns, n);
    lemma_chain_open(ns, n, n);
}

/// Code anywhere below module `n` reaches, by its absolute path, every item
/// declared in `n` or in a module above `n`, private items included.
pub proof fn lemma_descendant_sees_ancestor_items(ns: Namespace, n: int, d: int, i: int)
    requires
        ns.wf(),
        ns.has_node(n),
        ns.has_node(d),
        ns.in_subtree(n, d),
        ns.has_item(i),
        ns.in_subtree(ns.items[i].owner, n),
    ensures
        ns.resolve(d, PathSpec::Absolute(ns.path_to(ns.items[i].owner).push(ns.items[i].name)))
            == Ok::<Target, ResolutionError>(Target::Item(ItemId { index: i as usize })),
{
    let a = ns.items[i].owner;
    let e = Target::Item(ItemId { index: i as usize });
    lemma_in_subtree_trans(ns, a, n, d);
    lemma_trail_of_item_path(ns, i);
    lemma_chain_open(ns, a, d);
    assert(chain(ns, a).push(e).drop_last() =~= chain(ns, a));
}

/// The module `k` steps above `d` has `d` in its subtree.
proof fn lemma_ancestor_at_in_subtree(ns: Namespace, d: int, k: nat, a: int)
    requires
        ns.wf(),
        ns.has_node(d),
        ns.ancestor_at(d, k) == Some(a),
    ensures
        ns.in_subtree(a, d),
    decreases k,
{
    if k > 0 {
        let p = ns.parent(d);
        lemma_ancestor_at_in_subtree(ns, p, (k - 1) as nat, a);
        assert(ns.in_subtree(p, p));
        assert(ns.in_subtree(p, d));
        lemma_in_subtree_trans(ns, a, p, d);
    }
}

/// Code in module `d` reaches, by `super` steps up to the module that
/// declares item `i` and then the item's name, every item declared in `d` or
/// in a module above it, private items included.
pub proof fn lemma_descendant_sees_ancestor_items_by_super(ns: Namespace, d: int, k: nat, i: int)
    requires
        ns.wf(),
        ns.has_node(d),
        ns.has_item(i),
        ns.ancestor_at(d, k) == Some(ns.items[i].owner),
    ensures
        ns.resolve(d, PathSpec::SuperRelative(k, seq![ns.items[i].name])) == Ok::<
            Target,
            ResolutionError,
        >(Target::Item(ItemId { index: i as usize })),
{
    let a = ns.items[i].owner;
    let segs = seq![ns.items[i].name];
    let e = Target::Item(ItemId { index: i as usize });
    lemma_ancestor_at_in_subtree(ns, d, k, a);
    assert(segs.drop_last() =~= Seq::<Seq<char>>::empty());
    ns.lemma_entry_item(a, i, ns.items[i].name);
    assert(ns.trail(a, segs.drop_last()) == Some(Seq::<Target>::empty()));
    assert(Seq::<Target>::empty().push(e) =~= seq![e]);
    assert(ns.trail(a, segs) == Some(seq![e]));
    assert(seq![e].drop_last() =~= Seq::<Target>::empty());
    assert(seq![e].last() == e);
    assert(ns.accessible(e, d));
    assert(ns.first_blocked(Seq::<Target>::empty(), d) is None);
    assert(ns.first_blocked(seq![e], d) is None);
}

/// A private item of module `n` is refused, with `PrivateAccess`, to code in
/// any module `m` that does not lie below `n`; in particular to every module
/// that is neither above nor below `n`.
pub proof fn lemma_outsider_refused_private_item(ns: Namespace, n: int, m: int, i: int)
    requires
        ns.wf(),
        ns.has_node(n),
        ns.has_node(m),
        !ns.in_subtree(n, m),
        ns.has_item(i),
        ns.items[i].owner == n,
        ns.items[i].visibility == Visibility::Private,
    ensures
        ns.resolve(m, PathSpec::Absolute(ns.path_to(n).push(ns.items[i].name))) matches Err(
            ResolutionError::PrivateAccess(_),
        ),
{
    let e = Target::Item(ItemId { index: i as usize });
    lemma_trail_of_item_path(ns, i);
    assert(chain(ns, n).push(e).drop_last() =~= chain(ns, n));
}

/// A `super` path of zero steps resolves as the relative path of the same
/// names, from every module.
pub proof fn lemma_super_zero_is_relative(ns: Namespace, n: int, rest: Seq<Seq<char>>)
    requires
        ns.wf(),
        ns.has_node(n),
    ensures
        ns.resolve(n, PathSpec::SuperRelative(0, rest)) == ns.resolve(n, PathSpec::Relative(rest)),
{
}

/// Once a name is declared under module `p`, as a module or an item, a
/// second declaration of it there, as either, fails with `DuplicateName` and
/// leaves the namespace, the first declaration included, as it was.
pub proof fn lemma_second_declaration_fails(
    ns: Namespace,
    p: int,
    name: Seq<char>,
    first: Visibility,
    second: Visibility,
)
    requires
        ns.wf(),
        ns.has_node(p),
    ensures
        ({
            let (after, r) = ns.declare_module(p, name, first);
            &&& after.declare_module(p, name, second) == (after, Err::<NodeId, ResolutionError>(
                ResolutionError::DuplicateName,
            ))
            &&& after.declare_item(p, name, second) == (after, Err::<ItemId, ResolutionError>(
                ResolutionError::DuplicateName,
            ))
            &&& r matches Ok(id) ==> after.is_child_named(p, id.index as int, name)
        }),
        ({
            let (after, r) = ns.declare_item(p, name, first);
            &&& after.declare_module(p, name, second) == (after, Err::<NodeId, ResolutionError>(
                ResolutionError::DuplicateName,
            ))
            &&& after.declare_item(p, name, second) == (after, Err::<ItemId, ResolutionError>(
                ResolutionError::DuplicateName,
            ))
            &&& r matches Ok(id) ==> after.is_item_named(p, id.index as int, name)
        }),
{
    let (after_m, rm) = ns.declare_module(p, name, first);
    if rm is Ok {
        assert(after_m.is_child_named(p, ns.nodes.len() as int, name));
    }
    let (after_i, ri) = ns.declare_item(p, name, first);
    if ri is Ok {
        assert(after_i.is_item_named(p, ns.items.len() as int, name));
    }
}

/// Once a field name is declared for an item, a second declaration of it
/// fails with `DuplicateName` and leaves the namespace as it was.
pub proof fn lemma_second_field_declaration_fails(
    ns: Namespace,
    i: int,
    name: Seq<char>,
    first: Visibility,
    second: Visibility,
)
    requires
        ns.wf(),
        ns.has_item(i),
    ensures
        ({
            let (after, r) = ns.declare_field(i, name, first);
            after.declare_field(i, name, second) == (after, Err::<(), ResolutionError>(
                ResolutionError::DuplicateName,
            ))
        }),
{
    let (after, r) = ns.declare_field(i, name, first);
    if r is Ok {
        assert(after.is_field_named(i, ns.fields.len() as int, name));
    }
}

} // verus!
