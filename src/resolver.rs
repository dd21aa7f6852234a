use vstd::prelude::*;
use crate::namespace::{
    names_of, FieldRec, ItemId, ItemRec, Namespace, NodeId, NodeRec, Path, ResolutionError, Target,
    Visibility,
};

verus! {

struct NodeEntry {
    name: String,
    parent: usize,
    visibility: Visibility,
}

struct ItemEntry {
    name: String,
    owner: usize,
    visibility: Visibility,
}

struct FieldEntry {
    item: usize,
    name: String,
    visibility: Visibility,
}

impl NodeEntry {
    spec fn rec(self) -> NodeRec {
        NodeRec { name: self.name@, parent: self.parent as int, visibility: self.visibility }
    }
}

impl ItemEntry {
    spec fn rec(self) -> ItemRec {
        ItemRec { name: self.name@, owner: self.owner as int, visibility: self.visibility }
    }
}

impl FieldEntry {
    spec fn rec(self) -> FieldRec {
        FieldRec { item: self.item as int, name: self.name@, visibility: self.visibility }
    }
}

/// A namespace tree that is built by declarations and then answers which
/// paths resolve, and to what, from a given module.
pub struct Resolver {
    nodes: Vec<NodeEntry>,
    items: Vec<ItemEntry>,
    fields: Vec<FieldEntry>,
}

impl View for Resolver {
    type V = Namespace;

    closed spec fn view(&self) -> Namespace {
        Namespace {
            nodes: self.nodes@.map_values(|e: NodeEntry| e.rec()),
            items: self.items@.map_values(|e: ItemEntry| e.rec()),
            fields: self.fields@.map_values(|e: FieldEntry| e.rec()),
        }
    }
}

impl Resolver {
    /// A namespace that holds the root module alone.
    pub fn new() -> (r: Resolver)
        ensures
            r@.wf(),
            r@.nodes == seq![NodeRec { name: Seq::empty(), parent: 0, visibility: Visibility::Public }],
            r@.items == Seq::<ItemRec>::empty(),
            r@.fields == Seq::<FieldRec>::empty(),
    {
        let root = NodeEntry { name: String::new(), parent: 0, visibility: Visibility::Public };
        let r = Resolver { nodes: vec![root], items: Vec::new(), fields: Vec::new() };
        assert(r@.nodes =~= seq![NodeRec { name: Seq::empty(), parent: 0, visibility: Visibility::Public }]);
        assert(r@.items =~= Seq::<ItemRec>::empty());
        assert(r@.fields =~= Seq::<FieldRec>::empty());
        r
    }

    /// The root module.
    pub fn root(&self) -> (r: NodeId)
        ensures
            r.index == 0,
    {
        NodeId { index: 0 }
    }

    /// The module directly under `p` called `name`, if there is one.
    fn find_child(&self, p: usize, name: &String) -> (r: Option<usize>)
        requires
            self@.wf(),
        ensures
            match r {
                Some(c) => self@.is_child_named(p as int, c as int, name@),
                None => forall|c: int| !self@.is_child_named(p as int, c, name@),
            },
    {
        let mut c: usize = 1;
        while c < self.nodes.len()
            invariant
                1 <= c <= self.nodes.len(),
                self@.nodes.len() == self.nodes.len(),
                forall|d: int| 0 < d < c ==> !self@.is_child_named(p as int, d, name@),
            decreases self.nodes.len() - c,
        {
            if self.nodes[c].parent == p && self.nodes[c].name == *name {
                return Some(c);
            }
            c = c + 1;
        }
        None
    }

    /// The item declared in `p` called `name`, if there is one.
    fn find_item(&self, p: usize, name: &String) -> (r: Option<usize>)
        requires
            self@.wf(),
        ensures
            match r {
                Some(i) => self@.is_item_named(p as int, i as int, name@),
                None => forall|i: int| !self@.is_item_named(p as int, i, name@),
            },
    {
        let mut i: usize = 0;
        while i < self.items.len()
            invariant
                i <= self.items.len(),
                self@.items.len() == self.items.len(),
                forall|j: int| 0 <= j < i ==> !self@.is_item_named(p as int, j, name@),
            decreases self.items.len() - i,
        {
            if self.items[i].owner == p && self.items[i].name == *name {
                return Some(i);
            }
            i = i + 1;
        }
        None
    }

    /// The field of item `i` called `name`, if there is one.
    fn find_field(&self, i: usize, name: &String) -> (r: Option<usize>)
        requires
            self@.wf(),
        ensures
            match r {
                Some(f) => self@.is_field_named(i as int, f as int, name@),
                None => forall|f: int| !self@.is_field_named(i as int, f, name@),
            },
    {
        let mut f: usize = 0;
        while f < self.fields.len()
            invariant
                f <= self.fields.len(),
                self@.fields.len() == self.fields.len(),
                forall|g: int| 0 <= g < f ==> !self@.is_field_named(i as int, g, name@),
            decreases self.fields.len() - f,
        {
            if self.fields[f].item == i && self.fields[f].name == *name {
                return Some(f);
            }
            f = f + 1;
        }
        None
    }

    /// What `name` names directly under module `p`.
    fn entry(&self, p: usize, name: &String) -> (r: Option<Target>)
        requires
            self@.wf(),
        ensures
            r == self@.entry(p as int, name@),
            r matches Some(e) ==> self@.has_target(e),
    {
        proof {
            self@.lemma_entry_has_target(p as int, name@);
        }
        match self.find_child(p, name) {
            Some(c) => {
                proof {
                    self@.lemma_entry_child(p as int, c as int, name@);
                }
                Some(Target::Node(NodeId { index: c }))
            },
            None => match self.find_item(p, name) {
                Some(i) => {
                    proof {
                        self@.lemma_entry_item(p as int, i as int, name@);
                    }
                    Some(Target::Item(ItemId { index: i }))
                },
                None => None,
            },
        }
    }

    /// Module `n` is `a` or lies below it.
    fn in_subtree(&self, a: usize, n: usize) -> (r: bool)
        requires
            self@.wf(),
            self@.has_node(n as int),
        ensures
            r == self@.in_subtree(a as int, n as int),
    {
        let mut m: usize = n;
        while m != a && m != 0
            invariant
                self@.wf(),
                self@.has_node(m as int),
                self@.nodes.len() == self.nodes.len(),
                self@.in_subtree(a as int, n as int) == self@.in_subtree(a as int, m as int),
            decreases m,
        {
            assert(0 <= self@.parent(m as int) < m);
            m = self.nodes[m].parent;
        }
        m == a
    }

    /// The module `k` steps above `n`, if the root is not passed on the way.
    fn ancestor_at(&self, n: usize, k: usize) -> (r: Option<usize>)
        requires
            self@.wf(),
            self@.has_node(n as int),
        ensures
            match r {
                Some(a) => self@.ancestor_at(n as int, k as nat) == Some(a as int) && self@.has_node(
                    a as int,
                ),
                None => self@.ancestor_at(n as int, k as nat) is None,
            },
    {
        let mut m: usize = n;
        let mut i: usize = 0;
        while i < k
            invariant
                self@.wf(),
                i <= k,
                self@.has_node(m as int),
                self@.nodes.len() == self.nodes.len(),
                self@.ancestor_at(n as int, k as nat) == self@.ancestor_at(m as int, (k - i) as nat),
            decreases k - i,
        {
            if m == 0 {
                return None;
            }
            assert(0 <= self@.parent(m as int) < m);
            m = self.nodes[m].parent;
            i = i + 1;
        }
        Some(m)
    }

    /// Code in module `from` may see entity `e`.
    fn accessible(&self, e: Target, from: usize) -> (r: bool)
        requires
            self@.wf(),
            self@.has_node(from as int),
            self@.has_target(e),
        ensures
            r == self@.accessible(e, from as int),
    {
        match e {
            Target::Node(n) => {
                let node = &self.nodes[n.index];
                node.visibility == Visibility::Public || self.in_subtree(node.parent, from)
            },
            Target::Item(i) => {
                let item = &self.items[i.index];
                item.visibility == Visibility::Public || self.in_subtree(item.owner, from)
            },
        }
    }

    /// Resolves `path` as written in module `from`: the module or item it
    /// names, or why it names none that `from` may see.
    pub fn resolve(&self, from: NodeId, path: &Path) -> (r: Result<Target, ResolutionError>)
        requires
            self@.wf(),
            self@.has_node(from.index as int),
        ensures
            r == self@.resolve(from.index as int, path@),
    {
        let (start, segs): (usize, &Vec<String>) = match path {
            Path::Absolute(s) => (0, s),
            Path::Relative(s) => (from.index, s),
            Path::SuperRelative(k, s) => match self.ancestor_at(from.index, *k) {
                None => return Err(ResolutionError::InvalidSuperHop),
                Some(a) => (a, s),
            },
        };
        let ghost names = names_of(segs@);
        assert(self@.start_of(from.index as int, path@) == (Some(start as int), names));
        let mut here = Target::Node(NodeId { index: start });
        let mut blocked: Option<Target> = None;
        let ghost mut t: Seq<Target> = Seq::empty();
        let mut k: usize = 0;
        assert(names.take(0) =~= Seq::<Seq<char>>::empty());
        while k < segs.len()
            invariant
                self@.wf(),
                self@.has_node(from.index as int),
                self@.has_node(start as int),
                self@.nodes.len() == self.nodes.len(),
                k <= segs.len(),
                names == names_of(segs@),
                self@.start_of(from.index as int, path@) == (Some(start as int), names),
                self@.trail(start as int, names.take(k as int)) == Some(t),
                t.len() == k,
                here == if k == 0 {
                    Target::Node(NodeId { index: start })
                } else {
                    t.last()
                },
                self@.has_target(here),
                blocked == self@.first_blocked(t, from.index as int),
            decreases segs.len() - k,
        {
            let ghost prefix = names.take(k as int + 1);
            assert(prefix.drop_last() =~= names.take(k as int));
            assert(prefix.last() == segs@[k as int]@);
            let n = match here {
                Target::Item(_) => {
                    proof {
                        assert(self@.trail(start as int, prefix) is None);
                        self@.lemma_trail_fails_on_prefix(start as int, names, k as int + 1);
                    }
                    return Err(ResolutionError::UnknownPath);
                },
                Target::Node(n) => n.index,
            };
            match self.entry(n, &segs[k]) {
                None => {
                    proof {
                        assert(self@.trail(start as int, prefix) is None);
                        self@.lemma_trail_fails_on_prefix(start as int, names, k as int + 1);
                    }
                    return Err(ResolutionError::UnknownPath);
                },
                Some(e) => {
                    if blocked.is_none() && !self.accessible(e, from.index) {
                        blocked = Some(e);
                    }
                    proof {
                        assert(t.push(e).drop_last() =~= t);
                        t = t.push(e);
                    }
                    here = e;
                    k = k + 1;
                },
            }
        }
        assert(names.take(k as int) =~= names);
        match blocked {
            Some(b) => Err(ResolutionError::PrivateAccess(b)),
            None => Ok(here),
        }
    }

    /// Declares module `name` under `parent`; fails with `DuplicateName`, and
    /// changes nothing, if a module or item under `parent` has that name.
    pub fn declare_module(&mut self, parent: NodeId, name: &str, visibility: Visibility) -> (r:
        Result<NodeId, ResolutionError>)
        requires
            old(self)@.wf(),
            old(self)@.has_node(parent.index as int),
        ensures
            final(self)@.wf(),
            (final(self)@, r) == old(self)@.declare_module(parent.index as int, name@, visibility),
    {
        let name = name.to_owned();
        if self.find_child(parent.index, &name).is_some() || self.find_item(
            parent.index,
            &name,
        ).is_some() {
            return Err(ResolutionError::DuplicateName);
        }
        let ghost before = self@;
        let index = self.nodes.len();
        let entry = NodeEntry { name, parent: parent.index, visibility };
        self.nodes.push(entry);
        proof {
            assert(self@.nodes.len() == self.nodes.len());
            before.lemma_declare_module_wf(parent.index as int, name@, visibility);
            let after = before.declare_module(parent.index as int, name@, visibility).0;
            assert(self@.nodes =~= after.nodes);
            assert(self@.items =~= after.items);
            assert(self@.fields =~= after.fields);
        }
        Ok(NodeId { index })
    }

    /// Declares item `name` in module `owner`; fails with `DuplicateName`, and
    /// changes nothing, if a module or item under `owner` has that name.
    pub fn declare_item(&mut self, owner: NodeId, name: &str, visibility: Visibility) -> (r:
        Result<ItemId, ResolutionError>)
        requires
            old(self)@.wf(),
            old(self)@.has_node(owner.index as int),
        ensures
            final(self)@.wf(),
            (final(self)@, r) == old(self)@.declare_item(owner.index as int, name@, visibility),
    {
        let name = name.to_owned();
        if self.find_child(owner.index, &name).is_some() || self.find_item(
            owner.index,
            &name,
        ).is_some() {
            return Err(ResolutionError::DuplicateName);
        }
        let ghost before = self@;
        let index = self.items.len();
        let entry = ItemEntry { name, owner: owner.index, visibility };
        self.items.push(entry);
        proof {
            assert(self@.items.len() == self.items.len());
            before.lemma_declare_item_wf(owner.index as int, name@, visibility);
            let after = before.declare_item(owner.index as int, name@, visibility).0;
            assert(self@.nodes =~= after.nodes);
            assert(self@.items =~= after.items);
            assert(self@.fields =~= after.fields);
        }
        Ok(ItemId { index })
    }

    /// Declares field `name` of record-like item `item`; fails with
    /// `DuplicateName`, and changes nothing, if the item has such a field.
    pub fn declare_field(&mut self, item: ItemId, name: &str, visibility: Visibility) -> (r: Result<
        (),
        ResolutionError,
    >)
        requires
            old(self)@.wf(),
            old(self)@.has_item(item.index as int),
        ensures
            final(self)@.wf(),
            (final(self)@, r) == old(self)@.declare_field(item.index as int, name@, visibility),
    {
        let name = name.to_owned();
        if self.find_field(item.index, &name).is_some() {
            return Err(ResolutionError::DuplicateName);
        }
        let ghost before = self@;
        let index = self.fields.len();
        let entry = FieldEntry { item: item.index, name, visibility };
        self.fields.push(entry);
        proof {
            
            before.lemma_declare_field_wf(item.index as int, name@, visibility);
            let after = before.declare_field(item.index as int, name@, visibility).0;
            assert(self@.nodes =~= after.nodes);
            assert(self@.items =~= after.items);
            assert(self@.fields =~= after.fields);
        }
        Ok(())
    }

    /// Code in module `from` may see the field `field` of item `item`: it
    /// may pass every module down to the item's module, the field exists, and
    /// the field is public or `from` lies in the item's module.
    pub fn field_visible(&self, item: ItemId, field: &str, from: NodeId) -> (r: bool)
        requires
            self@.wf(),
            self@.has_item(item.index as int),
            self@.has_node(from.index as int),
        ensures
            r == self@.field_visible(item.index as int, field@, from.index as int),
    {
        let owner = self.items[item.index].owner;
        assert(self@.items[item.index as int].owner == owner as int);
        let mut m: usize = owner;
        while m != 0
            invariant
                self@.wf(),
                self@.has_node(m as int),
                self@.has_node(from.index as int),
                self@.nodes.len() == self.nodes.len(),
                self@.has_item(item.index as int),
                self@.items[item.index as int].owner == owner as int,
                self@.way_open(owner as int, from.index as int) == self@.way_open(
                    m as int,
                    from.index as int,
                ),
            decreases m,
        {
            proof {
                self@.lemma_way_open_step(m as int, from.index as int);
            }
            if !self.accessible(Target::Node(NodeId { index: m }), from.index) {
                return false;
            }
            m = self.nodes[m].parent;
        }
        proof {
            self@.lemma_way_open_step(0, from.index as int);
        }
        let name = field.to_owned();
        match self.find_field(item.index, &name) {
            None => false,
            Some(f) => {
                let r = self.fields[f].visibility == Visibility::Public || self.in_subtree(
                    owner,
                    from.index,
                );
                proof {
                    if !r {
                        assert forall|g: int|
                            !(self@.is_field_named(item.index as int, g, field@) && (
                            self@.fields[g].visibility == Visibility::Public || self@.in_subtree(
                                self@.items[item.index as int].owner,
                                from.index as int,
                            ))) by {
                            if self@.is_field_named(item.index as int, g, field@) {
                                assert(g == f);
                            }
                        }
                    }
                }
                r
            },
        }
    }

    /// Module `n` belongs to this namespace.
    pub fn has_node(&self, n: NodeId) -> (r: bool)
        ensures
            r == self@.has_node(n.index as int),
    {
        n.index < self.nodes.len()
    }

    /// Item `i` belongs to this namespace.
    pub fn has_item(&self, i: ItemId) -> (r: bool)
        ensures
            r == self@.has_item(i.index as int),
    {
        i.index < self.items.len()
    }
}

} // verus!
