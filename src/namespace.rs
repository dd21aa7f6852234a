use vstd::prelude::*;

verus! {

/// Who may see a module, an item or a field from outside the module that
/// declares it. Inside that module, and anywhere below it, everything is seen.
#[derive(Clone, Copy, Debug, PartialEq, Eq, Structural)]
pub enum Visibility {
    Private,
    Public,
}

/// A module of the namespace, by its index. The root is index 0.
#[derive(Clone, Copy, Debug, PartialEq, Eq, Structural)]
pub struct NodeId {
    pub index: usize,
}

/// An item of the namespace, by its index.
#[derive(Clone, Copy, Debug, PartialEq, Eq, Structural)]
pub struct ItemId {
    pub index: usize,
}

/// What a path names: a module or an item.
#[derive(Clone, Copy, Debug, PartialEq, Eq, Structural)]
pub enum Target {
    Node(NodeId),
    Item(ItemId),
}

/// Why a declaration or a resolution failed.
#[derive(Clone, Copy, Debug, PartialEq, Eq, Structural)]
pub enum ResolutionError {
    /// The name is already used under the same module (or item, for a field).
    DuplicateName,
    /// A segment names nothing at the place it is looked up.
    UnknownPath,
    /// A `super` path climbs above the root.
    InvalidSuperHop,
    /// The path exists, but the entity named here is hidden from the caller:
    /// the first such entity along the path.
    PrivateAccess(Target),
}

/// A path, as written at the place it is resolved from.
pub enum Path {
    /// Names walked down from the root.
    Absolute(Vec<String>),
    /// Names walked down from the calling module.
    Relative(Vec<String>),
    /// A number of steps up from the calling module, then names walked down.
    SuperRelative(usize, Vec<String>),
}

/// A path as the mathematical model sees it.
pub ghost enum PathSpec {
    Absolute(Seq<Seq<char>>),
    Relative(Seq<Seq<char>>),
    SuperRelative(nat, Seq<Seq<char>>),
}

/// The names of a sequence of strings.
pub open spec fn names_of(v: Seq<String>) -> Seq<Seq<char>> {
    v.map_values(|s: String| s@)
}

impl View for Path {
    type V = PathSpec;

    open spec fn view(&self) -> PathSpec {
        match self {
            Path::Absolute(s) => PathSpec::Absolute(names_of(s@)),
            Path::Relative(s) => PathSpec::Relative(names_of(s@)),
            Path::SuperRelative(k, s) => PathSpec::SuperRelative(*k as nat, names_of(s@)),
        }
    }
}

/// A module: its name, the module that holds it (the root holds itself),
/// and its visibility.
pub ghost struct NodeRec {
    pub name: Seq<char>,
    pub parent: int,
    pub visibility: Visibility,
}

/// An item: its name, the module that declares it, and its visibility.
pub ghost struct ItemRec {
    pub name: Seq<char>,
    pub owner: int,
    pub visibility: Visibility,
}

/// A field of a record-like item, with a visibility of its own.
pub ghost struct FieldRec {
    pub item: int,
    pub name: Seq<char>,
    pub visibility: Visibility,
}

/// The namespace as a mathematical value: modules, items and fields, each
/// known by its index. A module is always declared after its parent, so a
/// parent's index is below its child's.
pub ghost struct Namespace {
    pub nodes: Seq<NodeRec>,
    pub items: Seq<ItemRec>,
    pub fields: Seq<FieldRec>,
}

impl Namespace {
    pub open spec fn has_node(self, n: int) -> bool {
        0 <= n < self.nodes.len()
    }

    pub open spec fn has_item(self, i: int) -> bool {
        0 <= i < self.items.len()
    }

    /// `e` is a module or an item of this namespace.
    pub open spec fn has_target(self, e: Target) -> bool {
        match e {
            Target::Node(n) => self.has_node(n.index as int),
            Target::Item(i) => self.has_item(i.index as int),
        }
    }

    pub open spec fn parent(self, n: int) -> int {
        self.nodes[n].parent
    }

    /// `c` is a module directly under `p` and is called `name`.
    pub open spec fn is_child_named(self, p: int, c: int, name: Seq<char>) -> bool {
        0 < c < self.nodes.len() && self.nodes[c].parent == p && self.nodes[c].name == name
    }

    /// `i` is an item declared in `p` and is called `name`.
    pub open spec fn is_item_named(self, p: int, i: int, name: Seq<char>) -> bool {
        0 <= i < self.items.len() && self.items[i].owner == p && self.items[i].name == name
    }

    /// `f` is a field of item `i` and is called `name`.
    pub open spec fn is_field_named(self, i: int, f: int, name: Seq<char>) -> bool {
        0 <= f < self.fields.len() && self.fields[f].item == i && self.fields[f].name == name
    }

    /// Some module or item directly under `p` is called `name`.
    pub open spec fn name_taken(self, p: int, name: Seq<char>) -> bool {
        (exists|c: int| self.is_child_named(p, c, name)) || (exists|i: int|
            self.is_item_named(p, i, name))
    }

    /// Some field of item `i` is called `name`.
    pub open spec fn field_taken(self, i: int, name: Seq<char>) -> bool {
        exists|f: int| self.is_field_named(i, f, name)
    }

    /// A rooted tree whose names are unique under each module and item.
    pub open spec fn wf(self) -> bool {
        &&& 1 <= self.nodes.len() <= usize::MAX
        &&& self.items.len() <= usize::MAX
        &&& self.nodes[0].parent == 0
        &&& forall|n: int| 0 < n < self.nodes.len() ==> 0 <= #[trigger] self.nodes[n].parent < n
        &&& forall|i: int| 0 <= i < self.items.len() ==> self.has_node(#[trigger] self.items[i].owner)
        &&& forall|f: int|
            0 <= f < self.fields.len() ==> self.has_item(#[trigger] self.fields[f].item)
        &&& forall|a: int, b: int, p: int, name: Seq<char>|
            #[trigger] self.is_child_named(p, a, name) && #[trigger] self.is_child_named(p, b, name)
                ==> a == b
        &&& forall|c: int, i: int, p: int, name: Seq<char>|
            #[trigger] self.is_child_named(p, c, name) ==> !#[trigger] self.is_item_named(p, i, name)
        &&& forall|i: int, j: int, p: int, name: Seq<char>|
            #[trigger] self.is_item_named(p, i, name) && #[trigger] self.is_item_named(p, j, name)
                ==> i == j
        &&& forall|f: int, g: int, i: int, name: Seq<char>|
            #[trigger] self.is_field_named(i, f, name) && #[trigger] self.is_field_named(i, g, name)
                ==> f == g
    }

    /// Module `n` is `a` or lies below it.
    pub open spec fn in_subtree(self, a: int, n: int) -> bool
        decreases n,
    {
        if n == a {
            true
        } else if 0 < n < self.nodes.len() && 0 <= self.parent(n) < n {
            self.in_subtree(a, self.parent(n))
        } else {
            false
        }
    }

    /// The names from the root down to module `n`: its absolute path.
    pub open spec fn path_to(self, n: int) -> Seq<Seq<char>>
        decreases n,
    {
        if 0 < n < self.nodes.len() && 0 <= self.parent(n) < n {
            self.path_to(self.parent(n)).push(self.nodes[n].name)
        } else {
            Seq::empty()
        }
    }

    /// The module `k` steps above `n`, if the root is not passed on the way.
    pub open spec fn ancestor_at(self, n: int, k: nat) -> Option<int>
        decreases k,
    {
        if k == 0 {
            Some(n)
        } else if n <= 0 {
            None
        } else {
            self.ancestor_at(self.parent(n), (k - 1) as nat)
        }
    }

    /// What `name` names directly under module `p`.
    pub open spec fn entry(self, p: int, name: Seq<char>) -> Option<Target> {
        if exists|c: int| self.is_child_named(p, c, name) {
            Some(Target::Node(NodeId { index: (choose|c: int| self.is_child_named(p, c, name)) as usize }))
        } else if exists|i: int| self.is_item_named(p, i, name) {
            Some(Target::Item(ItemId { index: (choose|i: int| self.is_item_named(p, i, name)) as usize }))
        } else {
            None
        }
    }

    /// The module that a walk which started at `start` and has passed the
    /// entities `t` stands at; none once it has reached an item.
    pub open spec fn stop(self, start: int, t: Seq<Target>) -> Option<int> {
        if t.len() == 0 {
            Some(start)
        } else {
            match t.last() {
                Target::Node(n) => Some(n.index as int),
                Target::Item(_) => None,
            }
        }
    }

    /// The entities that the names `segs` pass through, one for each name,
    /// walking down from module `start`; none if some name names nothing.
    pub open spec fn trail(self, start: int, segs: Seq<Seq<char>>) -> Option<Seq<Target>>
        decreases segs.len(),
    {
        if segs.len() == 0 {
            Some(Seq::empty())
        } else {
            match self.trail(start, segs.drop_last()) {
                None => None,
                Some(t) => match self.stop(start, t) {
                    None => None,
                    Some(n) => match self.entry(n, segs.last()) {
                        None => None,
                        Some(e) => Some(t.push(e)),
                    },
                },
            }
        }
    }

    /// Code in module `from` may see entity `e`: it is public, or `from` lies
    /// in the module that declares it.
    pub open spec fn accessible(self, e: Target, from: int) -> bool {
        match e {
            Target::Node(n) => self.nodes[n.index as int].visibility == Visibility::Public
                || self.in_subtree(self.parent(n.index as int), from),
            Target::Item(i) => self.items[i.index as int].visibility == Visibility::Public
                || self.in_subtree(self.items[i.index as int].owner, from),
        }
    }

    /// The first entity of `t` that code in `from` may not see.
    pub open spec fn first_blocked(self, t: Seq<Target>, from: int) -> Option<Target>
        decreases t.len(),
    {
        if t.len() == 0 {
            None
        } else {
            match self.first_blocked(t.drop_last(), from) {
                Some(b) => Some(b),
                None => if self.accessible(t.last(), from) {
                    None
                } else {
                    Some(t.last())
                },
            }
        }
    }

    /// The module a path starts its walk down from, and the names it walks.
    pub open spec fn start_of(self, from: int, path: PathSpec) -> (Option<int>, Seq<Seq<char>>) {
        match path {
            PathSpec::Absolute(s) => (Some(0), s),
            PathSpec::Relative(s) => (Some(from), s),
            PathSpec::SuperRelative(k, s) => (self.ancestor_at(from, k), s),
        }
    }

    /// What resolving `path` from module `from` gives.
    pub open spec fn resolve(self, from: int, path: PathSpec) -> Result<Target, ResolutionError> {
        let (start, segs) = self.start_of(from, path);
        match start {
            None => Err(ResolutionError::InvalidSuperHop),
            Some(s) => match self.trail(s, segs) {
                None => Err(ResolutionError::UnknownPath),
                Some(t) => match self.first_blocked(t, from) {
                    Some(b) => Err(ResolutionError::PrivateAccess(b)),
                    None => Ok(
                        if t.len() == 0 {
                            Target::Node(NodeId { index: s as usize })
                        } else {
                            t.last()
                        },
                    ),
                },
            },
        }
    }

    /// Code in module `from` may pass every module from the root down to
    /// module `n`, root excluded (each is public, or `from` lies in its parent).
    pub open spec fn way_open(self, n: int, from: int) -> bool {
        forall|x: int|
            0 < x && #[trigger] self.in_subtree(x, n) ==> self.accessible(
                Target::Node(NodeId { index: x as usize }),
                from,
            )
    }

    /// Code in module `from` may see the field `name` of item `i`: it may
    /// pass every module down to the item's module, and the field is public
    /// or `from` lies in the item's module. The item's own visibility plays
    /// no part: the field's takes its place.
    pub open spec fn field_visible(self, i: int, name: Seq<char>, from: int) -> bool {
        &&& self.way_open(self.items[i].owner, from)
        &&& exists|f: int|
            self.is_field_named(i, f, name) && (self.fields[f].visibility == Visibility::Public
                || self.in_subtree(self.items[i].owner, from))
    }

    /// Declaring module `name` under `p`: the namespace after, and the result.
    pub open spec fn declare_module(self, p: int, name: Seq<char>, vis: Visibility) -> (
        Namespace,
        Result<NodeId, ResolutionError>,
    ) {
        if self.name_taken(p, name) {
            (self, Err(ResolutionError::DuplicateName))
        } else {
            (
                Namespace {
                    nodes: self.nodes.push(NodeRec { name, parent: p, visibility: vis }),
                    ..self
                },
                Ok(NodeId { index: self.nodes.len() as usize }),
            )
        }
    }

    /// Declaring item `name` in module `p`: the namespace after, and the result.
    pub open spec fn declare_item(self, p: int, name: Seq<char>, vis: Visibility) -> (
        Namespace,
        Result<ItemId, ResolutionError>,
    ) {
        if self.name_taken(p, name) {
            (self, Err(ResolutionError::DuplicateName))
        } else {
            (
                Namespace {
                    items: self.items.push(ItemRec { name, owner: p, visibility: vis }),
                    ..self
                },
                Ok(ItemId { index: self.items.len() as usize }),
            )
        }
    }

    /// Declaring field `name` of item `i`: the namespace after, and the result.
    pub open spec fn declare_field(self, i: int, name: Seq<char>, vis: Visibility) -> (
        Namespace,
        Result<(), ResolutionError>,
    ) {
        if self.field_taken(i, name) {
            (self, Err(ResolutionError::DuplicateName))
        } else {
            (
                Namespace {
                    fields: self.fields.push(FieldRec { item: i, name, visibility: vis }),
                    ..self
                },
                Ok(()),
            )
        }
    }

    /// Under unique names, a module found under `p` is what `name` names there.
    pub proof fn lemma_entry_child(self, p: int, c: int, name: Seq<char>)
        requires
            self.wf(),
            self.is_child_named(p, c, name),
        ensures
            self.entry(p, name) == Some(Target::Node(NodeId { index: c as usize })),
    {
        let d = choose|d: int| self.is_child_named(p, d, name);
        assert(self.is_child_named(p, d, name));
    }

    /// Under unique names, an item found in `p` is what `name` names there.
    pub proof fn lemma_entry_item(self, p: int, i: int, name: Seq<char>)
        requires
            self.wf(),
            self.is_item_named(p, i, name),
        ensures
            self.entry(p, name) == Some(Target::Item(ItemId { index: i as usize })),
    {
        assert forall|c: int| !self.is_child_named(p, c, name) by {
            if self.is_child_named(p, c, name) {
                assert(!self.is_item_named(p, i, name));
            }
        }
        let j = choose|j: int| self.is_item_named(p, j, name);
        assert(self.is_item_named(p, j, name));
    }

    /// What `entry` finds is a module or an item of the namespace.
    pub proof fn lemma_entry_has_target(self, p: int, name: Seq<char>)
        ensures
            self.entry(p, name) matches Some(e) ==> self.has_target(e),
    {
        if exists|c: int| self.is_child_named(p, c, name) {
            let c = choose|c: int| self.is_child_named(p, c, name);
            assert(self.is_child_named(p, c, name));
        } else if exists|i: int| self.is_item_named(p, i, name) {
            let i = choose|i: int| self.is_item_named(p, i, name);
            assert(self.is_item_named(p, i, name));
        }
    }

    /// A walk that fails on a prefix of the names fails on all of them.
    pub proof fn lemma_trail_fails_on_prefix(self, start: int, segs: Seq<Seq<char>>, k: int)
        requires
            0 <= k <= segs.len(),
            self.trail(start, segs.take(k)) is None,
        ensures
            self.trail(start, segs) is None,
        decreases segs.len(),
    {
        if k == segs.len() {
            assert(segs.take(k) =~= segs);
        } else {
            assert(segs.drop_last().take(k) =~= segs.take(k));
            self.lemma_trail_fails_on_prefix(start, segs.drop_last(), k);
        }
    }

    /// The way down to the root is open; the way down to any other module is
    /// open when the way to its parent is and the module itself lets `from` in.
    pub proof fn lemma_way_open_step(self, n: int, from: int)
        requires
            self.wf(),
            self.has_node(n),
        ensures
            n == 0 ==> self.way_open(n, from),
            n > 0 ==> (self.way_open(n, from) <==> (self.accessible(
                Target::Node(NodeId { index: n as usize }),
                from,
            ) && self.way_open(self.parent(n), from))),
    {
        assert forall|x: int| 0 < x implies !#[trigger] self.in_subtree(x, 0) by {}
        if n > 0 {
            let p = self.parent(n);
            assert forall|x: int| 0 < x && x != n implies #[trigger] self.in_subtree(x, n)
                == self.in_subtree(x, p) by {}
            if self.way_open(p, from) && self.accessible(Target::Node(NodeId { index: n as usize }), from) {
                assert forall|x: int| 0 < x && #[trigger] self.in_subtree(x, n) implies self.accessible(
                    Target::Node(NodeId { index: x as usize }),
                    from,
                ) by {
                    if x != n {
                        assert(self.in_subtree(x, p));
                    }
                }
            }
            if self.way_open(n, from) {
                assert(self.in_subtree(n, n));
                assert forall|x: int| 0 < x && #[trigger] self.in_subtree(x, p) implies self.accessible(
                    Target::Node(NodeId { index: x as usize }),
                    from,
                ) by {
                    if x == n {
                        self.lemma_in_subtree_below(x, p);
                    } else {
                        assert(self.in_subtree(x, n));
                    }
                }
            }
        }
    }

    /// A module never lies in the subtree of one of its own descendants
    /// other than itself: here, `x` in the subtree of `p` forces `x <= p`.
    pub proof fn lemma_in_subtree_below(self, x: int, p: int)
        requires
            self.wf(),
            self.in_subtree(x, p),
        ensures
            x <= p,
        decreases p,
    {
        if p != x {
            self.lemma_in_subtree_below(x, self.parent(p));
        }
    }

    /// Declaring a module under a name that is free keeps the namespace
    /// well formed.
    pub proof fn lemma_declare_module_wf(self, p: int, name: Seq<char>, vis: Visibility)
        requires
            self.wf(),
            self.has_node(p),
            !self.name_taken(p, name),
            self.nodes.len() < usize::MAX,
        ensures
            self.declare_module(p, name, vis).0.wf(),
    {
        let after = self.declare_module(p, name, vis).0;
        let index = self.nodes.len() as int;
        assert forall|a: int, b: int, q: int, n: Seq<char>|
            #[trigger] after.is_child_named(q, a, n) && #[trigger] after.is_child_named(q, b, n)
                implies a == b by {
            if a != index {
                assert(self.is_child_named(q, a, n));
            }
            if b != index {
                assert(self.is_child_named(q, b, n));
            }
        }
        assert forall|c: int, i: int, q: int, n: Seq<char>|
            #[trigger] after.is_child_named(q, c, n) implies !#[trigger] after.is_item_named(q, i, n) by {
            if c != index {
                assert(self.is_child_named(q, c, n));
            }
            if after.is_item_named(q, i, n) {
                assert(self.is_item_named(q, i, n));
            }
        }
        assert forall|i: int, j: int, q: int, n: Seq<char>|
            #[trigger] after.is_item_named(q, i, n) && #[trigger] after.is_item_named(q, j, n)
                implies i == j by {
            assert(self.is_item_named(q, i, n) && self.is_item_named(q, j, n));
        }
        assert forall|f: int, g: int, j: int, n: Seq<char>|
            #[trigger] after.is_field_named(j, f, n) && #[trigger] after.is_field_named(j, g, n)
                implies f == g by {
            assert(self.is_field_named(j, f, n) && self.is_field_named(j, g, n));
        }
    }

    /// Declaring an item under a name that is free keeps the namespace well
    /// formed.
    pub proof fn lemma_declare_item_wf(self, p: int, name: Seq<char>, vis: Visibility)
        requires
            self.wf(),
            self.has_node(p),
            !self.name_taken(p, name),
            self.items.len() < usize::MAX,
        ensures
            self.declare_item(p, name, vis).0.wf(),
    {
        let after = self.declare_item(p, name, vis).0;
        let index = self.items.len() as int;
        assert forall|c: int, i: int, q: int, n: Seq<char>|
            #[trigger] after.is_child_named(q, c, n) implies !#[trigger] after.is_item_named(q, i, n) by {
            assert(self.is_child_named(q, c, n));
            if after.is_item_named(q, i, n) && i != index {
                assert(self.is_item_named(q, i, n));
            }
        }
        assert forall|i: int, j: int, q: int, n: Seq<char>|
            #[trigger] after.is_item_named(q, i, n) && #[trigger] after.is_item_named(q, j, n)
                implies i == j by {
            if i != index {
                assert(self.is_item_named(q, i, n));
            }
            if j != index {
                assert(self.is_item_named(q, j, n));
            }
        }
        assert forall|a: int, b: int, q: int, n: Seq<char>|
            #[trigger] after.is_child_named(q, a, n) && #[trigger] after.is_child_named(q, b, n)
                implies a == b by {
            assert(self.is_child_named(q, a, n) && self.is_child_named(q, b, n));
        }
        assert forall|f: int, g: int, j: int, n: Seq<char>|
            #[trigger] after.is_field_named(j, f, n) && #[trigger] after.is_field_named(j, g, n)
                implies f == g by {
            assert(self.is_field_named(j, f, n) && self.is_field_named(j, g, n));
        }
    }

    /// Declaring a field under a name that is free keeps the namespace well
    /// formed.
    pub proof fn lemma_declare_field_wf(self, i: int, name: Seq<char>, vis: Visibility)
        requires
            self.wf(),
            self.has_item(i),
            !self.field_taken(i, name),
        ensures
            self.declare_field(i, name, vis).0.wf(),
    {
        let after = self.declare_field(i, name, vis).0;
        let index = self.fields.len() as int;
        assert forall|f: int, g: int, j: int, n: Seq<char>|
            #[trigger] after.is_field_named(j, f, n) && #[trigger] after.is_field_named(j, g, n)
                implies f == g by {
            if f != index {
                assert(self.is_field_named(j, f, n));
            }
            if g != index {
                assert(self.is_field_named(j, g, n));
            }
        }
        assert forall|a: int, b: int, q: int, n: Seq<char>|
            #[trigger] after.is_child_named(q, a, n) && #[trigger] after.is_child_named(q, b, n)
                implies a == b by {
            assert(self.is_child_named(q, a, n) && self.is_child_named(q, b, n));
        }
        assert forall|c: int, i: int, q: int, n: Seq<char>|
            #[trigger] after.is_child_named(q, c, n) implies !#[trigger] after.is_item_named(q, i, n) by {
            assert(self.is_child_named(q, c, n));
            if after.is_item_named(q, i, n) {
                assert(self.is_item_named(q, i, n));
            }
        }
        assert forall|i: int, j: int, q: int, n: Seq<char>|
            #[trigger] after.is_item_named(q, i, n) && #[trigger] after.is_item_named(q, j, n)
                implies i == j by {
            assert(self.is_item_named(q, i, n) && self.is_item_named(q, j, n));
        }
    }
}

} // verus!
