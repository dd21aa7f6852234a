use restaurant::namespace::{ItemId, NodeId, Path, ResolutionError, Target, Visibility};
use restaurant::resolver::Resolver;

fn names(v: &[&str]) -> Vec<String> {
    v.iter().map(|s| s.to_string()).collect()
}

struct Restaurant {
    r: Resolver,
    root: NodeId,
    front_of_house: NodeId,
    hosting: NodeId,
    back_of_house: NodeId,
    add_to_waitlist: ItemId,
    cook_order: ItemId,
}

/// root > front_of_house > hosting > add_to_waitlist (public),
/// root > back_of_house > cook_order (private).
fn restaurant() -> Restaurant {
    let mut r = Resolver::new();
    let root = r.root();
    let front_of_house = r.declare_module(root, "front_of_house", Visibility::Private).unwrap();
    let hosting = r.declare_module(front_of_house, "hosting", Visibility::Public).unwrap();
    let add_to_waitlist = r.declare_item(hosting, "add_to_waitlist", Visibility::Public).unwrap();
    let back_of_house = r.declare_module(root, "back_of_house", Visibility::Private).unwrap();
    let cook_order = r.declare_item(back_of_house, "cook_order", Visibility::Private).unwrap();
    Restaurant { r, root, front_of_house, hosting, back_of_house, add_to_waitlist, cook_order }
}

#[test]
fn restaurant_scenario() {
    let t = restaurant();
    let waitlist = Path::Absolute(names(&["front_of_house", "hosting", "add_to_waitlist"]));
    let a = t.r.resolve(t.root, &waitlist);
    assert_eq!(a, Ok(Target::Item(t.add_to_waitlist)));
    let b = t.r.resolve(t.back_of_house, &waitlist);
    assert_eq!(b, Ok(Target::Item(t.add_to_waitlist)));
    let c = t.r.resolve(t.back_of_house, &Path::Absolute(names(&["back_of_house", "cook_order"])));
    assert_eq!(c, Ok(Target::Item(t.cook_order)));
    let c = t.r.resolve(t.front_of_house, &Path::Absolute(names(&["back_of_house", "cook_order"])));
    assert_eq!(c, Err(ResolutionError::PrivateAccess(Target::Item(t.cook_order))));
    let d = t.r.resolve(
        t.back_of_house,
        &Path::SuperRelative(1, names(&["front_of_house", "hosting", "add_to_waitlist"])),
    );
    assert_eq!(d, a);
}

#[test]
fn absolute_path_reaches_each_module() {
    let t = restaurant();
    assert_eq!(t.r.resolve(t.root, &Path::Absolute(vec![])), Ok(Target::Node(t.root)));
    assert_eq!(
        t.r.resolve(t.front_of_house, &Path::Absolute(names(&["front_of_house"]))),
        Ok(Target::Node(t.front_of_house))
    );
    assert_eq!(
        t.r.resolve(t.hosting, &Path::Absolute(names(&["front_of_house", "hosting"]))),
        Ok(Target::Node(t.hosting))
    );
    assert_eq!(
        t.r.resolve(t.back_of_house, &Path::Absolute(names(&["back_of_house"]))),
        Ok(Target::Node(t.back_of_house))
    );
}

#[test]
fn descendants_see_ancestor_private_items() {
    let mut t = restaurant();
    let deliver_order = t.r.declare_item(t.root, "deliver_order", Visibility::Private).unwrap();
    let secret = t.r.declare_item(t.front_of_house, "secret", Visibility::Private).unwrap();
    let from_hosting = t.r.resolve(t.hosting, &Path::Absolute(names(&["deliver_order"])));
    assert_eq!(from_hosting, Ok(Target::Item(deliver_order)));
    let from_hosting = t.r.resolve(t.hosting, &Path::Absolute(names(&["front_of_house", "secret"])));
    assert_eq!(from_hosting, Ok(Target::Item(secret)));
    let by_super = t.r.resolve(t.hosting, &Path::SuperRelative(1, names(&["secret"])));
    assert_eq!(by_super, Ok(Target::Item(secret)));
    let by_super = t.r.resolve(t.back_of_house, &Path::SuperRelative(1, names(&["deliver_order"])));
    assert_eq!(by_super, Ok(Target::Item(deliver_order)));
}

#[test]
fn outsiders_are_refused_private_items() {
    let mut t = restaurant();
    let seating = t.r.declare_item(t.hosting, "seating", Visibility::Private).unwrap();
    let path = Path::Absolute(names(&["front_of_house", "hosting", "seating"]));
    assert_eq!(
        t.r.resolve(t.back_of_house, &path),
        Err(ResolutionError::PrivateAccess(Target::Item(seating)))
    );
    // An ancestor does not see into its descendants' private items either.
    assert_eq!(
        t.r.resolve(t.root, &path),
        Err(ResolutionError::PrivateAccess(Target::Item(seating)))
    );
    assert_eq!(t.r.resolve(t.hosting, &path), Ok(Target::Item(seating)));
}

#[test]
fn first_blocking_module_is_named() {
    let mut t = restaurant();
    let kitchen = t.r.declare_module(t.back_of_house, "kitchen", Visibility::Private).unwrap();
    let stove = t.r.declare_item(kitchen, "stove", Visibility::Public).unwrap();
    let path = Path::Absolute(names(&["back_of_house", "kitchen", "stove"]));
    assert_eq!(
        t.r.resolve(t.front_of_house, &path),
        Err(ResolutionError::PrivateAccess(Target::Node(kitchen)))
    );
    assert_eq!(t.r.resolve(t.back_of_house, &path), Ok(Target::Item(stove)));
    // A module never locks its own code out, whatever its own visibility.
    assert_eq!(
        t.r.resolve(kitchen, &Path::Absolute(names(&["back_of_house", "kitchen"]))),
        Ok(Target::Node(kitchen))
    );
}

#[test]
fn super_zero_is_relative() {
    let t = restaurant();
    for (from, rest) in [
        (t.root, names(&["front_of_house", "hosting"])),
        (t.front_of_house, names(&["hosting", "add_to_waitlist"])),
        (t.back_of_house, names(&["cook_order"])),
        (t.hosting, names(&[])),
        (t.hosting, names(&["missing"])),
    ] {
        let zero = t.r.resolve(from, &Path::SuperRelative(0, rest.clone()));
        assert_eq!(zero, t.r.resolve(from, &Path::Relative(rest)));
    }
    let rel = t.r.resolve(t.front_of_house, &Path::Relative(names(&["hosting", "add_to_waitlist"])));
    assert_eq!(rel, Ok(Target::Item(t.add_to_waitlist)));
}

#[test]
fn duplicate_declarations_fail() {
    let mut t = restaurant();
    let again = t.r.declare_module(t.root, "front_of_house", Visibility::Public);
    assert_eq!(again, Err(ResolutionError::DuplicateName));
    let again = t.r.declare_item(t.root, "back_of_house", Visibility::Public);
    assert_eq!(again, Err(ResolutionError::DuplicateName));
    let again = t.r.declare_item(t.back_of_house, "cook_order", Visibility::Public);
    assert_eq!(again, Err(ResolutionError::DuplicateName));
    let again = t.r.declare_module(t.hosting, "add_to_waitlist", Visibility::Public);
    assert_eq!(again, Err(ResolutionError::DuplicateName));
    // The first declarations are intact.
    let path = Path::Absolute(names(&["front_of_house", "hosting", "add_to_waitlist"]));
    assert_eq!(t.r.resolve(t.back_of_house, &path), Ok(Target::Item(t.add_to_waitlist)));
    let path = Path::Absolute(names(&["back_of_house", "cook_order"]));
    assert_eq!(
        t.r.resolve(t.front_of_house, &path),
        Err(ResolutionError::PrivateAccess(Target::Item(t.cook_order)))
    );
    // The same name under another module is another declaration.
    let other = t.r.declare_module(t.front_of_house, "back_of_house", Visibility::Public);
    assert_eq!(other, Ok(NodeId { index: 4 }));
}

#[test]
fn unknown_paths() {
    let t = restaurant();
    let missing = Path::Absolute(names(&["front_of_house", "serving"]));
    assert_eq!(t.r.resolve(t.root, &missing), Err(ResolutionError::UnknownPath));
    // An item has nothing under it.
    let past_item = Path::Relative(names(&["cook_order", "pan"]));
    assert_eq!(t.r.resolve(t.back_of_house, &past_item), Err(ResolutionError::UnknownPath));
    // A path that does not exist says so, even behind a private module.
    let hidden = Path::Absolute(names(&["back_of_house", "missing"]));
    assert_eq!(t.r.resolve(t.front_of_house, &hidden), Err(ResolutionError::UnknownPath));
    // Relative paths start at the caller, not at the root.
    let rel = Path::Relative(names(&["hosting"]));
    assert_eq!(t.r.resolve(t.root, &rel), Err(ResolutionError::UnknownPath));
}

#[test]
fn super_hops_above_root_fail() {
    let t = restaurant();
    let up = Path::SuperRelative(1, names(&[]));
    assert_eq!(t.r.resolve(t.root, &up), Err(ResolutionError::InvalidSuperHop));
    let up = Path::SuperRelative(3, names(&["front_of_house"]));
    assert_eq!(t.r.resolve(t.hosting, &up), Err(ResolutionError::InvalidSuperHop));
    let up = Path::SuperRelative(2, names(&[]));
    assert_eq!(t.r.resolve(t.hosting, &up), Ok(Target::Node(t.root)));
    let up = Path::SuperRelative(1, names(&[]));
    assert_eq!(t.r.resolve(t.hosting, &up), Ok(Target::Node(t.front_of_house)));
}

#[test]
fn field_visibility() {
    let mut t = restaurant();
    let breakfast = t.r.declare_item(t.back_of_house, "Breakfast", Visibility::Public).unwrap();
    assert_eq!(t.r.declare_field(breakfast, "toast", Visibility::Public), Ok(()));
    assert_eq!(t.r.declare_field(breakfast, "seasonal_fruit", Visibility::Private), Ok(()));
    assert_eq!(
        t.r.declare_field(breakfast, "toast", Visibility::Private),
        Err(ResolutionError::DuplicateName)
    );
    assert!(t.r.field_visible(breakfast, "toast", t.root));
    assert!(t.r.field_visible(breakfast, "toast", t.hosting));
    assert!(!t.r.field_visible(breakfast, "seasonal_fruit", t.root));
    assert!(!t.r.field_visible(breakfast, "seasonal_fruit", t.front_of_house));
    assert!(t.r.field_visible(breakfast, "seasonal_fruit", t.back_of_house));
    assert!(!t.r.field_visible(breakfast, "garnish", t.back_of_house));
    // The earlier declaration of `toast` kept its visibility.
    assert!(t.r.field_visible(breakfast, "toast", t.front_of_house));
}

#[test]
fn new_namespace_holds_the_root_alone() {
    let r = Resolver::new();
    let root = r.root();
    assert_eq!(root, NodeId { index: 0 });
    assert_eq!(r.resolve(root, &Path::Relative(vec![])), Ok(Target::Node(root)));
    assert_eq!(
        r.resolve(root, &Path::Absolute(names(&["anything"]))),
        Err(ResolutionError::UnknownPath)
    );
}

#[test]
fn field_behind_private_modules() {
    // root > a (private) > b (private) > r, with a public field; c beside a.
    let mut r = Resolver::new();
    let root = r.root();
    let a = r.declare_module(root, "a", Visibility::Private).unwrap();
    let b = r.declare_module(a, "b", Visibility::Private).unwrap();
    let c = r.declare_module(root, "c", Visibility::Public).unwrap();
    let record = r.declare_item(b, "r", Visibility::Public).unwrap();
    assert_eq!(r.declare_field(record, "open", Visibility::Public), Ok(()));
    assert_eq!(r.declare_field(record, "closed", Visibility::Private), Ok(()));
    // `b` is private to `a`, so neither `c` nor the root gets through.
    assert!(!r.field_visible(record, "open", c));
    assert!(!r.field_visible(record, "open", root));
    // Code in `a` passes `a` and `b`; code in `b` sees the private field too.
    assert!(r.field_visible(record, "open", a));
    assert!(!r.field_visible(record, "closed", a));
    assert!(r.field_visible(record, "open", b));
    assert!(r.field_visible(record, "closed", b));
}

#[test]
fn super_steps_reach_ancestor_private_items() {
    let mut t = restaurant();
    let deliver_order = t.r.declare_item(t.root, "deliver_order", Visibility::Private).unwrap();
    let by_super = t.r.resolve(t.hosting, &Path::SuperRelative(2, names(&["deliver_order"])));
    assert_eq!(by_super, Ok(Target::Item(deliver_order)));
    let by_super = t.r.resolve(t.back_of_house, &Path::SuperRelative(0, names(&["cook_order"])));
    assert_eq!(by_super, Ok(Target::Item(t.cook_order)));
}

#[test]
fn membership_checks() {
    let t = restaurant();
    assert!(t.r.has_node(t.root));
    assert!(t.r.has_node(t.hosting));
    assert!(!t.r.has_node(NodeId { index: 4 }));
    assert!(t.r.has_item(t.cook_order));
    assert!(!t.r.has_item(ItemId { index: 2 }));
}
