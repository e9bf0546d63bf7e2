use jos_core::cap_rights::Rights;
use jos_core::cap_space::{CapSpace, Capability, InsertAtError, MintError};

// a tiny object handle for tests: just an id.
type Obj = u32;

#[test]
fn insert_and_lookup() {
    let mut space: CapSpace<Obj, 16> = CapSpace::new();
    let r = space.insert(7, Rights::all()).unwrap();
    let cap = space.lookup(r).unwrap();
    assert_eq!(cap.object, 7);
    assert_eq!(cap.rights, Rights::all());
    assert_eq!(cap.parent, None);
    assert_eq!(space.len(), 1);
}

#[test]
fn check_enforces_rights() {
    let mut space: CapSpace<Obj, 16> = CapSpace::new();
    let r = space.insert(1, Rights::read()).unwrap();
    assert!(space.check(r, Rights::read()));
    assert!(!space.check(r, Rights::write()));
    assert!(!space.check(r, Rights::read_write()));
}

#[test]
fn mint_attenuates_rights() {
    let mut space: CapSpace<Obj, 16> = CapSpace::new();
    let full = space.insert(1, Rights::all()).unwrap();
    // mint a read-only child of a full-rights cap.
    let ro = space.mint(full, Rights::read()).unwrap();
    assert!(space.check(ro, Rights::read()));
    assert!(!space.check(ro, Rights::write()));
    assert_eq!(space.lookup(ro).unwrap().parent, Some(full));
    // minting cannot escalate: a read-only cap minted with WRITE stays empty.
    let escalated = space.mint(ro, Rights::write()).unwrap();
    assert_eq!(space.lookup(escalated).unwrap().rights, Rights::empty());
}

#[test]
fn mint_of_stale_ref_fails() {
    let mut space: CapSpace<Obj, 16> = CapSpace::new();
    let r = space.insert(1, Rights::all()).unwrap();
    space.remove(r);
    assert_eq!(space.mint(r, Rights::read()), Err(MintError::InvalidSource));
}

#[test]
fn remove_makes_ref_stale() {
    let mut space: CapSpace<Obj, 16> = CapSpace::new();
    let r = space.insert(9, Rights::all()).unwrap();
    assert!(space.remove(r).is_some());
    assert!(space.lookup(r).is_none());
    assert!(!space.check(r, Rights::read()));
}

#[test]
fn revoke_removes_whole_subtree() {
    let mut space: CapSpace<Obj, 32> = CapSpace::new();
    let root = space.insert(1, Rights::all()).unwrap();
    let child = space.mint(root, Rights::read_write()).unwrap();
    let grandchild = space.mint(child, Rights::read()).unwrap();
    // an unrelated capability that must survive the revoke.
    let other = space.insert(2, Rights::all()).unwrap();

    let removed = space.revoke(root);
    assert_eq!(removed, 3); // root + child + grandchild
    assert!(space.lookup(root).is_none());
    assert!(space.lookup(child).is_none());
    assert!(space.lookup(grandchild).is_none());
    // the unrelated capability is untouched.
    assert!(space.lookup(other).is_some());
    assert_eq!(space.len(), 1);
}

#[test]
fn revoke_child_leaves_root() {
    let mut space: CapSpace<Obj, 32> = CapSpace::new();
    let root = space.insert(1, Rights::all()).unwrap();
    let child = space.mint(root, Rights::read()).unwrap();
    let grandchild = space.mint(child, Rights::read()).unwrap();

    // revoking the child removes child + grandchild but keeps root.
    let removed = space.revoke(child);
    assert_eq!(removed, 2);
    assert!(space.lookup(root).is_some());
    assert!(space.lookup(child).is_none());
    assert!(space.lookup(grandchild).is_none());
}

#[test]
fn for_each_in_subtree_visits_exactly_the_revoke_set() {
    let mut space: CapSpace<Obj, 32> = CapSpace::new();
    let root = space.insert(1, Rights::all()).unwrap();
    let child = space.mint(root, Rights::read_write()).unwrap();
    let grandchild = space.mint(child, Rights::read()).unwrap();
    // an unrelated capability that must NOT be visited.
    let other = space.insert(2, Rights::all()).unwrap();

    let mut visited = Vec::new();
    space.for_each_in_subtree(root, |r, _| visited.push(r));
    // visits root + child + grandchild (the revoke set), not `other`.
    assert_eq!(visited.len(), 3);
    assert!(visited.contains(&root));
    assert!(visited.contains(&child));
    assert!(visited.contains(&grandchild));
    assert!(!visited.contains(&other));

    // and it matches what revoke would remove.
    let removed = space.revoke(root);
    assert_eq!(removed, visited.len());
    assert!(space.lookup(other).is_some());
}

#[test]
fn for_each_in_subtree_of_leaf_is_just_the_leaf() {
    let mut space: CapSpace<Obj, 16> = CapSpace::new();
    let root = space.insert(1, Rights::all()).unwrap();
    let child = space.mint(root, Rights::read()).unwrap();
    let mut visited = Vec::new();
    space.for_each_in_subtree(child, |r, _| visited.push(r));
    // the child has no descendants, so only it is visited.
    assert_eq!(visited, vec![child]);
}

#[test]
fn full_space_mint_fails() {
    let mut space: CapSpace<Obj, 2> = CapSpace::new();
    let a = space.insert(1, Rights::all()).unwrap();
    let _b = space.insert(2, Rights::all()).unwrap();
    assert_eq!(space.mint(a, Rights::read()), Err(MintError::SpaceFull));
}

#[test]
fn insert_at_installs_an_original_in_the_chosen_slot() {
    let mut space: CapSpace<Obj, 4> = CapSpace::new();
    let r = space.insert_at(3, 9, Rights::read()).unwrap();
    assert_eq!(r.slot(), 3);
    assert_eq!(space.lookup(r), Some(&Capability::new(9, Rights::read())));
    assert_eq!(space.insert_at(3, 8, Rights::all()), Err(InsertAtError::Occupied));
    assert_eq!(space.insert_at(4, 8, Rights::all()), Err(InsertAtError::OutOfRange));
    assert_eq!(space.len(), 1);
}

#[test]
fn a_chain_of_mints_never_amplifies() {
    let mut space: CapSpace<Obj, 8> = CapSpace::new();
    let root = space.insert(1, Rights::read_write()).unwrap();
    let mut last = root;
    for mask in [Rights::all(), Rights::write(), Rights::all()] {
        last = space.mint(last, mask).unwrap();
    }
    let cap = space.lookup(last).unwrap();
    assert_eq!(cap.rights, Rights::write());
    assert_eq!(cap.object, 1);
    assert!(space.lookup(root).unwrap().rights.contains(cap.rights));
}

#[test]
fn an_orphan_survives_the_revocation_of_its_grandparent() {
    let mut space: CapSpace<Obj, 8> = CapSpace::new();
    let root = space.insert(1, Rights::all()).unwrap();
    let child = space.mint(root, Rights::all()).unwrap();
    let grandchild = space.mint(child, Rights::read()).unwrap();
    // once the link in between is removed, the grandchild descends from nothing.
    space.remove(child);
    assert_eq!(space.revoke(root), 1);
    assert!(space.check(grandchild, Rights::read()));
}

#[test]
fn a_slot_reused_after_removal_adopts_no_children() {
    let mut space: CapSpace<Obj, 8> = CapSpace::new();
    let root = space.insert(1, Rights::all()).unwrap();
    let child = space.mint(root, Rights::all()).unwrap();
    space.remove(root);
    let other = space.insert(2, Rights::all()).unwrap();
    assert_eq!(other.slot(), root.slot());
    assert_eq!(space.revoke(other), 1);
    assert!(space.lookup(child).is_some());
}

#[test]
fn revoking_a_stale_ref_removes_nothing() {
    let mut space: CapSpace<Obj, 4> = CapSpace::new();
    let a = space.insert(1, Rights::all()).unwrap();
    space.mint(a, Rights::read()).unwrap();
    assert_eq!(space.revoke(a), 2);
    assert_eq!(space.revoke(a), 0);
    assert!(!space.check(a, Rights::none()));
    assert!(space.is_empty());
}

#[test]
fn a_full_space_hands_the_capability_back() {
    let mut space: CapSpace<Obj, 1> = CapSpace::default();
    space.insert(1, Rights::all()).unwrap();
    assert_eq!(space.insert(2, Rights::read()), Err(Capability::new(2, Rights::read())));
    assert_eq!(space.capacity(), 1);
}

#[test]
fn a_subtree_is_visited_in_ascending_slot_order() {
    let mut space: CapSpace<Obj, 8> = CapSpace::new();
    let gap = space.insert(0, Rights::none()).unwrap();
    let root = space.insert(1, Rights::all()).unwrap();
    space.remove(gap);
    // the child lands below its parent.
    let child = space.mint(root, Rights::read()).unwrap();
    let mut visited = Vec::new();
    space.for_each_in_subtree(root, |r, cap| visited.push((r.slot(), cap.rights)));
    assert_eq!(visited, vec![(child.slot(), Rights::read()), (root.slot(), Rights::all())]);
}

#[test]
fn revoking_a_removed_root_still_reaches_its_children() {
    let mut space: CapSpace<Obj, 8> = CapSpace::new();
    let root = space.insert(1, Rights::all()).unwrap();
    let child = space.mint(root, Rights::all()).unwrap();
    let grandchild = space.mint(child, Rights::read()).unwrap();
    // the link to the root is still recorded in the child.
    space.remove(root);
    assert_eq!(space.revoke(root), 2);
    assert!(space.lookup(child).is_none());
    assert!(space.lookup(grandchild).is_none());
    assert_eq!(space.revoke(root), 0);
}
