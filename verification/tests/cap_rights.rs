use jos_core::cap_rights::Rights;

// ---- contains / intersects ---------------------------------------------

#[test]
fn contains_self_is_true() {
    let r = Rights::read_write();
    assert!(r.contains(r));
}

#[test]
fn contains_subset_is_true() {
    assert!(Rights::all().contains(Rights::read()));
    assert!(Rights::all().contains(Rights::write()));
    assert!(Rights::all().contains(Rights::grant()));
    assert!(Rights::all().contains(Rights::grant_reply()));
    assert!(Rights::read_write().contains(Rights::read()));
    assert!(Rights::read_write().contains(Rights::write()));
}

#[test]
fn contains_superset_is_false() {
    assert!(!Rights::read().contains(Rights::read_write()));
    assert!(!Rights::none().contains(Rights::read()));
}

#[test]
fn contains_none_is_always_true() {
    // the empty set is a subset of every set.
    assert!(Rights::none().contains(Rights::none()));
    assert!(Rights::read().contains(Rights::none()));
    assert!(Rights::all().contains(Rights::none()));
}

#[test]
fn intersects_overlapping_is_true() {
    assert!(Rights::read_write().intersects(Rights::read()));
    assert!(Rights::all().intersects(Rights::grant()));
}

#[test]
fn intersects_disjoint_is_false() {
    assert!(!Rights::read().intersects(Rights::write()));
    assert!(!Rights::grant().intersects(Rights::grant_reply()));
    assert!(!Rights::none().intersects(Rights::all()));
}

// ---- union / intersection ----------------------------------------------

#[test]
fn union_combines_bits() {
    let r = Rights::read().union(Rights::write());
    assert_eq!(r, Rights::read_write());
}

#[test]
fn union_with_none_is_identity() {
    assert_eq!(Rights::read_write().union(Rights::none()), Rights::read_write());
}

#[test]
fn union_with_all_is_all() {
    assert_eq!(Rights::read().union(Rights::all()), Rights::all());
}

#[test]
fn intersection_common_bits() {
    let a = Rights::read().union(Rights::grant());
    let b = Rights::read().union(Rights::write());
    assert_eq!(a.intersection(b), Rights::read());
}

#[test]
fn intersection_with_none_is_empty() {
    assert_eq!(Rights::all().intersection(Rights::none()), Rights::none());
    assert!(Rights::all().intersection(Rights::none()).is_empty());
}

#[test]
fn intersection_with_all_is_identity() {
    assert_eq!(Rights::read_write().intersection(Rights::all()), Rights::read_write());
}

// ---- attenuate ---------------------------------------------------------

#[test]
fn attenuate_reduces_to_mask() {
    // send-only attenuated by read-only gives empty.
    assert_eq!(Rights::write().attenuate(Rights::read()), Rights::none());
}

#[test]
fn attenuate_all_by_read_gives_read() {
    assert_eq!(Rights::all().attenuate(Rights::read()), Rights::read());
}

#[test]
fn attenuate_by_none_gives_empty() {
    assert_eq!(Rights::all().attenuate(Rights::none()), Rights::none());
    assert_eq!(Rights::read_write().attenuate(Rights::none()), Rights::none());
}

#[test]
fn attenuate_by_all_is_identity() {
    assert_eq!(Rights::read_write().attenuate(Rights::all()), Rights::read_write());
}

#[test]
fn attenuate_result_subset_of_self() {
    let result = Rights::all().attenuate(Rights::read_write());
    assert!(Rights::all().contains(result));
}

#[test]
fn attenuate_result_subset_of_mask() {
    let result = Rights::all().attenuate(Rights::read_write());
    assert!(Rights::read_write().contains(result));
}

#[test]
fn attenuate_is_idempotent() {
    let a = Rights::all();
    let b = Rights::read_write();
    let once = a.attenuate(b);
    let twice = once.attenuate(b);
    assert_eq!(once, twice);
}

#[test]
fn attenuate_commutes() {
    let a = Rights::all();
    let b = Rights::read();
    assert_eq!(a.attenuate(b), b.attenuate(a));
}

// ---- empty / all edge cases --------------------------------------------

#[test]
fn empty_is_empty() {
    assert!(Rights::empty().is_empty());
    assert_eq!(Rights::empty(), Rights::none());
    assert_eq!(Rights::empty().bits(), 0);
}

#[test]
fn all_is_not_empty() {
    assert!(!Rights::all().is_empty());
    assert_eq!(Rights::all(), Rights::all());
}

#[test]
fn all_contains_every_defined_right() {
    assert!(Rights::all().contains(Rights::read()));
    assert!(Rights::all().contains(Rights::write()));
    assert!(Rights::all().contains(Rights::grant()));
    assert!(Rights::all().contains(Rights::grant_reply()));
}

// ---- from_bits_truncate ------------------------------------------------

#[test]
fn from_bits_truncate_drops_high_bits() {
    // bit 4 and above must be stripped.
    let r = Rights::from_bits_truncate(0b1111_0001);
    assert_eq!(r, Rights::read());
    assert_eq!(r.bits(), 0x01);
}

#[test]
fn from_bits_truncate_preserves_valid_bits() {
    let r = Rights::from_bits_truncate(0b0000_1111);
    assert_eq!(r, Rights::all());
}

#[test]
fn from_bits_truncate_zero_is_none() {
    assert_eq!(Rights::from_bits_truncate(0), Rights::none());
}

// ---- chained operations ------------------------------------------------

#[test]
fn const_eval_works() {
    let r: Rights = Rights::read().union(Rights::write());
    let a: Rights = Rights::all().attenuate(r);
    let c: bool = a.contains(Rights::read());
    let e: bool = a.is_empty();

    assert_eq!(r, Rights::read_write());
    assert_eq!(a, Rights::read_write());
    assert!(c);
    assert!(!e);
}

#[test]
fn bits_are_as_defined() {
    assert_eq!(Rights::none().bits(), 0);
    assert_eq!(Rights::read().bits(), 1);
    assert_eq!(Rights::write().bits(), 2);
    assert_eq!(Rights::grant().bits(), 4);
    assert_eq!(Rights::grant_reply().bits(), 8);
    assert_eq!(Rights::read_write().bits(), 3);
    assert_eq!(Rights::all().bits(), 15);
}

#[test]
fn contains_is_transitive_on_every_triple() {
    for a in 0..16u8 {
        for b in 0..16u8 {
            for c in 0..16u8 {
                let (a, b, c) = (
                    Rights::from_bits_truncate(a),
                    Rights::from_bits_truncate(b),
                    Rights::from_bits_truncate(c),
                );
                if a.contains(b) && b.contains(c) {
                    assert!(a.contains(c));
                }
                assert_eq!(a.attenuate(b), b.attenuate(a));
                assert_eq!(a.attenuate(b).attenuate(b), a.attenuate(b));
            }
        }
    }
}
