use place_algebra::place::{Place, Projection, is_prefix};
use place_algebra::typing::{TypeOracle, TypeTree};
use place_algebra::expand::{expand, expand_struct_place};
use place_algebra::place_set::PlaceSet;
use place_algebra::collapse::collapse;
use place_algebra::normalize::{generalize, refine};

/// Root `x` is a struct with two fields: field 0 is a struct with two
/// atomic fields, field 1 is atomic.
fn two_level_oracle() -> TypeOracle {
    TypeOracle {
        locals: vec![TypeTree::Structure {
            fields: vec![
                TypeTree::Structure { fields: vec![TypeTree::Atomic, TypeTree::Atomic] },
                TypeTree::Atomic,
            ],
        }],
    }
}

/// Root `x` is a struct nested three levels deep, two fields at each level.
fn three_level_oracle() -> TypeOracle {
    TypeOracle {
        locals: vec![TypeTree::Structure {
            fields: vec![
                TypeTree::Structure {
                    fields: vec![
                        TypeTree::Structure { fields: vec![TypeTree::Atomic, TypeTree::Atomic] },
                        TypeTree::Atomic,
                    ],
                },
                TypeTree::Atomic,
            ],
        }],
    }
}

fn place(local: usize, fields: &[usize]) -> Place {
    let mut p = Place::new(local);
    for &f in fields {
        p = p.child(Projection::Field(f));
    }
    p
}

#[test]
fn is_prefix_reflexive_concrete() {
    let x = place(0, &[]);
    let xfg = place(0, &[0, 0]);
    assert!(is_prefix(&x, &x));
    assert!(is_prefix(&xfg, &xfg));
}

#[test]
fn is_prefix_scenarios() {
    let xf = place(0, &[0]);
    let xfg = place(0, &[0, 0]);
    let xk = place(0, &[1]);
    assert!(is_prefix(&xfg, &xf));
    assert!(!is_prefix(&xf, &xfg));
    assert!(!is_prefix(&xf, &xk));
    assert!(!is_prefix(&xk, &xf));
}

#[test]
fn is_prefix_other_root() {
    let x = place(0, &[0]);
    let y = place(1, &[0]);
    assert!(!is_prefix(&x, &y));
}

#[test]
fn expand_struct_place_struct_fields() {
    let oracle = two_level_oracle();
    let x = place(0, &[]);
    let all = expand_struct_place(&x, &oracle, None);
    assert_eq!(all.len(), 2);
    assert!(all[0].equals(&place(0, &[0])));
    assert!(all[1].equals(&place(0, &[1])));
    let without_first = expand_struct_place(&x, &oracle, Some(0));
    assert_eq!(without_first.len(), 1);
    assert!(without_first[0].equals(&place(0, &[1])));
    let without_absent = expand_struct_place(&x, &oracle, Some(5));
    assert_eq!(without_absent.len(), 2);
}

#[test]
fn expand_struct_place_reference() {
    let oracle = TypeOracle {
        locals: vec![TypeTree::Reference { target: Box::new(TypeTree::Atomic) }],
    };
    let x = place(0, &[]);
    let all = expand_struct_place(&x, &oracle, None);
    assert_eq!(all.len(), 1);
    assert!(all[0].equals(&x.child(Projection::Deref)));
    let omitted = expand_struct_place(&x, &oracle, Some(0));
    assert_eq!(omitted.len(), 0);
}

#[test]
fn expand_two_levels() {
    let oracle = two_level_oracle();
    let x = place(0, &[]);
    let xfg = place(0, &[0, 0]);
    let pieces = expand(&oracle, &x, &xfg);
    assert_eq!(pieces.len(), 2);
    assert!(pieces[0].equals(&place(0, &[1])));
    assert!(pieces[1].equals(&place(0, &[0, 1])));
}

#[test]
fn expand_equal_places_is_empty() {
    let oracle = two_level_oracle();
    let xf = place(0, &[0]);
    let pieces = expand(&oracle, &xf, &xf);
    assert_eq!(pieces.len(), 0);
}

#[test]
fn expand_through_reference_and_downcast() {
    let oracle = TypeOracle {
        locals: vec![TypeTree::Reference {
            target: Box::new(TypeTree::Enumeration {
                variants: vec![vec![TypeTree::Atomic, TypeTree::Atomic], vec![TypeTree::Atomic]],
            }),
        }],
    };
    let x = place(0, &[]);
    let deep = x
        .child(Projection::Deref)
        .child(Projection::Downcast(0))
        .child(Projection::Field(0));
    let pieces = expand(&oracle, &x, &deep);
    assert_eq!(pieces.len(), 1);
    let sibling = x
        .child(Projection::Deref)
        .child(Projection::Downcast(0))
        .child(Projection::Field(1));
    assert!(pieces[0].equals(&sibling));
}

#[test]
fn collapse_two_levels() {
    let oracle = two_level_oracle();
    let mut set = PlaceSet::new();
    set.insert(place(0, &[1]));
    set.insert(place(0, &[0, 1]));
    set.insert(place(0, &[0, 0]));
    let guide = place(0, &[0, 0]);
    collapse(&oracle, &mut set, &guide);
    assert_eq!(set.len(), 1);
    assert!(set.contains(&place(0, &[])));
}

#[test]
fn expand_collapse_round_trip() {
    let oracle = two_level_oracle();
    let x = place(0, &[]);
    let xfg = place(0, &[0, 0]);
    let pieces = expand(&oracle, &x, &xfg);
    let mut set = PlaceSet::new();
    for i in 0..pieces.len() {
        set.insert(pieces[i].duplicate());
    }
    set.insert(xfg.duplicate());
    collapse(&oracle, &mut set, &xfg);
    assert_eq!(set.len(), 1);
    assert!(set.contains(&x));
}

#[test]
fn collapse_missing_sibling_at_depth_one() {
    let oracle = three_level_oracle();
    let mut set = PlaceSet::new();
    set.insert(place(0, &[0, 0, 0]));
    set.insert(place(0, &[0, 0, 1]));
    set.insert(place(0, &[0, 1]));
    let guide = place(0, &[0, 0, 0]);
    collapse(&oracle, &mut set, &guide);
    assert_eq!(set.len(), 1);
    assert!(set.contains(&place(0, &[0])));
}

#[test]
fn collapse_missing_sibling_at_depth_two() {
    let oracle = three_level_oracle();
    let mut set = PlaceSet::new();
    set.insert(place(0, &[0, 0, 0]));
    set.insert(place(0, &[0, 0, 1]));
    set.insert(place(0, &[1]));
    let guide = place(0, &[0, 0, 0]);
    collapse(&oracle, &mut set, &guide);
    assert_eq!(set.len(), 2);
    assert!(set.contains(&place(0, &[0, 0])));
    assert!(set.contains(&place(0, &[1])));
    assert!(!set.contains(&place(0, &[0, 1])));
}

#[test]
fn collapse_missing_sibling_at_depth_three() {
    let oracle = three_level_oracle();
    let mut set = PlaceSet::new();
    set.insert(place(0, &[0, 0, 0]));
    set.insert(place(0, &[0, 1]));
    set.insert(place(0, &[1]));
    let guide = place(0, &[0, 0, 0]);
    collapse(&oracle, &mut set, &guide);
    assert_eq!(set.len(), 3);
    assert!(set.contains(&place(0, &[0, 0, 0])));
    assert!(set.contains(&place(0, &[0, 1])));
    assert!(set.contains(&place(0, &[1])));
}

#[test]
fn collapse_twice_gives_once() {
    let oracle = three_level_oracle();
    let mut set = PlaceSet::new();
    set.insert(place(0, &[0, 0, 0]));
    set.insert(place(0, &[0, 0, 1]));
    set.insert(place(0, &[1]));
    let guide = place(0, &[0, 0, 0]);
    collapse(&oracle, &mut set, &guide);
    assert_eq!(set.len(), 2);
    assert!(set.contains(&place(0, &[0, 0])));
    assert!(set.contains(&place(0, &[1])));
    collapse(&oracle, &mut set, &guide);
    assert_eq!(set.len(), 2);
    assert!(set.contains(&place(0, &[0, 0])));
    assert!(set.contains(&place(0, &[1])));
}

#[test]
fn collapse_empty_set_is_no_op() {
    let oracle = two_level_oracle();
    let mut set = PlaceSet::new();
    let guide = place(0, &[0]);
    collapse(&oracle, &mut set, &guide);
    assert_eq!(set.len(), 0);
}

#[test]
fn collapse_through_reference_and_downcast() {
    let oracle = TypeOracle {
        locals: vec![TypeTree::Reference {
            target: Box::new(TypeTree::Enumeration {
                variants: vec![vec![TypeTree::Atomic, TypeTree::Atomic], vec![TypeTree::Atomic]],
            }),
        }],
    };
    let deep0 = place(0, &[])
        .child(Projection::Deref)
        .child(Projection::Downcast(0))
        .child(Projection::Field(0));
    let deep1 = place(0, &[])
        .child(Projection::Deref)
        .child(Projection::Downcast(0))
        .child(Projection::Field(1));
    let mut set = PlaceSet::new();
    set.insert(deep0.duplicate());
    set.insert(deep1.duplicate());
    collapse(&oracle, &mut set, &deep0);
    assert_eq!(set.len(), 1);
    assert!(set.contains(&place(0, &[])));
}

#[test]
fn refine_splits_tracked_ancestor() {
    let oracle = two_level_oracle();
    let mut set = PlaceSet::new();
    set.insert(place(0, &[]));
    let target = place(0, &[0, 0]);
    refine(&oracle, &mut set, &target);
    assert_eq!(set.len(), 3);
    assert!(set.contains(&place(0, &[1])));
    assert!(set.contains(&place(0, &[0, 1])));
    assert!(set.contains(&place(0, &[0, 0])));
}

#[test]
fn refine_present_target_is_no_op() {
    let oracle = two_level_oracle();
    let mut set = PlaceSet::new();
    set.insert(place(0, &[0, 0]));
    let target = place(0, &[0, 0]);
    refine(&oracle, &mut set, &target);
    assert_eq!(set.len(), 1);
    assert!(set.contains(&place(0, &[0, 0])));
}

#[test]
fn refine_without_ancestor_is_no_op() {
    let oracle = two_level_oracle();
    let mut set = PlaceSet::new();
    set.insert(place(0, &[1]));
    let target = place(0, &[0, 0]);
    refine(&oracle, &mut set, &target);
    assert_eq!(set.len(), 1);
    assert!(set.contains(&place(0, &[1])));
}

#[test]
fn generalize_collapses_complete_siblings() {
    let oracle = two_level_oracle();
    let mut set = PlaceSet::new();
    set.insert(place(0, &[0, 0]));
    set.insert(place(0, &[0, 1]));
    set.insert(place(0, &[1]));
    let guide = place(0, &[0, 0]);
    generalize(&oracle, &mut set, &guide);
    assert_eq!(set.len(), 1);
    assert!(set.contains(&place(0, &[])));
}

#[test]
fn place_set_deduplicates() {
    let mut set = PlaceSet::new();
    set.insert(place(0, &[0]));
    set.insert(place(0, &[0]));
    assert_eq!(set.len(), 1);
    set.remove(&place(0, &[0]));
    assert_eq!(set.len(), 0);
    assert!(!set.contains(&place(0, &[0])));
}
