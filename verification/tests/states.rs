use sp_state::{
    AssignStateValue, Delay, SPError, SPPath, SPState, SPValue, StateProjection, StateValue,
    ToSPValue,
};

fn sample() -> SPState {
    SPState::new_from_values(&[
        (SPPath::from_slice(&["a", "b"]), 2.to_spvalue()),
        (SPPath::from_slice(&["a", "c"]), true.to_spvalue()),
        (SPPath::from_slice(&["k", "l"]), true.to_spvalue()),
    ])
}

#[test]
fn create_state() {
    let ab = SPPath::from_slice(&["a", "b"]);
    let ac = SPPath::from_slice(&["a", "c"]);
    let kl = SPPath::from_slice(&["k", "l"]);
    let s = sample();
    let s2 = SPState::new_from_values(&[
        (ab.clone(), 2.to_spvalue()),
        (ac.clone(), true.to_spvalue()),
        (kl.clone(), true.to_spvalue()),
    ]);
    println!("s proj {:?}", s.projection());
    println!("s2 proj {:?}", s2.projection());

    assert_eq!(s, s2);
}

#[test]
fn get_value() {
    let s = sample();

    let v = SPPath::from_slice(&["a", "b"]);
    let res = s.sp_value_from_path(&v);

    assert_eq!(res, Some(&2.to_spvalue()));
}

#[test]
fn next() {
    let mut s = sample();
    let v = &SPPath::from_slice(&["a", "b"]);
    let state_path = s.state_path(v).unwrap();
    let x = s.next(&state_path, 5.to_spvalue());
    assert_eq!(Ok(()), x);

    let x = s.next(&state_path, 5.to_spvalue());
    assert!(x.is_err());

    println!("{:?}", x);
    println!("{:?}", s);
}

#[test]
fn take_all_next() {
    let s = sample();
    let ab = &SPPath::from_slice(&["a", "b"]);
    let ac = &SPPath::from_slice(&["a", "c"]);
    let p_ab = s.state_path(ab).unwrap();
    let p_ac = s.state_path(ac).unwrap();
    assert_eq!(s.sp_value(&p_ab), Some(&SPValue::Int32(2)));
    assert_eq!(s.sp_value(&p_ac), Some(&SPValue::Bool(true)));
}

fn path(segments: &[&str]) -> SPPath {
    SPPath::from_slice(segments)
}

#[test]
fn proposals_commits_and_delays_in_turn() {
    let mut s = sample();
    let ab = path(&["a", "b"]);
    let h = s.state_path(&ab).unwrap();

    assert_eq!(s.assign(&h, AssignStateValue::SPValue(5.to_spvalue())), Ok(()));
    assert_eq!(
        s.assign(&h, AssignStateValue::SPValue(6.to_spvalue())),
        Err(SPError::OverwritePendingNext)
    );
    assert_eq!(s.sp_value(&h), Some(&SPValue::Int32(2)));
    s.take_transition();
    assert_eq!(s.sp_value(&h), Some(&SPValue::Int32(5)));

    assert_eq!(s.force(&h, 10.to_spvalue()), Ok(()));
    assert_eq!(s.sp_value(&h), Some(&SPValue::Int32(10)));
    assert_eq!(
        s.state_value(&h).unwrap().previous_value(),
        &Some(SPValue::Int32(5))
    );

    assert_eq!(s.assign(&h, AssignStateValue::Delay(0.to_spvalue(), 1000)), Ok(()));
    assert_eq!(s.sp_value(&h), Some(&SPValue::Int32(10)));
    assert_eq!(s.state_value(&h).unwrap().next_value(), &None);
    assert_eq!(s.assign(&h, AssignStateValue::CompleteDelay), Ok(()));
    assert_eq!(
        s.state_value(&h).unwrap().next_value(),
        &Some(SPValue::Int32(0))
    );
    assert_eq!(s.state_value(&h).unwrap().delay(), &None);
    s.take_transition();
    assert_eq!(s.sp_value(&h), Some(&SPValue::Int32(0)));
    assert_eq!(
        s.state_value(&h).unwrap().previous_value(),
        &Some(SPValue::Int32(10))
    );
}

#[test]
fn added_variable_is_read_back() {
    let mut s = SPState::new();
    s.add_variable(path(&["x"]), 7.to_spvalue());
    s.add_variable(path(&["y", "z"]), false.to_spvalue());
    let hx = s.state_path(&path(&["x"])).unwrap();
    let hyz = s.state_path(&path(&["y", "z"])).unwrap();
    assert_eq!(hx.index(), 0);
    assert_eq!(hyz.index(), 1);
    assert_eq!(hx.path(), &path(&["x"]));
    assert_eq!(hx.state_id(), s.id());
    assert_eq!(s.sp_value(&hx), Some(&SPValue::Int32(7)));
    assert_eq!(s.sp_value(&hyz), Some(&SPValue::Bool(false)));
    assert_eq!(s.state_value(&hx), Some(&StateValue::new(SPValue::Int32(7))));
    assert_eq!(s.len(), 2);
    assert_eq!(s.sp_value_from_index(1), &SPValue::Bool(false));
    assert_eq!(s.state_value_from_index(0), &StateValue::new(SPValue::Int32(7)));
    assert!(s.state_path(&path(&["y"])).is_none());
    assert_eq!(s.sp_value_from_path(&path(&["y"])), None);
    assert_eq!(s.state_value_from_path(&path(&["nothing"])), None);
}

#[test]
fn update_keeps_slot_and_generation() {
    let mut s = sample();
    let id = s.id();
    let h = s.state_path(&path(&["a", "c"])).unwrap();
    s.add_variable(path(&["a", "c"]), false.to_spvalue());
    assert_eq!(s.id(), id);
    assert!(s.check_state_path(&h));
    assert_eq!(s.sp_value(&h), Some(&SPValue::Bool(false)));
    assert_eq!(s.state_path(&path(&["a", "c"])).unwrap().index(), 1);
    assert_eq!(s.projection().projection.len(), 3);
}

#[test]
fn stale_handle_reads_but_does_not_write() {
    let mut s = sample();
    let h = s.state_path(&path(&["a", "b"])).unwrap();
    let id = s.id();
    s.add_variable(path(&["new"]), 1.to_spvalue());
    assert_ne!(s.id(), id);
    assert!(!s.check_state_path(&h));
    assert!(!s.next_is_allowed(&h));
    assert_eq!(s.next(&h, 3.to_spvalue()), Err(SPError::StaleHandle));
    assert_eq!(s.force(&h, 3.to_spvalue()), Err(SPError::StaleHandle));
    assert_eq!(
        s.assign(&h, AssignStateValue::CancelDelay),
        Err(SPError::StaleHandle)
    );
    assert_eq!(s.sp_value(&h), Some(&SPValue::Int32(2)));
    assert_eq!(s.state_value(&h), Some(&StateValue::new(SPValue::Int32(2))));

    let fresh = s.state_path(&path(&["a", "b"])).unwrap();
    assert_eq!(fresh.index(), h.index());
    assert_eq!(s.next(&fresh, 3.to_spvalue()), Ok(()));
}

#[test]
fn stale_handle_of_a_lost_path_reads_nothing() {
    let mut s = sample();
    let h = s.state_path(&path(&["k", "l"])).unwrap();
    s.prefix_paths(&path(&["top"]));
    assert_eq!(s.state_value(&h), None);
    assert_eq!(s.sp_value(&h), None);
    assert_eq!(
        s.sp_value_from_path(&path(&["top", "k", "l"])),
        Some(&SPValue::Bool(true))
    );
}

#[test]
fn next_from_path_resolves_first() {
    let mut s = sample();
    assert_eq!(s.next_from_path(&path(&["a", "b"]), 9.to_spvalue()), Ok(()));
    assert_eq!(
        s.next_from_path(&path(&["a", "b"]), 9.to_spvalue()),
        Err(SPError::OverwritePendingNext)
    );
    assert_eq!(
        s.next_from_path(&path(&["a"]), 9.to_spvalue()),
        Err(SPError::ResolutionError)
    );
    let cell = s.state_value_from_path(&path(&["a", "b"])).unwrap();
    assert_eq!(cell.current_value(), &SPValue::Int32(2));
    assert_eq!(cell.value(), &SPValue::Int32(9));
    assert!(cell.has_next());
}

#[test]
fn commit_touches_every_cell() {
    let mut s = sample();
    let ab = s.state_path(&path(&["a", "b"])).unwrap();
    let ac = s.state_path(&path(&["a", "c"])).unwrap();
    let kl = s.state_path(&path(&["k", "l"])).unwrap();
    s.next(&ab, 5.to_spvalue()).unwrap();
    s.assign(&ac, AssignStateValue::Delay(false.to_spvalue(), 1000)).unwrap();
    let id = s.id();
    s.take_transition();
    assert_eq!(s.id(), id);

    let cell = s.state_value(&ab).unwrap();
    assert_eq!(cell.current_value(), &SPValue::Int32(5));
    assert_eq!(cell.previous_value(), &Some(SPValue::Int32(2)));
    assert_eq!(cell.next_value(), &None);

    let cell = s.state_value(&ac).unwrap();
    assert_eq!(cell.current_value(), &SPValue::Bool(true));
    assert_eq!(
        cell.delay(),
        &Some(Delay {
            next_value: SPValue::Bool(false),
            millis: 1000,
            has_been_spawned: true
        })
    );

    assert_eq!(
        s.state_value(&kl),
        Some(&StateValue::new(SPValue::Bool(true)))
    );
}

#[test]
fn next_map_is_all_or_nothing() {
    let mut s = sample();
    let ab = s.state_path(&path(&["a", "b"])).unwrap();
    let ac = s.state_path(&path(&["a", "c"])).unwrap();
    let kl = s.state_path(&path(&["k", "l"])).unwrap();
    s.next(&kl, false.to_spvalue()).unwrap();

    let refused = s.next_map(vec![
        (ab.clone(), 1.to_spvalue()),
        (kl.clone(), true.to_spvalue()),
    ]);
    assert!(!refused);
    assert!(!s.state_value(&ab).unwrap().has_next());

    let made = s.next_map(vec![
        (ab.clone(), 1.to_spvalue()),
        (ac.clone(), false.to_spvalue()),
    ]);
    assert!(made);
    assert_eq!(s.state_value(&ab).unwrap().next_value(), &Some(SPValue::Int32(1)));
    assert_eq!(s.state_value(&ac).unwrap().next_value(), &Some(SPValue::Bool(false)));
    assert_eq!(s.state_value(&ab).unwrap().current_value(), &SPValue::Int32(2));
    assert_eq!(s.state_value(&kl).unwrap().next_value(), &Some(SPValue::Bool(false)));
    let before = s.clone();
    assert!(s.next_map(Vec::new()));
    assert_eq!(s, before);
}

#[test]
fn next_map_refuses_two_proposals_for_one_variable() {
    let mut s = sample();
    let ab = s.state_path(&path(&["a", "b"])).unwrap();
    let ac = s.state_path(&path(&["a", "c"])).unwrap();
    let before = s.clone();
    let refused = s.next_map(vec![
        (ab.clone(), 1.to_spvalue()),
        (ac.clone(), false.to_spvalue()),
        (ab.clone(), 2.to_spvalue()),
    ]);
    assert!(!refused);
    assert_eq!(s, before);
    assert!(!s.state_value(&ab).unwrap().has_next());
    assert!(!s.state_value(&ac).unwrap().has_next());

    let same_twice = s.next_map(vec![(ab.clone(), 1.to_spvalue()), (ab.clone(), 1.to_spvalue())]);
    assert!(!same_twice);
    assert_eq!(s, before);

    assert!(s.next_map(vec![(ab.clone(), 1.to_spvalue())]));
    assert_eq!(s.state_value(&ab).unwrap().next_value(), &Some(SPValue::Int32(1)));
}

#[test]
fn next_map_refuses_stale_and_delayed() {
    let mut s = sample();
    let ab = s.state_path(&path(&["a", "b"])).unwrap();
    let ac = s.state_path(&path(&["a", "c"])).unwrap();
    s.assign(&ac, AssignStateValue::Delay(false.to_spvalue(), 5)).unwrap();
    let before = s.clone();
    assert!(!s.next_map(vec![(ab.clone(), 1.to_spvalue()), (ac.clone(), true.to_spvalue())]));
    assert_eq!(s, before);
    s.add_variable(path(&["new"]), 0.to_spvalue());
    let before = s.clone();
    assert!(!s.next_map(vec![(ab.clone(), 1.to_spvalue())]));
    assert_eq!(s, before);
}

#[test]
fn equality_ignores_order_slots_and_generation() {
    let s = sample();
    let t = SPState::new_from_values(&[
        (path(&["k", "l"]), true.to_spvalue()),
        (path(&["a", "c"]), true.to_spvalue()),
        (path(&["a", "b"]), 2.to_spvalue()),
    ]);
    assert_ne!(s.id(), t.id());
    assert_eq!(s.state_path(&path(&["a", "b"])).unwrap().index(), 0);
    assert_eq!(t.state_path(&path(&["a", "b"])).unwrap().index(), 2);
    assert_eq!(s, t);
    assert_eq!(s.projection(), t.projection());

    let mut u = t.clone();
    assert_eq!(u, t);
    assert_eq!(u.id(), t.id());
    u.add_variable(path(&["a", "b"]), 3.to_spvalue());
    assert_ne!(u, t);

    let mut v = sample();
    let h = v.state_path(&path(&["a", "b"])).unwrap();
    v.next(&h, 2.to_spvalue()).unwrap();
    assert_ne!(v, s);
}

#[test]
fn duplicate_pairs_update_in_turn() {
    let s = SPState::new_from_values(&[
        (path(&["a"]), 1.to_spvalue()),
        (path(&["b"]), 2.to_spvalue()),
        (path(&["a"]), 3.to_spvalue()),
    ]);
    assert_eq!(s.projection().projection.len(), 2);
    assert_eq!(s.sp_value_from_path(&path(&["a"])), Some(&SPValue::Int32(3)));
    assert_eq!(s.state_path(&path(&["a"])).unwrap().index(), 0);
    assert_eq!(s.state_path(&path(&["b"])).unwrap().index(), 1);
}

#[test]
fn projection_is_sorted_by_string_form() {
    let s = SPState::new_from_values(&[
        (path(&["k", "l"]), 1.to_spvalue()),
        (path(&["a", "b"]), 2.to_spvalue()),
        (path(&["a!"]), 3.to_spvalue()),
        (path(&["a"]), 4.to_spvalue()),
        (path(&["a", "b", "c"]), 5.to_spvalue()),
        (path(&["B"]), 6.to_spvalue()),
    ]);
    let listing = s.projection();
    assert_eq!(listing.id, s.id());
    let texts: Vec<String> = listing
        .projection
        .iter()
        .map(|entry| entry.0.to_string())
        .collect();
    assert_eq!(texts, vec!["B", "a", "a!", "a/b", "a/b/c", "k/l"]);
    let values: Vec<SPValue> = listing
        .clone_vec_value()
        .into_iter()
        .map(|pair| pair.1)
        .collect();
    assert_eq!(
        values,
        vec![
            SPValue::Int32(6),
            SPValue::Int32(4),
            SPValue::Int32(3),
            SPValue::Int32(2),
            SPValue::Int32(5),
            SPValue::Int32(1)
        ]
    );
}

#[test]
fn paths_with_one_string_form_are_told_apart() {
    let joined = path(&["a/b"]);
    let split = path(&["a", "b"]);
    assert_eq!(joined.to_string(), split.to_string());
    let s = SPState::new_from_values(&[
        (joined.clone(), 1.to_spvalue()),
        (split.clone(), 2.to_spvalue()),
    ]);
    let t = SPState::new_from_values(&[
        (split.clone(), 2.to_spvalue()),
        (joined.clone(), 1.to_spvalue()),
    ]);
    assert_eq!(s, t);
    let listing = s.projection();
    assert_eq!(listing.projection[0].0, &split);
    assert_eq!(listing.projection[1].0, &joined);
    let swapped = SPState::new_from_values(&[
        (joined.clone(), 2.to_spvalue()),
        (split.clone(), 1.to_spvalue()),
    ]);
    assert_ne!(s, swapped);
}

#[test]
fn sub_state_projection_lists_strict_descendants_only() {
    let s = SPState::new_from_values(&[
        (path(&["a", "x"]), true.to_spvalue()),
        (path(&["a", "b", "x"]), false.to_spvalue()),
        (path(&["a", "b"]), 1.to_spvalue()),
        (path(&["a", "b", "c"]), false.to_spvalue()),
        (path(&["a", "bb", "c"]), 2.to_spvalue()),
        (path(&["b"]), 3.to_spvalue()),
    ]);
    let keys = |listing: &StateProjection| -> Vec<String> {
        listing
            .projection
            .iter()
            .map(|entry| entry.0.to_string())
            .collect()
    };
    assert_eq!(
        keys(&s.sub_state_projection(&path(&["a", "b"]))),
        vec!["a/b/c", "a/b/x"]
    );
    assert_eq!(
        keys(&s.sub_state_projection(&path(&["a"]))),
        vec!["a/b", "a/b/c", "a/b/x", "a/bb/c", "a/x"]
    );
    assert!(keys(&s.sub_state_projection(&path(&["a", "b", "c"]))).is_empty());
    assert!(keys(&s.sub_state_projection(&path(&["c"]))).is_empty());
    assert_eq!(keys(&s.sub_state_projection(&SPPath::new())).len(), 6);
    let part = s.sub_state_projection(&path(&["a", "b"]));
    assert_eq!(part.id, s.id());
    assert_eq!(
        part.projection[0].1,
        &StateValue::new(SPValue::Bool(false))
    );
}

#[test]
fn sub_state_comparison() {
    let a = path(&["a"]);
    let ab = path(&["a", "b"]);
    let ax = path(&["a", "x"]);
    let abc = path(&["a", "b", "c"]);
    let abx = path(&["a", "b", "x"]);
    let s = SPState::new_from_values(&[
        (abc.clone(), false.to_spvalue()),
        (abx.clone(), false.to_spvalue()),
        (ax.clone(), true.to_spvalue()),
    ]);
    let mut s2 = s.clone();
    assert!(s.is_sub_state_the_same(&s2, &ab));
    s2.add_variable(ax.clone(), false.to_spvalue());
    assert!(s.is_sub_state_the_same(&s2, &ab));
    assert!(!s.is_sub_state_the_same(&s2, &a));
    s2.add_variable(abc.clone(), true.to_spvalue());
    assert!(!s.is_sub_state_the_same(&s2, &ab));

    let smaller = SPState::new_from_values(&[(abc.clone(), false.to_spvalue())]);
    assert!(!s.is_sub_state_the_same(&smaller, &ab));
    assert!(smaller.is_sub_state_the_same(&s, &ab));
    assert!(s.is_sub_state_the_same(&smaller, &abc));

    let mut pending = s.clone();
    let h = pending.state_path(&abc).unwrap();
    pending.next(&h, true.to_spvalue()).unwrap();
    assert!(s.is_sub_state_the_same(&pending, &ab));
}

#[test]
fn prefix_paths_rekeys_every_variable() {
    let mut s = sample();
    let id = s.id();
    let h = s.state_path(&path(&["a", "b"])).unwrap();
    s.prefix_paths(&path(&["r", "s"]));
    assert_ne!(s.id(), id);
    assert!(!s.check_state_path(&h));
    assert!(s.state_path(&path(&["a", "b"])).is_none());
    let moved = s.state_path(&path(&["r", "s", "a", "b"])).unwrap();
    assert_eq!(moved.index(), 0);
    assert_eq!(s.sp_value(&moved), Some(&SPValue::Int32(2)));
    let expected = SPState::new_from_values(&[
        (path(&["r", "s", "a", "b"]), 2.to_spvalue()),
        (path(&["r", "s", "a", "c"]), true.to_spvalue()),
        (path(&["r", "s", "k", "l"]), true.to_spvalue()),
    ]);
    assert_eq!(s, expected);

    let mut empty = SPState::new();
    let id = empty.id();
    empty.prefix_paths(&path(&["r"]));
    assert_ne!(empty.id(), id);
}

#[test]
fn extract_and_extend() {
    let mut s = sample();
    let h = s.state_path(&path(&["a", "b"])).unwrap();
    s.next(&h, 8.to_spvalue()).unwrap();
    let pairs = s.clone().extract();
    assert_eq!(pairs.len(), 3);
    assert_eq!(pairs[0].0, path(&["a", "b"]));
    assert_eq!(pairs[0].1.next_value(), &Some(SPValue::Int32(8)));
    assert_eq!(pairs[2].0, path(&["k", "l"]));

    let mut t = SPState::new_from_values(&[
        (path(&["k", "l"]), false.to_spvalue()),
        (path(&["z"]), 0.to_spvalue()),
    ]);
    let id = t.id();
    t.extend(s.clone());
    assert_ne!(t.id(), id);
    assert_eq!(t.state_path(&path(&["k", "l"])).unwrap().index(), 0);
    assert_eq!(t.state_path(&path(&["z"])).unwrap().index(), 1);
    assert_eq!(t.state_path(&path(&["a", "b"])).unwrap().index(), 2);
    assert_eq!(t.sp_value_from_path(&path(&["k", "l"])), Some(&SPValue::Bool(true)));
    assert_eq!(
        t.state_value_from_path(&path(&["a", "b"])).unwrap().next_value(),
        &Some(SPValue::Int32(8))
    );

    let id = t.id();
    t.extend(s);
    assert_eq!(t.id(), id);

    let mut u = SPState::new();
    u.add_state_variables(pairs);
    assert_eq!(u.state_value_from_path(&path(&["a", "b"])).unwrap().value(), &SPValue::Int32(8));
    let id = u.id();
    u.add_variables(vec![(path(&["a", "b"]), 1.to_spvalue())]);
    assert_eq!(u.id(), id);
    u.add_variables(vec![(path(&["a", "b"]), 1.to_spvalue()), (path(&["q"]), 1.to_spvalue())]);
    assert_ne!(u.id(), id);
    assert_eq!(u.add_variables(Vec::new()), ());
}

#[test]
fn projection_copies() {
    let mut s = sample();
    let h = s.state_path(&path(&["k", "l"])).unwrap();
    s.next(&h, false.to_spvalue()).unwrap();
    let listing = s.projection();
    let copy = listing.clone_state();
    assert_eq!(copy, s);
    assert_ne!(copy.id(), s.id());
    let pairs = listing.clone_vec();
    assert_eq!(pairs.len(), 3);
    assert_eq!(pairs[2].0, path(&["k", "l"]));
    assert_eq!(pairs[2].1.next_value(), &Some(SPValue::Bool(false)));
    assert_eq!(listing.clone(), listing);
    assert_eq!(listing.clone().id, s.id());
    assert_ne!(listing, copy.sub_state_projection(&path(&["a"])));
    let values = listing.clone_vec_value();
    assert_eq!(values[0], (path(&["a", "b"]), SPValue::Int32(2)));
    assert_eq!(values[2], (path(&["k", "l"]), SPValue::Bool(false)));
}

#[test]
fn empty_states() {
    let s = SPState::new();
    let d = SPState::default();
    assert_eq!(s, d);
    assert_eq!(s, SPState::new_from_values(&[]));
    assert_eq!(s, SPState::new_from_state_values(&[]));
    assert_eq!(s.len(), 0);
    assert!(s.projection().projection.is_empty());
    assert!(s.clone().extract().is_empty());
    assert!(s.is_sub_state_the_same(&d, &SPPath::new()));
    assert_ne!(s, sample());
}

#[test]
fn state_from_cells_keeps_what_is_in_flight() {
    let mut cell = StateValue::new(1.to_spvalue());
    assert!(cell.next(2.to_spvalue()));
    let s = SPState::new_from_state_values(&[(path(&["a"]), cell.clone())]);
    assert_eq!(s.state_value_from_path(&path(&["a"])), Some(&cell));
    let h = s.state_path(&path(&["a"])).unwrap();
    assert!(!s.next_is_allowed(&h));
    let mut t = s.clone();
    assert_eq!(t.next(&h, 3.to_spvalue()), Err(SPError::OverwritePendingNext));
}

#[test]
fn allowed_requests_through_handles() {
    let mut s = sample();
    let h = s.state_path(&path(&["a", "b"])).unwrap();
    assert!(s.next_is_allowed(&h));
    assert!(s.is_allowed(&h, &AssignStateValue::SPValue(1.to_spvalue())));
    assert!(!s.is_allowed(&h, &AssignStateValue::CompleteDelay));
    s.next(&h, 1.to_spvalue()).unwrap();
    assert!(!s.next_is_allowed(&h));
    assert!(!s.is_allowed(&h, &AssignStateValue::Delay(1.to_spvalue(), 1)));
    assert!(s.is_allowed(&h, &AssignStateValue::Force(1.to_spvalue())));
    s.add_variable(path(&["new"]), 1.to_spvalue());
    assert!(!s.is_allowed(&h, &AssignStateValue::Force(1.to_spvalue())));
}

#[test]
fn paths_key_hash_maps() {
    let mut map = std::collections::HashMap::new();
    map.insert(path(&["a", "b"]), 1);
    map.insert(path(&["a/b"]), 2);
    map.insert(path(&["a", "b"]), 3);
    assert_eq!(map.len(), 2);
    assert_eq!(map.get(&path(&["a", "b"])), Some(&3));
}
