use mill_core::contacts::{sort_ball_ball_contacts, sort_ball_wall_contacts};

#[test]
fn ball_ball_contacts_come_out_in_key_order() {
    let entries = vec![(3, 7, 0.5f32), (1, 9, 0.25), (3, 4, 1.0), (0, 2, 2.0), (1, 2, 0.0)];
    assert_eq!(
        sort_ball_ball_contacts(entries),
        vec![(0, 2, 2.0), (1, 2, 0.0), (1, 9, 0.25), (3, 4, 1.0), (3, 7, 0.5)]
    );
}

#[test]
fn ball_ball_contact_order_does_not_depend_on_the_input_order() {
    let mut entries: Vec<(u32, u32, f32)> = Vec::new();
    for i in 0..12u32 {
        for j in (i + 1)..12 {
            if (i * 7 + j * 3) % 5 != 0 {
                entries.push((i, j, (i * 100 + j) as f32));
            }
        }
    }
    let sorted = sort_ball_ball_contacts(entries.clone());
    let mut reversed = entries.clone();
    reversed.reverse();
    let mut rotated = entries.clone();
    rotated.rotate_left(17);
    assert_eq!(sort_ball_ball_contacts(reversed), sorted);
    assert_eq!(sort_ball_ball_contacts(rotated), sorted);
    assert_eq!(sorted.len(), entries.len());
    for w in sorted.windows(2) {
        assert!((w[0].0, w[0].1) < (w[1].0, w[1].1));
    }
}

#[test]
fn ball_wall_contacts_come_out_in_index_order() {
    let entries = vec![(5, 0.5f32), (2, 1.5), (9, 0.0), (0, 3.0)];
    assert_eq!(
        sort_ball_wall_contacts(entries),
        vec![(0, 3.0), (2, 1.5), (5, 0.5), (9, 0.0)]
    );
    assert!(sort_ball_wall_contacts(Vec::<(u32, f32)>::new()).is_empty());
}
