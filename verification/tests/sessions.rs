use vgc_netwatch::sessions::{SessionChange, Sessions};

fn told(changes: &Vec<SessionChange>) -> Vec<(char, u32, i32)> {
    changes
        .iter()
        .map(|c| match c {
            SessionChange::Started { pid, session } => ('+', *pid, *session),
            SessionChange::Exited { pid, session } => ('-', *pid, *session),
        })
        .collect()
}

#[test]
fn sessions_count_up() {
    let mut s = Sessions::new();
    assert_eq!(told(&s.observe(&vec![30, 10])), vec![('+', 30, 1), ('+', 10, 2)]);
    assert_eq!(told(&s.observe(&vec![10, 30])), vec![]);
    assert_eq!(told(&s.observe(&vec![20, 10])), vec![('+', 20, 3), ('-', 30, 1)]);
    assert_eq!(told(&s.observe(&vec![30])), vec![('+', 30, 4), ('-', 10, 2), ('-', 20, 3)]);
    assert_eq!(told(&s.observe(&vec![])), vec![('-', 30, 4)]);
    assert_eq!(told(&s.observe(&vec![])), vec![]);
}

#[test]
fn there_is_room_for_sessions() {
    let mut s = Sessions::new();
    assert!(s.has_room(&vec![]));
    assert!(s.has_room(&vec![1, 2, 3]));
    s.observe(&vec![1]);
    assert!(s.has_room(&vec![1, 2]));
}
