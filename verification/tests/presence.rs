use chat_gateway::presence::{ChannelMembers, PresenceRegistry};

fn s(x: &str) -> String {
    x.to_string()
}

#[test]
fn first_join_is_new_second_is_not() {
    let mut members = ChannelMembers::new();
    let (snapshot, was_new) = members.join(&s("alice"));
    assert!(was_new);
    assert_eq!(snapshot, vec![s("alice")]);
    let (snapshot2, was_new2) = members.join(&s("alice"));
    assert!(!was_new2);
    assert_eq!(snapshot2, vec![s("alice")]);
}

#[test]
fn exactly_one_of_many_joins_reports_new() {
    let mut registry = PresenceRegistry::new();
    let mut new_count = 0;
    for _ in 0..5 {
        let (_, was_new) = registry.join(&s("general"), &s("alice"));
        if was_new {
            new_count += 1;
        }
    }
    assert_eq!(new_count, 1);
}

#[test]
fn join_then_leave_removes_user_and_reports_membership() {
    let mut registry = PresenceRegistry::new();
    registry.join(&s("general"), &s("alice"));
    let was_member = registry.leave(&s("general"), &s("alice"));
    assert!(was_member);
    assert!(registry.current_members(&s("general")).is_empty());
    let again = registry.leave(&s("general"), &s("alice"));
    assert!(!again);
}

#[test]
fn leave_of_absent_user_reports_no_membership() {
    let mut registry = PresenceRegistry::new();
    registry.join(&s("general"), &s("alice"));
    assert!(!registry.leave(&s("general"), &s("bob")));
    assert!(!registry.leave(&s("lobby"), &s("alice")));
    assert_eq!(registry.current_members(&s("general")), vec![s("alice")]);
}

#[test]
fn two_connections_keep_the_user_present_until_both_leave() {
    let mut registry = PresenceRegistry::new();
    let (_, new_a) = registry.join(&s("general"), &s("alice"));
    let (_, new_b) = registry.join(&s("general"), &s("alice"));
    assert!(new_a);
    assert!(!new_b, "a second connection is not a new member");
    assert!(!registry.leave(&s("general"), &s("alice")), "one live connection remains");
    assert_eq!(registry.current_members(&s("general")), vec![s("alice")]);
    assert!(registry.leave(&s("general"), &s("alice")), "the last leave ends the membership");
    assert!(registry.current_members(&s("general")).is_empty());
}

#[test]
fn channels_are_independent() {
    let mut registry = PresenceRegistry::new();
    registry.join(&s("general"), &s("alice"));
    registry.join(&s("lobby"), &s("bob"));
    registry.join(&s("lobby"), &s("carol"));
    assert_eq!(registry.current_members(&s("general")), vec![s("alice")]);
    let mut lobby = registry.current_members(&s("lobby"));
    lobby.sort();
    assert_eq!(lobby, vec![s("bob"), s("carol")]);
    registry.leave(&s("lobby"), &s("bob"));
    assert_eq!(registry.current_members(&s("general")), vec![s("alice")]);
    assert_eq!(registry.current_members(&s("lobby")), vec![s("carol")]);
}

#[test]
fn snapshot_reflects_state_under_interleaving() {
    let mut registry = PresenceRegistry::new();
    let (snap_a, new_a) = registry.join(&s("general"), &s("alice"));
    assert!(new_a);
    assert_eq!(snap_a, vec![s("alice")]);
    let (mut snap_b, new_b) = registry.join(&s("general"), &s("bob"));
    assert!(new_b);
    snap_b.sort();
    assert_eq!(snap_b, vec![s("alice"), s("bob")]);
    let (mut snap_a2, new_a2) = registry.join(&s("general"), &s("alice"));
    assert!(!new_a2);
    snap_a2.sort();
    assert_eq!(snap_a2, vec![s("alice"), s("bob")]);
}

#[test]
fn current_members_of_unknown_channel_is_empty() {
    let registry = PresenceRegistry::new();
    assert!(registry.current_members(&s("nowhere")).is_empty());
}
