use strawberry_moderator::commands::{add_modrole, channel, del_modrole};
use strawberry_moderator::config::{AuthDecision, RoleField, RoleOutcome};
use strawberry_moderator::persist::ConfigParseError;
use strawberry_moderator::store::ConfigStore;

fn roles_of(store: &ConfigStore, g: u64) -> Option<Vec<u64>> {
    match store.get(g).moderator_roles {
        RoleField::Roles(v) => Some(v),
        _ => None,
    }
}

#[test]
fn add_role_to_unconfigured_community() {
    let mut store = ConfigStore::new();
    let first = add_modrole(&mut store, 42, 111);
    assert_eq!(
        first,
        "Successfully made <@&111> a moderator role.  <@&111> is currently the only moderator role."
    );
    let again = add_modrole(&mut store, 42, 111);
    assert_eq!(
        again,
        "That role is already a moderator role.  <@&111> is currently the only moderator role."
    );
    assert_eq!(roles_of(&store, 42), Some(vec![111]));
}

#[test]
fn remove_one_of_two_roles() {
    let mut store = ConfigStore::new();
    add_modrole(&mut store, 42, 111);
    add_modrole(&mut store, 42, 222);
    let reply = del_modrole(&mut store, 42, 111);
    assert_eq!(
        reply,
        "Successfully revoked moderator status from <@&111>.  <@&222> is currently the only moderator role."
    );
    assert_eq!(roles_of(&store, 42), Some(vec![222]));
}

#[test]
fn remove_absent_role_and_empty_list() {
    let mut store = ConfigStore::new();
    let reply = del_modrole(&mut store, 7, 5);
    assert_eq!(
        reply,
        "That role is already not a moderator role.  No moderator roles are currently set.  Anyone who can see the moderator commands will be able to use them."
    );
    assert_eq!(roles_of(&store, 7), Some(vec![]));
}

#[test]
fn three_roles_are_listed_in_order() {
    let mut store = ConfigStore::new();
    add_modrole(&mut store, 1, 30);
    add_modrole(&mut store, 1, 10);
    let reply = add_modrole(&mut store, 1, 20);
    assert_eq!(
        reply,
        "Successfully made <@&20> a moderator role.  Current moderator roles are <@&30>, <@&10> and <@&20>"
    );
}

#[test]
fn interleaved_adds_and_removes_keep_call_order() {
    let mut store = ConfigStore::new();
    store.add_moderator_role(9, 1).unwrap();
    store.add_moderator_role(9, 2).unwrap();
    let u = store.add_moderator_role(9, 1).unwrap();
    assert_eq!(u.outcome, RoleOutcome::AlreadyPresent);
    let u = store.remove_moderator_role(9, 1).unwrap();
    assert_eq!(u.outcome, RoleOutcome::Removed);
    assert_eq!(u.roles, vec![2]);
    let u = store.remove_moderator_role(9, 1).unwrap();
    assert_eq!(u.outcome, RoleOutcome::NotPresent);
    let u = store.add_moderator_role(9, 3).unwrap();
    assert_eq!(u.outcome, RoleOutcome::Added);
    store.add_moderator_role(9, 1).unwrap();
    assert_eq!(roles_of(&store, 9), Some(vec![2, 3, 1]));
}

#[test]
fn communities_are_independent() {
    let mut store = ConfigStore::new();
    add_modrole(&mut store, 1, 10);
    add_modrole(&mut store, 2, 20);
    assert_eq!(roles_of(&store, 1), Some(vec![10]));
    assert_eq!(roles_of(&store, 2), Some(vec![20]));
    assert_eq!(store.len(), 2);
}

#[test]
fn set_channel_returns_previous() {
    let mut store = ConfigStore::new();
    assert_eq!(store.set_modlog_channel(5, 100), None);
    assert_eq!(store.set_modlog_channel(5, 200), Some(100));
    assert_eq!(store.get_modlog_channel(5), Some(200));
    assert_eq!(store.get_modlog_channel(6), None);
    let reply = channel(&mut store, 5, 300);
    assert_eq!(reply, "Configuration successful.  <#300> is now the modlog channel.");
    assert_eq!(store.get_modlog_channel(5), Some(300));
}

#[test]
fn authorization_policy() {
    let mut store = ConfigStore::new();
    assert!(store.is_moderator(1, &[]));
    assert_eq!(store.authorize(1, &[]), AuthDecision::AllowUnconfigured);
    del_modrole(&mut store, 1, 5);
    assert!(store.is_moderator(1, &[]));
    assert_eq!(store.authorize(1, &[7]), AuthDecision::AllowUnrestricted);
    add_modrole(&mut store, 1, 5);
    assert!(store.is_moderator(1, &[3, 5]));
    assert_eq!(store.authorize(1, &[5]), AuthDecision::AllowRole);
    assert!(!store.is_moderator(1, &[6]));
    assert!(!store.is_moderator(1, &[]));
    assert_eq!(store.authorize(1, &[6]), AuthDecision::DenyNoRole);
}

#[test]
fn malformed_roles_deny_everyone() {
    let text = "[1]\nmoderator_roles = \"everyone\"\n";
    let mut store = ConfigStore::parse(text).unwrap();
    assert!(!store.is_moderator(1, &[]));
    assert!(!store.is_moderator(1, &[1, 2, 3]));
    assert_eq!(store.authorize(1, &[1]), AuthDecision::DenyMalformed);
    let reply = add_modrole(&mut store, 1, 4);
    assert_eq!(reply, "Config file is not in a valid format.  No changes were made.");
    assert!(store.add_moderator_role(1, 4).is_err());
    assert!(store.remove_moderator_role(1, 4).is_err());
    assert_eq!(store.render(), text);
}

#[test]
fn duplicate_role_ids_are_malformed() {
    let store = ConfigStore::parse("[1]\nmoderator_roles = [4, 4]\n").unwrap();
    assert!(matches!(store.get(1).moderator_roles, RoleField::Malformed(_)));
    assert!(!store.is_moderator(1, &[4]));
}

#[test]
fn render_exact_text() {
    let mut store = ConfigStore::new();
    store.set_modlog_channel(1191491525432070174, 55);
    store.add_moderator_role(1191491525432070174, 18446744073709551615).unwrap();
    store.add_moderator_role(1191491525432070174, 3).unwrap();
    store.add_moderator_role(2, 9).unwrap();
    assert_eq!(
        store.render(),
        "[1191491525432070174]\nmodlog_channel_id = 55\nmoderator_roles = [18446744073709551615, 3]\n[2]\nmoderator_roles = [9]\n"
    );
    assert_eq!(ConfigStore::new().render(), "");
}

#[test]
fn persist_then_reload() {
    let mut store = ConfigStore::new();
    store.set_modlog_channel(10, 11);
    store.add_moderator_role(20, 3).unwrap();
    store.add_moderator_role(20, 1).unwrap();
    store.remove_moderator_role(30, 1).unwrap();
    let text = store.render();
    let back = ConfigStore::parse(&text).unwrap();
    assert_eq!(back.len(), 3);
    assert_eq!(back.get_modlog_channel(10), Some(11));
    assert!(matches!(back.get(10).moderator_roles, RoleField::Unset));
    assert_eq!(roles_of(&back, 20), Some(vec![3, 1]));
    assert_eq!(roles_of(&back, 30), Some(vec![]));
    assert_eq!(back.entry_at(0).0, 10);
    assert_eq!(back.entry_at(1).0, 20);
    assert_eq!(back.render(), text);
}

#[test]
fn parse_accepts_spaces_comments_and_blank_lines() {
    let text = "# settings\n\n[5]\nmoderator_roles = [ 1,2 ,  3 ]\nmodlog_channel_id = 007\n";
    let store = ConfigStore::parse(text).unwrap();
    assert_eq!(roles_of(&store, 5), Some(vec![1, 2, 3]));
    assert_eq!(store.get_modlog_channel(5), Some(7));
    let empty = ConfigStore::parse("[5]\nmoderator_roles = []").unwrap();
    assert_eq!(roles_of(&empty, 5), Some(vec![]));
    assert_eq!(ConfigStore::parse("").unwrap().len(), 0);
}

#[test]
fn parse_rejects_what_it_does_not_understand() {
    assert_eq!(ConfigStore::parse("hello\n").err(), Some(ConfigParseError));
    assert!(ConfigStore::parse("modlog_channel_id = 3\n").is_err());
    assert!(ConfigStore::parse("[1]\n[1]\n").is_err());
    assert!(ConfigStore::parse("[x]\n").is_err());
    assert!(ConfigStore::parse("[1]\nmodlog_channel_id = -3\n").is_err());
    assert!(ConfigStore::parse("[1]\nmodlog_channel_id = 18446744073709551616\n").is_err());
    assert!(ConfigStore::parse("[1]\nmodlog_channel_id = 18446744073709551615\n").is_ok());
}

#[test]
fn contains_only_configured_communities() {
    let mut store = ConfigStore::new();
    assert!(!store.contains(3));
    store.set_modlog_channel(3, 4);
    assert!(store.contains(3));
    assert!(!store.contains(4));
}
