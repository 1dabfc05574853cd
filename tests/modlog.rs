use strawberry_moderator::commands::{denial_reply, get_guild, get_initiating_user, ContextError};
use strawberry_moderator::config::AuthDecision;
use strawberry_moderator::modlog::{
    action_reply, record_deletion, record_reason, ActionKind, Attachment, DeletedMessage, Delivery,
    ModLogAction, ModLogEntry, ModLogMessage,
};
use strawberry_moderator::store::ConfigStore;
use strawberry_moderator::text::{format_list_of_roles, format_user, UserIdentity};

fn user(id: u64, name: &str, discriminator: u16) -> UserIdentity {
    UserIdentity { id, name: name.to_string(), discriminator }
}

fn message(n: usize) -> DeletedMessage {
    let names = ["a.png", "b.txt", "c.gif", "d.mp4"];
    DeletedMessage {
        id: 900,
        author: user(5, "spammer", 0),
        content: "buy now".to_string(),
        attachments: (0..n)
            .map(|i| Attachment {
                filename: names[i].to_string(),
                url: format!("https://cdn.example/{}", names[i]),
            })
            .collect(),
    }
}

#[test]
fn list_of_roles_texts() {
    assert_eq!(
        format_list_of_roles(&[]),
        "No moderator roles are currently set.  Anyone who can see the moderator commands will be able to use them."
    );
    assert_eq!(format_list_of_roles(&[7]), "<@&7> is currently the only moderator role.");
    assert_eq!(format_list_of_roles(&[7, 8]), "Current moderator roles are <@&7> and <@&8>");
    assert_eq!(
        format_list_of_roles(&[1, 2, 3]),
        "Current moderator roles are <@&1>, <@&2> and <@&3>"
    );
}

#[test]
fn user_formatting() {
    assert_eq!(format_user(&user(12, "alice", 0)), "@alice (<@12>)");
    assert_eq!(format_user(&user(12, "bob", 7)), "bob#0007 (<@12>)");
    assert_eq!(format_user(&user(3, "carol", 42)), "carol#0042 (<@3>)");
    assert_eq!(format_user(&user(3, "dave", 123)), "dave#0123 (<@3>)");
    assert_eq!(format_user(&user(3, "erin", 1234)), "erin#1234 (<@3>)");
    assert_eq!(format_user(&user(3, "fay", 65535)), "fay#65535 (<@3>)");
}

#[test]
fn reason_without_channel_is_logged_locally() {
    let store = ConfigStore::new();
    let plan = record_reason(&store, 1, &user(2, "mod", 0), Some(3), 1700000000, &"spam".to_string());
    assert!(plan.notification.is_none());
    assert_eq!(
        action_reply(ActionKind::ReasonNoted, Delivery::NoChannel),
        "The modlog channel in this server has not been set up yet.  Moderation action will be logged to the logfile only."
    );
    assert_eq!(
        plan.entry.to_line(),
        "{\"kind\":\"reason_noted\",\"reason\":\"spam\",\"timestamp\":1700000000,\"moderator_id\":2,\"moderator_name\":\"mod\",\"moderator_discrim\":0,\"channel_id\":3}"
    );
}

#[test]
fn reason_with_channel_is_notified() {
    let mut store = ConfigStore::new();
    store.set_modlog_channel(1, 77);
    let plan = record_reason(&store, 1, &user(2, "mod", 9), None, 5, &"noted".to_string());
    let n = plan.notification.unwrap();
    assert_eq!(n.channel_id, 77);
    assert_eq!(n.title, "Reason added by moderator");
    assert_eq!(n.description, "noted");
    assert_eq!(n.fields.len(), 1);
    assert_eq!(n.fields[0].name, "Moderator");
    assert_eq!(n.fields[0].value, "mod#0009 (<@2>)");
    assert_eq!(action_reply(ActionKind::ReasonNoted, Delivery::Delivered), "Reason recorded in the modlog.");
    assert_eq!(
        action_reply(ActionKind::ReasonNoted, Delivery::Failed),
        "The modlog notification could not be delivered.  Moderation action was logged to the logfile only."
    );
    assert_eq!(action_reply(ActionKind::MessageDeleted, Delivery::Delivered), "Message deleted");
}

#[test]
fn deletion_keeps_only_archived_attachments() {
    let mut store = ConfigStore::new();
    store.set_modlog_channel(1, 77);
    let msg = message(3);
    let plan = record_deletion(&store, 1, &user(2, "mod", 0), Some(40), 9, &msg, &[true, false, true]);
    match &plan.entry.action {
        ModLogAction::MessageDeleted(m) => {
            assert_eq!(m.attachments, vec!["a.png".to_string(), "c.gif".to_string()]);
            assert_eq!(m.id, 900);
            assert_eq!(m.author_name, "spammer");
        }
        _ => panic!("wrong action"),
    }
    let n = plan.notification.unwrap();
    assert_eq!(n.title, "Message removed by moderator");
    assert_eq!(n.description, "buy now");
    let names: Vec<&str> = n.fields.iter().map(|f| f.name.as_str()).collect();
    assert_eq!(names, vec!["Sent by", "Deleted by", "Channel", "Attachment: a.png", "Attachment: c.gif"]);
    assert_eq!(n.fields[0].value, "@spammer (<@5>)");
    assert_eq!(n.fields[2].value, "<#40>");
    assert_eq!(n.fields[4].value, "https://cdn.example/c.gif");
}

#[test]
fn deletion_notice_iff_channel_whatever_downloads() {
    let store = ConfigStore::new();
    let msg = message(2);
    for ok in [[true, true], [false, false], [true, false]] {
        let plan = record_deletion(&store, 1, &user(2, "mod", 0), None, 9, &msg, &ok);
        assert!(plan.notification.is_none());
    }
    let mut configured = ConfigStore::new();
    configured.set_modlog_channel(1, 3);
    for ok in [[true, true], [false, false]] {
        let plan = record_deletion(&configured, 1, &user(2, "mod", 0), None, 9, &msg, &ok);
        assert!(plan.notification.is_some());
    }
}

#[test]
fn snapshot_counts_successes() {
    let msg = message(4);
    let m = ModLogMessage::from_message(&msg, &[false, true, true, true]);
    assert_eq!(m.attachments.len(), 3);
    let none = ModLogMessage::from_message(&msg, &[false, false, false, false]);
    assert!(none.attachments.is_empty());
    let empty = ModLogMessage::from_message(&message(0), &[]);
    assert!(empty.attachments.is_empty());
}

#[test]
fn log_line_escapes_text() {
    let msg = DeletedMessage {
        id: 1,
        author: user(2, "q\"uote", 3),
        content: "line\nbreak\\tab\t\u{1}".to_string(),
        attachments: vec![],
    };
    let snapshot = ModLogMessage::from_message(&msg, &[]);
    let entry = ModLogEntry::new(&user(4, "m", 0), None, 6, ModLogAction::MessageDeleted(snapshot));
    assert_eq!(
        entry.to_line(),
        "{\"kind\":\"message_deleted\",\"message\":{\"id\":1,\"author_id\":2,\"author_name\":\"q\\\"uote\",\"author_discrim\":3,\"content\":\"line\\nbreak\\\\tab\\t\\u0001\",\"attachments\":[]},\"timestamp\":6,\"moderator_id\":4,\"moderator_name\":\"m\",\"moderator_discrim\":0,\"channel_id\":null}"
    );
}

#[test]
fn log_line_lists_attachments() {
    let msg = message(2);
    let snapshot = ModLogMessage::from_message(&msg, &[true, true]);
    let entry = ModLogEntry::new(&user(4, "m", 0), Some(8), 6, ModLogAction::MessageDeleted(snapshot));
    assert!(entry.to_line().contains("\"attachments\":[\"a.png\",\"b.txt\"]"));
    assert_eq!(entry.channel_id, Some(8));
}

#[test]
fn denial_replies() {
    assert_eq!(denial_reply(AuthDecision::AllowRole), None);
    assert_eq!(denial_reply(AuthDecision::AllowUnconfigured), None);
    assert_eq!(
        denial_reply(AuthDecision::DenyNoRole),
        Some("You do not have permission to use that command.".to_string())
    );
    assert!(denial_reply(AuthDecision::DenyMalformed).unwrap().contains("not stored in a valid format"));
}

#[test]
fn command_context() {
    assert_eq!(get_guild(Some(1), Some(2)), Ok(1));
    assert_eq!(get_guild(None, Some(2)), Ok(2));
    assert_eq!(get_guild(None, None), Err(ContextError::UnknownCommunity));
    assert_eq!(
        ContextError::UnknownCommunity.message(),
        "Cannot figure out what guild this command is being run in."
    );
    let u = get_initiating_user(None, Some(user(3, "x", 0))).ok().unwrap();
    assert_eq!(u.id, 3);
    assert!(get_initiating_user(None, None).is_err());
    assert_eq!(ContextError::UnknownUser.message(), "Can't figure out who sent this interaction");
}
