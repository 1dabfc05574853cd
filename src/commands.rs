use vstd::prelude::*;

use crate::config::{
    add_role, entry, list_or_empty, upsert, without_role, AuthDecision, DocView, GuildView,
    RoleFieldView, RoleOutcome,
};
use crate::store::{lemma_without_role, ConfigStore};
use crate::text::{
    format_list_of_roles, push_channel_mention, push_role_mention, channel_mention, role_mention,
    roles_text, UserIdentity,
};

verus! {

/// The settings after adding `role` to the moderator roles of `g`; unchanged when the
/// stored role setting is malformed.
pub open spec fn after_add(d: DocView, g: u64, role: u64) -> DocView {
    if entry(d, g).roles is Malformed {
        d
    } else {
        upsert(
            d,
            g,
            GuildView {
                channel: entry(d, g).channel,
                roles: RoleFieldView::Roles(add_role(list_or_empty(entry(d, g).roles), role)),
            },
        )
    }
}

/// The settings after removing `role` from the moderator roles of `g`; unchanged when the
/// stored role setting is malformed.
pub open spec fn after_remove(d: DocView, g: u64, role: u64) -> DocView {
    if entry(d, g).roles is Malformed {
        d
    } else {
        upsert(
            d,
            g,
            GuildView {
                channel: entry(d, g).channel,
                roles: RoleFieldView::Roles(without_role(list_or_empty(entry(d, g).roles), role)),
            },
        )
    }
}

pub open spec fn invalid_config_text() -> Seq<char> {
    "Config file is not in a valid format.  No changes were made."@
}

pub open spec fn add_reply_text(d: DocView, g: u64, role: u64) -> Seq<char> {
    let rs = list_or_empty(entry(d, g).roles);
    if entry(d, g).roles is Malformed {
        invalid_config_text()
    } else if rs.contains(role) {
        "That role is already a moderator role.  "@ + roles_text(rs)
    } else {
        "Successfully made "@ + role_mention(role) + " a moderator role.  "@ + roles_text(
            rs.push(role),
        )
    }
}

pub open spec fn remove_reply_text(d: DocView, g: u64, role: u64) -> Seq<char> {
    let rs = list_or_empty(entry(d, g).roles);
    if entry(d, g).roles is Malformed {
        invalid_config_text()
    } else if rs.contains(role) {
        "Successfully revoked moderator status from "@ + role_mention(role) + ".  "@ + roles_text(
            without_role(rs, role),
        )
    } else {
        "That role is already not a moderator role.  "@ + roles_text(rs)
    }
}

/// Makes `role` a moderator role of `g` and returns the reply for the moderator.
pub fn add_modrole(store: &mut ConfigStore, g: u64, role: u64) -> (r: String)
    requires
        old(store).wf(),
    ensures
        final(store).wf(),
        final(store)@ == after_add(old(store)@, g, role),
        r@ == add_reply_text(old(store)@, g, role),
{
    match store.add_moderator_role(g, role) {
        Err(_) => String::from_str("Config file is not in a valid format.  No changes were made."),
        Ok(u) => {
            let mut out = match u.outcome {
                RoleOutcome::AlreadyPresent => String::from_str("That role is already a moderator role.  "),
                _ => {
                    let mut m = String::from_str("Successfully made ");
                    push_role_mention(&mut m, role);
                    m.append(" a moderator role.  ");
                    m
                },
            };
            let list = format_list_of_roles(u.roles.as_slice());
            out.append(list.as_str());
            out
        },
    }
}

/// Revokes moderator status from `role` in `g` and returns the reply for the moderator.
pub fn del_modrole(store: &mut ConfigStore, g: u64, role: u64) -> (r: String)
    requires
        old(store).wf(),
    ensures
        final(store).wf(),
        final(store)@ == after_remove(old(store)@, g, role),
        r@ == remove_reply_text(old(store)@, g, role),
{
    proof {
        lemma_without_role(list_or_empty(entry(store@, g).roles), role);
    }
    match store.remove_moderator_role(g, role) {
        Err(_) => String::from_str("Config file is not in a valid format.  No changes were made."),
        Ok(u) => {
            let mut out = match u.outcome {
                RoleOutcome::Removed => {
                    let mut m = String::from_str("Successfully revoked moderator status from ");
                    push_role_mention(&mut m, role);
                    m.append(".  ");
                    m
                },
                _ => String::from_str("That role is already not a moderator role.  "),
            };
            let list = format_list_of_roles(u.roles.as_slice());
            out.append(list.as_str());
            out
        },
    }
}

pub open spec fn channel_reply_text(c: u64) -> Seq<char> {
    "Configuration successful.  "@ + channel_mention(c) + " is now the modlog channel."@
}

/// Makes `c` the audit channel of `g` and returns the reply for the moderator.
pub fn channel(store: &mut ConfigStore, g: u64, c: u64) -> (r: String)
    requires
        old(store).wf(),
    ensures
        final(store).wf(),
        final(store)@ == upsert(
            old(store)@,
            g,
            GuildView { channel: Some(c), roles: entry(old(store)@, g).roles },
        ),
        r@ == channel_reply_text(c),
{
    store.set_modlog_channel(g, c);
    let mut out = String::from_str("Configuration successful.  ");
    push_channel_mention(&mut out, c);
    out.append(" is now the modlog channel.");
    assert(out@ =~= channel_reply_text(c));
    out
}

pub open spec fn no_permission_text() -> Seq<char> {
    "You do not have permission to use that command."@
}

pub open spec fn malformed_roles_text() -> Seq<char> {
    "The moderator roles of this server are not stored in a valid format, so nobody can use moderation commands until the configuration is fixed."@
}

/// The reply that refuses a command; none when the command is allowed.
pub open spec fn denial_text(d: AuthDecision) -> Option<Seq<char>> {
    match d {
        AuthDecision::DenyNoRole => Some(no_permission_text()),
        AuthDecision::DenyMalformed => Some(malformed_roles_text()),
        _ => None,
    }
}

/// The reply that refuses a command, with a diagnostic when the stored configuration is at
/// fault; none when the command is allowed.
pub fn denial_reply(d: AuthDecision) -> (r: Option<String>)
    ensures
        r is None <==> d.allows(),
        r matches Some(s) ==> denial_text(d) == Some(s@),
{
    match d {
        AuthDecision::DenyNoRole => Some(String::from_str("You do not have permission to use that command.")),
        AuthDecision::DenyMalformed => Some(
            String::from_str(
                "The moderator roles of this server are not stored in a valid format, so nobody can use moderation commands until the configuration is fixed.",
            ),
        ),
        _ => None,
    }
}

/// Context that a command needs and that could not be determined.
#[derive(PartialEq, Eq, Structural, Clone, Copy, Debug)]
pub enum ContextError {
    UnknownCommunity,
    UnknownUser,
}

pub open spec fn context_error_text(e: ContextError) -> Seq<char> {
    match e {
        ContextError::UnknownCommunity => "Cannot figure out what guild this command is being run in."@,
        ContextError::UnknownUser => "Can't figure out who sent this interaction"@,
    }
}

impl ContextError {
    pub fn message(&self) -> (r: String)
        ensures
            r@ == context_error_text(*self),
    {
        match self {
            ContextError::UnknownCommunity => String::from_str(
                "Cannot figure out what guild this command is being run in.",
            ),
            ContextError::UnknownUser => String::from_str("Can't figure out who sent this interaction"),
        }
    }
}

/// The community a command runs in: the interaction's, else the command data's.
pub fn get_guild(interaction_guild: Option<u64>, data_guild: Option<u64>) -> (r: Result<u64, ContextError>)
    ensures
        r == match interaction_guild {
            Some(g) => Ok(g),
            None => match data_guild {
                Some(g) => Ok(g),
                None => Err(ContextError::UnknownCommunity),
            },
        },
{
    match interaction_guild {
        Some(g) => Ok(g),
        None => match data_guild {
            Some(g) => Ok(g),
            None => Err(ContextError::UnknownCommunity),
        },
    }
}

/// The user who sent a command: the interaction's user, else its member's user.
pub fn get_initiating_user(user: Option<UserIdentity>, member_user: Option<UserIdentity>) -> (r: Result<UserIdentity, ContextError>)
    ensures
        r == match user {
            Some(u) => Ok(u),
            None => match member_user {
                Some(u) => Ok(u),
                None => Err(ContextError::UnknownUser),
            },
        },
{
    match user {
        Some(u) => Ok(u),
        None => match member_user {
            Some(u) => Ok(u),
            None => Err(ContextError::UnknownUser),
        },
    }
}

} // verus!
