use vstd::prelude::*;

use crate::decimal::{dec, push_char, push_dec};

verus! {

/// A platform user as the moderation log shows them.
pub struct UserIdentity {
    pub id: u64,
    pub name: String,
    pub discriminator: u16,
}

/// The text shown when no moderator role is configured.
pub open spec fn no_roles_text() -> Seq<char> {
    "No moderator roles are currently set.  Anyone who can see the moderator commands will be able to use them."@
}

/// A role mention, `<@&id>`.
pub open spec fn role_mention(id: u64) -> Seq<char> {
    "<@&"@ + dec(id as nat) + ">"@
}

/// A user mention, `<@id>`.
pub open spec fn user_mention(id: u64) -> Seq<char> {
    "<@"@ + dec(id as nat) + ">"@
}

/// A channel mention, `<#id>`.
pub open spec fn channel_mention(id: u64) -> Seq<char> {
    "<#"@ + dec(id as nat) + ">"@
}

/// Role mentions separated by `", "`.
pub open spec fn mention_list(ids: Seq<u64>) -> Seq<char>
    decreases ids.len(),
{
    if ids.len() == 0 {
        Seq::empty()
    } else if ids.len() == 1 {
        role_mention(ids[0])
    } else {
        mention_list(ids.drop_last()) + ", "@ + role_mention(ids.last())
    }
}

/// The sentence that lists the moderator roles, in their stored order.
pub open spec fn roles_text(ids: Seq<u64>) -> Seq<char> {
    if ids.len() == 0 {
        no_roles_text()
    } else if ids.len() == 1 {
        role_mention(ids[0]) + " is currently the only moderator role."@
    } else {
        "Current moderator roles are "@ + mention_list(ids.drop_last()) + " and "@ + role_mention(
            ids.last(),
        )
    }
}

/// `s` padded on the left with zeros to at least four characters.
pub open spec fn pad4(s: Seq<char>) -> Seq<char> {
    if s.len() < 4 {
        Seq::new((4 - s.len()) as nat, |i: int| '0') + s
    } else {
        s
    }
}

/// How a user is shown: `@name (<@id>)` when the discriminator is the sentinel 0,
/// otherwise `name#DDDD (<@id>)`.
pub open spec fn user_text(id: u64, name: Seq<char>, discriminator: u16) -> Seq<char> {
    if discriminator == 0 {
        "@"@ + name + " ("@ + user_mention(id) + ")"@
    } else {
        name + "#"@ + pad4(dec(discriminator as nat)) + " ("@ + user_mention(id) + ")"@
    }
}

pub open spec fn user_identity_text(u: &UserIdentity) -> Seq<char> {
    user_text(u.id, u.name@, u.discriminator)
}

/// Appends `<@&id>`.
pub fn push_role_mention(out: &mut String, id: u64)
    ensures
        final(out)@ == old(out)@ + role_mention(id),
{
    out.append("<@&");
    push_dec(out, id);
    out.append(">");
    assert(final(out)@ =~= old(out)@ + role_mention(id));
}

/// Appends `<@id>`.
pub fn push_user_mention(out: &mut String, id: u64)
    ensures
        final(out)@ == old(out)@ + user_mention(id),
{
    out.append("<@");
    push_dec(out, id);
    out.append(">");
    assert(final(out)@ =~= old(out)@ + user_mention(id));
}

/// Appends `<#id>`.
pub fn push_channel_mention(out: &mut String, id: u64)
    ensures
        final(out)@ == old(out)@ + channel_mention(id),
{
    out.append("<#");
    push_dec(out, id);
    out.append(">");
    assert(final(out)@ =~= old(out)@ + channel_mention(id));
}

/// Appends the role mentions of the first `end` ids, separated by `", "`.
fn push_mention_list(out: &mut String, ids: &[u64], end: usize)
    requires
        end <= ids@.len(),
    ensures
        final(out)@ == old(out)@ + mention_list(ids@.take(end as int)),
{
    let mut i: usize = 0;
    while i < end
        invariant
            i <= end <= ids@.len(),
            out@ == old(out)@ + mention_list(ids@.take(i as int)),
        decreases end - i,
    {
        if i > 0 {
            out.append(", ");
        }
        push_role_mention(out, ids[i]);
        let ghost t = ids@.take(i as int + 1);
        assert(t.drop_last() =~= ids@.take(i as int));
        if i == 0 {
            assert(mention_list(ids@.take(0)) =~= Seq::empty());
        }
        assert(out@ =~= old(out)@ + mention_list(t));
        i = i + 1;
    }
}

/// The sentence that lists the moderator roles of a community.
pub fn format_list_of_roles(role_ids: &[u64]) -> (r: String)
    ensures
        r@ == roles_text(role_ids@),
{
    let n = role_ids.len();
    if n == 0 {
        String::from_str(
            "No moderator roles are currently set.  Anyone who can see the moderator commands will be able to use them.",
        )
    } else if n == 1 {
        let mut out = String::new();
        push_role_mention(&mut out, role_ids[0]);
        out.append(" is currently the only moderator role.");
        assert(out@ =~= roles_text(role_ids@));
        out
    } else {
        let mut out = String::from_str("Current moderator roles are ");
        push_mention_list(&mut out, role_ids, n - 1);
        out.append(" and ");
        push_role_mention(&mut out, role_ids[n - 1]);
        assert(role_ids@.take(n - 1) =~= role_ids@.drop_last());
        assert(out@ =~= roles_text(role_ids@));
        out
    }
}

/// Length of the decimal digits of small numbers.
proof fn lemma_dec_len(n: nat)
    ensures
        n < 10 ==> dec(n).len() == 1,
        10 <= n < 100 ==> dec(n).len() == 2,
        100 <= n < 1000 ==> dec(n).len() == 3,
        1000 <= n ==> dec(n).len() >= 4,
    decreases n,
{
    if n >= 10 {
        lemma_dec_len(n / 10);
    }
}

/// How a user is shown in notifications and records.
pub fn format_user(user: &UserIdentity) -> (r: String)
    ensures
        r@ == user_identity_text(user),
{
    let mut out = String::new();
    if user.discriminator == 0 {
        out.append("@");
        out.append(user.name.as_str());
    } else {
        out.append(user.name.as_str());
        out.append("#");
        let d = user.discriminator;
        let ghost before = out@;
        proof {
            lemma_dec_len(d as nat);
        }
        if d < 1000 {
            push_char(&mut out, '0');
        }
        if d < 100 {
            push_char(&mut out, '0');
        }
        if d < 10 {
            push_char(&mut out, '0');
        }
        push_dec(&mut out, d as u64);
        assert(out@ =~= before + pad4(dec(d as nat)));
    }
    out.append(" (");
    push_user_mention(&mut out, user.id);
    out.append(")");
    assert(out@ =~= user_identity_text(user));
    out
}

} // verus!
