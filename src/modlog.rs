use vstd::prelude::*;

use crate::config::entry;
use crate::decimal::{dec, push_char, push_dec};
use crate::store::ConfigStore;
use crate::text::{channel_mention, format_user, push_channel_mention, user_identity_text, UserIdentity};

verus! {

/// A file attached to a deleted message.
pub struct Attachment {
    pub filename: String,
    pub url: String,
}

/// A message that a moderator deleted, as the platform reported it.
pub struct DeletedMessage {
    pub id: u64,
    pub author: UserIdentity,
    pub content: String,
    pub attachments: Vec<Attachment>,
}

/// The snapshot of a deleted message kept in the local log.
pub struct ModLogMessage {
    pub id: u64,
    pub content: String,
    pub author_id: u64,
    pub author_name: String,
    pub author_discrim: u16,
    /// The attachments that were archived, in message order.
    pub attachments: Vec<String>,
}

pub enum ModLogAction {
    MessageDeleted(ModLogMessage),
    ReasonNoted(String),
}

/// One immutable record of the local moderation log.
pub struct ModLogEntry {
    pub channel_id: Option<u64>,
    pub moderator_id: u64,
    pub moderator_name: String,
    pub moderator_discrim: u16,
    /// Seconds since the Unix epoch.
    pub timestamp: u64,
    pub action: ModLogAction,
}

/// One field of a notification.
pub struct EmbedField {
    pub name: String,
    pub value: String,
}

/// A human-readable notification for the community's audit channel.
pub struct Notification {
    pub channel_id: u64,
    pub title: String,
    pub description: String,
    pub fields: Vec<EmbedField>,
}

/// What to deliver and what to append for one moderation action.
pub struct RecordPlan {
    /// Present exactly when the community has an audit channel.
    pub notification: Option<Notification>,
    /// Appended to the local log in every case.
    pub entry: ModLogEntry,
}

/// What became of the notification of an action.
#[derive(PartialEq, Eq, Structural, Clone, Copy, Debug)]
pub enum Delivery {
    NoChannel,
    Delivered,
    Failed,
}

#[derive(PartialEq, Eq, Structural, Clone, Copy, Debug)]
pub enum ActionKind {
    MessageDeleted,
    ReasonNoted,
}

// ---------------------------------------------------------------- views

pub open spec fn strings_view(v: Seq<String>) -> Seq<Seq<char>> {
    v.map_values(|s: String| s@)
}

pub open spec fn attachments_view(v: Seq<Attachment>) -> Seq<(Seq<char>, Seq<char>)> {
    v.map_values(|a: Attachment| (a.filename@, a.url@))
}

pub open spec fn fields_view(v: Seq<EmbedField>) -> Seq<(Seq<char>, Seq<char>)> {
    v.map_values(|f: EmbedField| (f.name@, f.value@))
}

/// The attachments whose download succeeded, in order.
pub open spec fn archived(atts: Seq<(Seq<char>, Seq<char>)>, ok: Seq<bool>) -> Seq<
    (Seq<char>, Seq<char>),
>
    recommends
        atts.len() == ok.len(),
    decreases atts.len(),
{
    if atts.len() == 0 || ok.len() == 0 {
        Seq::empty()
    } else if ok.last() {
        archived(atts.drop_last(), ok.drop_last()).push(atts.last())
    } else {
        archived(atts.drop_last(), ok.drop_last())
    }
}

pub open spec fn names_of(atts: Seq<(Seq<char>, Seq<char>)>) -> Seq<Seq<char>> {
    atts.map_values(|a: (Seq<char>, Seq<char>)| a.0)
}

pub open spec fn count_true(ok: Seq<bool>) -> nat
    decreases ok.len(),
{
    if ok.len() == 0 {
        0
    } else {
        count_true(ok.drop_last()) + if ok.last() {
            1nat
        } else {
            0nat
        }
    }
}

// ---------------------------------------------------------------- snapshots

/// Archiving keeps exactly the attachments whose download succeeded: with K of N
/// downloads succeeding, the record lists exactly K filenames.
pub proof fn lemma_archived_count(atts: Seq<(Seq<char>, Seq<char>)>, ok: Seq<bool>)
    requires
        atts.len() == ok.len(),
    ensures
        archived(atts, ok).len() == count_true(ok),
        names_of(archived(atts, ok)).len() == count_true(ok),
    decreases atts.len(),
{
    if atts.len() > 0 {
        lemma_archived_count(atts.drop_last(), ok.drop_last());
    }
}

/// A snapshot of a deletion where K of the N attachment downloads succeeded lists
/// exactly K filenames.
pub proof fn lemma_snapshot_count(m: &ModLogMessage, msg: &DeletedMessage, ok: Seq<bool>)
    requires
        ok.len() == msg.attachments@.len(),
        snapshot_of(m, msg, ok),
    ensures
        m.attachments@.len() == count_true(ok),
{
    lemma_archived_count(attachments_view(msg.attachments@), ok);
}

fn copy_string(s: &String) -> (r: String)
    ensures
        r@ == s@,
{
    s.clone()
}

impl ModLogMessage {
    /// The snapshot of a deleted message; `downloaded[i]` tells whether its `i`-th
    /// attachment was archived. Failed downloads are left out, the rest kept in order.
    pub fn from_message(msg: &DeletedMessage, downloaded: &[bool]) -> (r: ModLogMessage)
        requires
            downloaded@.len() == msg.attachments@.len(),
        ensures
            r.id == msg.id,
            r.content@ == msg.content@,
            r.author_id == msg.author.id,
            r.author_name@ == msg.author.name@,
            r.author_discrim == msg.author.discriminator,
            strings_view(r.attachments@) == names_of(
                archived(attachments_view(msg.attachments@), downloaded@),
            ),
    {
        let ghost av = attachments_view(msg.attachments@);
        let mut names: Vec<String> = Vec::new();
        let mut i: usize = 0;
        while i < msg.attachments.len()
            invariant
                i <= msg.attachments@.len(),
                downloaded@.len() == msg.attachments@.len(),
                av == attachments_view(msg.attachments@),
                strings_view(names@) == names_of(
                    archived(av.take(i as int), downloaded@.take(i as int)),
                ),
            decreases msg.attachments@.len() - i,
        {
            assert(av.take(i as int + 1).drop_last() =~= av.take(i as int));
            assert(downloaded@.take(i as int + 1).drop_last() =~= downloaded@.take(i as int));
            let ghost prev = archived(av.take(i as int), downloaded@.take(i as int));
            assert(av.take(i as int + 1).last() == av[i as int]);
            assert(downloaded@.take(i as int + 1).last() == downloaded@[i as int]);
            assert(av[i as int].0 == msg.attachments@[i as int].filename@);
            assert(names_of(prev.push(av[i as int])) =~= names_of(prev).push(av[i as int].0));
            if downloaded[i] {
                let name = copy_string(&msg.attachments[i].filename);
                names.push(name);
            }
            assert(strings_view(names@) =~= names_of(
                archived(av.take(i as int + 1), downloaded@.take(i as int + 1)),
            ));
            i = i + 1;
        }
        assert(av.take(av.len() as int) =~= av);
        assert(downloaded@.take(av.len() as int) =~= downloaded@);
        ModLogMessage {
            id: msg.id,
            content: copy_string(&msg.content),
            author_id: msg.author.id,
            author_name: copy_string(&msg.author.name),
            author_discrim: msg.author.discriminator,
            attachments: names,
        }
    }
}

// ---------------------------------------------------------------- log lines

pub open spec fn hex_digit(d: int) -> char {
    if d < 10 {
        ((d + 48) as u8) as char
    } else {
        ((d + 87) as u8) as char
    }
}

/// A character as it stands inside a JSON string.
pub open spec fn escape_char(c: char) -> Seq<char> {
    if c == '"' {
        seq!['\\', '"']
    } else if c == '\\' {
        seq!['\\', '\\']
    } else if c == '\n' {
        seq!['\\', 'n']
    } else if c == '\r' {
        seq!['\\', 'r']
    } else if c == '\t' {
        seq!['\\', 't']
    } else if (c as int) < 32 {
        seq!['\\', 'u', '0', '0', hex_digit((c as int) / 16), hex_digit((c as int) % 16)]
    } else {
        seq![c]
    }
}

pub open spec fn escape(s: Seq<char>) -> Seq<char>
    decreases s.len(),
{
    if s.len() == 0 {
        Seq::empty()
    } else {
        escape(s.drop_last()) + escape_char(s.last())
    }
}

/// A JSON string literal holding `s`.
pub open spec fn json_str(s: Seq<char>) -> Seq<char> {
    seq!['"'] + escape(s) + seq!['"']
}

/// JSON string literals separated by commas.
pub open spec fn json_str_list(v: Seq<Seq<char>>) -> Seq<char>
    decreases v.len(),
{
    if v.len() == 0 {
        Seq::empty()
    } else if v.len() == 1 {
        json_str(v[0])
    } else {
        json_str_list(v.drop_last()) + seq![','] + json_str(v.last())
    }
}

pub open spec fn opt_dec(c: Option<u64>) -> Seq<char> {
    match c {
        Some(v) => dec(v as nat),
        None => "null"@,
    }
}

pub open spec fn action_json(a: &ModLogAction) -> Seq<char> {
    match a {
        ModLogAction::ReasonNoted(r) => "\"kind\":\"reason_noted\",\"reason\":"@ + json_str(r@),
        ModLogAction::MessageDeleted(m) => "\"kind\":\"message_deleted\",\"message\":{\"id\":"@
            + dec(m.id as nat) + ",\"author_id\":"@ + dec(m.author_id as nat)
            + ",\"author_name\":"@ + json_str(m.author_name@) + ",\"author_discrim\":"@ + dec(
            m.author_discrim as nat,
        ) + ",\"content\":"@ + json_str(m.content@) + ",\"attachments\":["@ + json_str_list(
            strings_view(m.attachments@),
        ) + "]}"@,
    }
}

/// The line of the local log that stands for `e`: one JSON object.
pub open spec fn entry_line(e: &ModLogEntry) -> Seq<char> {
    "{"@ + action_json(&e.action) + ",\"timestamp\":"@ + dec(e.timestamp as nat)
        + ",\"moderator_id\":"@ + dec(e.moderator_id as nat) + ",\"moderator_name\":"@ + json_str(
        e.moderator_name@,
    ) + ",\"moderator_discrim\":"@ + dec(e.moderator_discrim as nat) + ",\"channel_id\":"@
        + opt_dec(e.channel_id) + "}"@
}

fn hex_char(d: u32) -> (r: char)
    requires
        d < 16,
    ensures
        r == hex_digit(d as int),
{
    if d < 10 {
        ((d + 48) as u8) as char
    } else {
        ((d + 87) as u8) as char
    }
}

fn push_escaped_char(out: &mut String, c: char)
    ensures
        final(out)@ == old(out)@ + escape_char(c),
{
    if c == '"' {
        push_char(out, '\\');
        push_char(out, '"');
    } else if c == '\\' {
        push_char(out, '\\');
        push_char(out, '\\');
    } else if c == '\n' {
        push_char(out, '\\');
        push_char(out, 'n');
    } else if c == '\r' {
        push_char(out, '\\');
        push_char(out, 'r');
    } else if c == '\t' {
        push_char(out, '\\');
        push_char(out, 't');
    } else if (c as u32) < 32 {
        let v = c as u32;
        push_char(out, '\\');
        push_char(out, 'u');
        push_char(out, '0');
        push_char(out, '0');
        push_char(out, hex_char(v / 16));
        push_char(out, hex_char(v % 16));
    } else {
        push_char(out, c);
    }
    assert(final(out)@ =~= old(out)@ + escape_char(c));
}

/// Appends `s` as a JSON string literal.
pub fn push_json_str(out: &mut String, s: &str)
    ensures
        final(out)@ == old(out)@ + json_str(s@),
{
    push_char(out, '"');
    let ghost start = out@;
    let n = s.unicode_len();
    let mut i: usize = 0;
    while i < n
        invariant
            n == s@.len(),
            i <= n,
            out@ == start + escape(s@.take(i as int)),
        decreases n - i,
    {
        let c = s.get_char(i);
        push_escaped_char(out, c);
        assert(s@.take(i as int + 1).drop_last() =~= s@.take(i as int));
        assert(out@ =~= start + escape(s@.take(i as int + 1)));
        i = i + 1;
    }
    assert(s@.take(n as int) =~= s@);
    push_char(out, '"');
    assert(final(out)@ =~= old(out)@ + json_str(s@));
}

fn push_json_str_list(out: &mut String, v: &Vec<String>)
    ensures
        final(out)@ == old(out)@ + json_str_list(strings_view(v@)),
{
    let ghost sv = strings_view(v@);
    let mut i: usize = 0;
    while i < v.len()
        invariant
            i <= v@.len(),
            sv == strings_view(v@),
            out@ == old(out)@ + json_str_list(sv.take(i as int)),
        decreases v@.len() - i,
    {
        if i > 0 {
            push_char(out, ',');
        }
        push_json_str(out, v[i].as_str());
        let ghost t = sv.take(i as int + 1);
        assert(t.drop_last() =~= sv.take(i as int));
        assert(t.last() == v@[i as int]@);
        if i == 0 {
            assert(json_str_list(sv.take(0)) =~= Seq::<char>::empty());
        }
        assert(out@ =~= old(out)@ + json_str_list(t));
        i = i + 1;
    }
    assert(sv.take(v@.len() as int) =~= sv);
}

fn push_action_json(out: &mut String, a: &ModLogAction)
    ensures
        final(out)@ == old(out)@ + action_json(a),
{
    match a {
        ModLogAction::ReasonNoted(r) => {
            out.append("\"kind\":\"reason_noted\",\"reason\":");
            push_json_str(out, r.as_str());
        },
        ModLogAction::MessageDeleted(m) => {
            out.append("\"kind\":\"message_deleted\",\"message\":{\"id\":");
            push_dec(out, m.id);
            out.append(",\"author_id\":");
            push_dec(out, m.author_id);
            out.append(",\"author_name\":");
            push_json_str(out, m.author_name.as_str());
            out.append(",\"author_discrim\":");
            push_dec(out, m.author_discrim as u64);
            out.append(",\"content\":");
            push_json_str(out, m.content.as_str());
            out.append(",\"attachments\":[");
            push_json_str_list(out, &m.attachments);
            out.append("]}");
        },
    }
    assert(final(out)@ =~= old(out)@ + action_json(a));
}

impl ModLogEntry {
    /// The record of an action by `moderator`, taken in `channel_id` when known.
    pub fn new(moderator: &UserIdentity, channel_id: Option<u64>, timestamp: u64, action: ModLogAction) -> (r: ModLogEntry)
        ensures
            r.channel_id == channel_id,
            r.moderator_id == moderator.id,
            r.moderator_name@ == moderator.name@,
            r.moderator_discrim == moderator.discriminator,
            r.timestamp == timestamp,
            r.action == action,
    {
        ModLogEntry {
            channel_id,
            moderator_id: moderator.id,
            moderator_name: copy_string(&moderator.name),
            moderator_discrim: moderator.discriminator,
            timestamp,
            action,
        }
    }

    /// The line that the local log receives for this record, without its line break.
    pub fn to_line(&self) -> (r: String)
        ensures
            r@ == entry_line(self),
    {
        let mut out = String::new();
        out.append("{");
        push_action_json(&mut out, &self.action);
        out.append(",\"timestamp\":");
        push_dec(&mut out, self.timestamp);
        out.append(",\"moderator_id\":");
        push_dec(&mut out, self.moderator_id);
        out.append(",\"moderator_name\":");
        push_json_str(&mut out, self.moderator_name.as_str());
        out.append(",\"moderator_discrim\":");
        push_dec(&mut out, self.moderator_discrim as u64);
        out.append(",\"channel_id\":");
        match self.channel_id {
            Some(c) => push_dec(&mut out, c),
            None => out.append("null"),
        }
        out.append("}");
        assert(out@ =~= entry_line(self));
        out
    }
}

// ---------------------------------------------------------------- notifications

pub open spec fn context_fields(ctx: Option<u64>) -> Seq<(Seq<char>, Seq<char>)> {
    match ctx {
        Some(c) => seq![("Channel"@, channel_mention(c))],
        None => Seq::empty(),
    }
}

pub open spec fn attachment_fields(atts: Seq<(Seq<char>, Seq<char>)>) -> Seq<(Seq<char>, Seq<char>)> {
    atts.map_values(|a: (Seq<char>, Seq<char>)| ("Attachment: "@ + a.0, a.1))
}

/// The fields of a deletion notice: author, moderator, channel when known, then one
/// entry per archived attachment.
pub open spec fn deletion_fields(
    msg: &DeletedMessage,
    moderator: &UserIdentity,
    ctx: Option<u64>,
    ok: Seq<bool>,
) -> Seq<(Seq<char>, Seq<char>)> {
    seq![("Sent by"@, user_identity_text(&msg.author)), ("Deleted by"@, user_identity_text(moderator))]
        + context_fields(ctx) + attachment_fields(archived(attachments_view(msg.attachments@), ok))
}

pub open spec fn reason_fields(moderator: &UserIdentity, ctx: Option<u64>) -> Seq<(Seq<char>, Seq<char>)> {
    seq![("Moderator"@, user_identity_text(moderator))] + context_fields(ctx)
}

/// `e` records an action of `moderator` in `ctx` at `timestamp`.
pub open spec fn entry_by(e: &ModLogEntry, moderator: &UserIdentity, ctx: Option<u64>, timestamp: u64) -> bool {
    &&& e.channel_id == ctx
    &&& e.moderator_id == moderator.id
    &&& e.moderator_name@ == moderator.name@
    &&& e.moderator_discrim == moderator.discriminator
    &&& e.timestamp == timestamp
}

/// `m` is the snapshot of `msg` with the attachments whose download succeeded.
pub open spec fn snapshot_of(m: &ModLogMessage, msg: &DeletedMessage, ok: Seq<bool>) -> bool {
    &&& m.id == msg.id
    &&& m.content@ == msg.content@
    &&& m.author_id == msg.author.id
    &&& m.author_name@ == msg.author.name@
    &&& m.author_discrim == msg.author.discriminator
    &&& strings_view(m.attachments@) == names_of(archived(attachments_view(msg.attachments@), ok))
}

fn field(name: &str, value: String) -> (r: EmbedField)
    ensures
        r.name@ == name@,
        r.value@ == value@,
{
    EmbedField { name: String::from_str(name), value }
}

fn push_context_field(fields: &mut Vec<EmbedField>, ctx: Option<u64>)
    ensures
        fields_view(final(fields)@) == fields_view(old(fields)@) + context_fields(ctx),
{
    if let Some(c) = ctx {
        let mut v = String::new();
        push_channel_mention(&mut v, c);
        fields.push(field("Channel", v));
    }
    assert(fields_view(final(fields)@) =~= fields_view(old(fields)@) + context_fields(ctx));
}

fn deletion_notice(
    channel_id: u64,
    msg: &DeletedMessage,
    moderator: &UserIdentity,
    ctx: Option<u64>,
    downloaded: &[bool],
) -> (r: Notification)
    requires
        downloaded@.len() == msg.attachments@.len(),
    ensures
        r.channel_id == channel_id,
        r.title@ == "Message removed by moderator"@,
        r.description@ == msg.content@,
        fields_view(r.fields@) == deletion_fields(msg, moderator, ctx, downloaded@),
{
    let mut fields: Vec<EmbedField> = Vec::new();
    fields.push(field("Sent by", format_user(&msg.author)));
    fields.push(field("Deleted by", format_user(moderator)));
    push_context_field(&mut fields, ctx);
    let ghost head = fields_view(fields@);
    let ghost av = attachments_view(msg.attachments@);
    let mut i: usize = 0;
    while i < msg.attachments.len()
        invariant
            i <= msg.attachments@.len(),
            downloaded@.len() == msg.attachments@.len(),
            av == attachments_view(msg.attachments@),
            fields_view(fields@) == head + attachment_fields(
                archived(av.take(i as int), downloaded@.take(i as int)),
            ),
        decreases msg.attachments@.len() - i,
    {
        let ghost prev = archived(av.take(i as int), downloaded@.take(i as int));
        assert(av.take(i as int + 1).drop_last() =~= av.take(i as int));
        assert(downloaded@.take(i as int + 1).drop_last() =~= downloaded@.take(i as int));
        assert(av.take(i as int + 1).last() == av[i as int]);
        assert(downloaded@.take(i as int + 1).last() == downloaded@[i as int]);
        assert(attachment_fields(prev.push(av[i as int])) =~= attachment_fields(prev).push(
            ("Attachment: "@ + av[i as int].0, av[i as int].1),
        ));
        assert(av[i as int].0 == msg.attachments@[i as int].filename@);
        assert(av[i as int].1 == msg.attachments@[i as int].url@);
        if downloaded[i] {
            let mut name = String::from_str("Attachment: ");
            name.append(msg.attachments[i].filename.as_str());
            let value = copy_string(&msg.attachments[i].url);
            let ghost fv = fields_view(fields@);
            let ghost nv = (name@, value@);
            fields.push(EmbedField { name, value });
            assert(fields_view(fields@) =~= fv.push(nv));
            assert(archived(av.take(i as int + 1), downloaded@.take(i as int + 1)) == prev.push(
                av[i as int],
            ));
        } else {
            assert(archived(av.take(i as int + 1), downloaded@.take(i as int + 1)) == prev);
        }
        assert(fields_view(fields@) =~= head + attachment_fields(
            archived(av.take(i as int + 1), downloaded@.take(i as int + 1)),
        ));
        i = i + 1;
    }
    assert(av.take(av.len() as int) =~= av);
    assert(downloaded@.take(av.len() as int) =~= downloaded@);
    Notification {
        channel_id,
        title: String::from_str("Message removed by moderator"),
        description: copy_string(&msg.content),
        fields,
    }
}

fn reason_notice(channel_id: u64, moderator: &UserIdentity, ctx: Option<u64>, reason: &String) -> (r: Notification)
    ensures
        r.channel_id == channel_id,
        r.title@ == "Reason added by moderator"@,
        r.description@ == reason@,
        fields_view(r.fields@) == reason_fields(moderator, ctx),
{
    let mut fields: Vec<EmbedField> = Vec::new();
    fields.push(field("Moderator", format_user(moderator)));
    push_context_field(&mut fields, ctx);
    Notification {
        channel_id,
        title: String::from_str("Reason added by moderator"),
        description: copy_string(reason),
        fields,
    }
}

/// Plans the record of a message deletion in community `g`: a notice for the audit
/// channel exactly when one is configured, whatever became of the attachments, and a
/// record for the local log in every case. `downloaded[i]` tells whether the `i`-th
/// attachment was archived.
pub fn record_deletion(
    store: &ConfigStore,
    g: u64,
    moderator: &UserIdentity,
    ctx: Option<u64>,
    timestamp: u64,
    msg: &DeletedMessage,
    downloaded: &[bool],
) -> (r: RecordPlan)
    requires
        store.wf(),
        downloaded@.len() == msg.attachments@.len(),
    ensures
        r.notification is Some <==> entry(store@, g).channel is Some,
        r.notification matches Some(n) ==> {
            &&& Some(n.channel_id) == entry(store@, g).channel
            &&& n.title@ == "Message removed by moderator"@
            &&& n.description@ == msg.content@
            &&& fields_view(n.fields@) == deletion_fields(msg, moderator, ctx, downloaded@)
        },
        entry_by(&r.entry, moderator, ctx, timestamp),
        r.entry.action matches ModLogAction::MessageDeleted(m) && snapshot_of(&m, msg, downloaded@),
{
    let notification = match store.get_modlog_channel(g) {
        Some(c) => Some(deletion_notice(c, msg, moderator, ctx, downloaded)),
        None => None,
    };
    let snapshot = ModLogMessage::from_message(msg, downloaded);
    let entry = ModLogEntry::new(moderator, ctx, timestamp, ModLogAction::MessageDeleted(snapshot));
    RecordPlan { notification, entry }
}

/// Plans the record of a reason noted by a moderator in community `g`: a notice for the
/// audit channel exactly when one is configured, and a record for the local log in
/// every case.
pub fn record_reason(
    store: &ConfigStore,
    g: u64,
    moderator: &UserIdentity,
    ctx: Option<u64>,
    timestamp: u64,
    reason: &String,
) -> (r: RecordPlan)
    requires
        store.wf(),
    ensures
        r.notification is Some <==> entry(store@, g).channel is Some,
        r.notification matches Some(n) ==> {
            &&& Some(n.channel_id) == entry(store@, g).channel
            &&& n.title@ == "Reason added by moderator"@
            &&& n.description@ == reason@
            &&& fields_view(n.fields@) == reason_fields(moderator, ctx)
        },
        entry_by(&r.entry, moderator, ctx, timestamp),
        r.entry.action matches ModLogAction::ReasonNoted(t) && t@ == reason@,
{
    let notification = match store.get_modlog_channel(g) {
        Some(c) => Some(reason_notice(c, moderator, ctx, reason)),
        None => None,
    };
    let entry = ModLogEntry::new(moderator, ctx, timestamp, ModLogAction::ReasonNoted(copy_string(reason)));
    RecordPlan { notification, entry }
}

pub open spec fn degraded_text() -> Seq<char> {
    "The modlog channel in this server has not been set up yet.  Moderation action will be logged to the logfile only."@
}

pub open spec fn delivery_failed_text() -> Seq<char> {
    "The modlog notification could not be delivered.  Moderation action was logged to the logfile only."@
}

/// What the moderator is told once an action is recorded.
pub open spec fn action_reply_text(kind: ActionKind, delivery: Delivery) -> Seq<char> {
    match delivery {
        Delivery::NoChannel => degraded_text(),
        Delivery::Failed => delivery_failed_text(),
        Delivery::Delivered => match kind {
            ActionKind::MessageDeleted => "Message deleted"@,
            ActionKind::ReasonNoted => "Reason recorded in the modlog."@,
        },
    }
}

/// The reply to the moderator: a degraded-mode notice when no audit channel is set up or
/// the notice could not be delivered, a confirmation otherwise.
pub fn action_reply(kind: ActionKind, delivery: Delivery) -> (r: String)
    ensures
        r@ == action_reply_text(kind, delivery),
{
    match delivery {
        Delivery::NoChannel => String::from_str(
            "The modlog channel in this server has not been set up yet.  Moderation action will be logged to the logfile only.",
        ),
        Delivery::Failed => String::from_str(
            "The modlog notification could not be delivered.  Moderation action was logged to the logfile only.",
        ),
        Delivery::Delivered => match kind {
            ActionKind::MessageDeleted => String::from_str("Message deleted"),
            ActionKind::ReasonNoted => String::from_str("Reason recorded in the modlog."),
        },
    }
}

} // verus!
