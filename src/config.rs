use vstd::prelude::*;

verus! {

/// The `moderator_roles` setting of one community.
pub enum RoleField {
    /// Never configured.
    Unset,
    /// A list of role ids, in the order they were added.
    Roles(Vec<u64>),
    /// Present in the stored file, but not shaped as a list of role ids; holds its text.
    Malformed(String),
}

pub enum RoleFieldView {
    Unset,
    Roles(Seq<u64>),
    Malformed(Seq<char>),
}

impl View for RoleField {
    type V = RoleFieldView;

    open spec fn view(&self) -> RoleFieldView {
        match self {
            RoleField::Unset => RoleFieldView::Unset,
            RoleField::Roles(v) => RoleFieldView::Roles(v@),
            RoleField::Malformed(s) => RoleFieldView::Malformed(s@),
        }
    }
}

/// The moderation settings of one community.
pub struct GuildModerationConfig {
    pub modlog_channel_id: Option<u64>,
    pub moderator_roles: RoleField,
}

pub struct GuildView {
    pub channel: Option<u64>,
    pub roles: RoleFieldView,
}

impl View for GuildModerationConfig {
    type V = GuildView;

    open spec fn view(&self) -> GuildView {
        GuildView { channel: self.modlog_channel_id, roles: self.moderator_roles@ }
    }
}

/// The settings of a community that has never been configured.
pub open spec fn default_guild() -> GuildView {
    GuildView { channel: None, roles: RoleFieldView::Unset }
}

/// The document: community ids with their settings, in order of first configuration.
pub type DocView = Seq<(u64, GuildView)>;

pub open spec fn has_key(d: DocView, g: u64) -> bool {
    exists|i: int| 0 <= i < d.len() && d[i].0 == g
}

pub open spec fn keys_unique(d: DocView) -> bool {
    forall|i: int, j: int| 0 <= i < d.len() && 0 <= j < d.len() && i != j ==> d[i].0 != d[j].0
}

/// The settings of community `g`; the default view when it has no entry.
pub open spec fn entry(d: DocView, g: u64) -> GuildView {
    if has_key(d, g) {
        d[choose|i: int| 0 <= i < d.len() && d[i].0 == g].1
    } else {
        default_guild()
    }
}

/// `d` with the settings of `g` replaced by `v`, or appended when `g` has no entry.
pub open spec fn upsert(d: DocView, g: u64, v: GuildView) -> DocView {
    if has_key(d, g) {
        d.map_values(|e: (u64, GuildView)| if e.0 == g { (g, v) } else { e })
    } else {
        d.push((g, v))
    }
}

/// A well-formed setting: a role list holds no id twice.
pub open spec fn roles_wf(r: RoleFieldView) -> bool {
    match r {
        RoleFieldView::Roles(rs) => rs.no_duplicates(),
        RoleFieldView::Malformed(raw) => crate::persist::malformed_text_ok(raw),
        RoleFieldView::Unset => true,
    }
}

pub open spec fn doc_wf(d: DocView) -> bool {
    &&& keys_unique(d)
    &&& forall|i: int| 0 <= i < d.len() ==> #[trigger] roles_wf(d[i].1.roles)
}

/// The role list that an add or a remove starts from: none when never configured.
pub open spec fn list_or_empty(r: RoleFieldView) -> Seq<u64> {
    match r {
        RoleFieldView::Roles(rs) => rs,
        _ => Seq::empty(),
    }
}

/// `rs` with `role` appended, unless it is already there.
pub open spec fn add_role(rs: Seq<u64>, role: u64) -> Seq<u64> {
    if rs.contains(role) {
        rs
    } else {
        rs.push(role)
    }
}

/// `rs` without `role`, the rest in order.
pub open spec fn without_role(rs: Seq<u64>, role: u64) -> Seq<u64>
    decreases rs.len(),
{
    if rs.len() == 0 {
        rs
    } else if rs.last() == role {
        without_role(rs.drop_last(), role)
    } else {
        without_role(rs.drop_last(), role).push(rs.last())
    }
}

/// What became of a role-list change.
#[derive(PartialEq, Eq, Structural, Clone, Copy, Debug)]
pub enum RoleOutcome {
    Added,
    AlreadyPresent,
    Removed,
    NotPresent,
}

/// A role-list change that was made: its outcome and the resulting list.
pub struct RoleUpdate {
    pub outcome: RoleOutcome,
    pub roles: Vec<u64>,
}

/// The stored moderator-role field is not shaped as a list; nothing was changed.
#[derive(PartialEq, Eq, Structural, Clone, Copy, Debug)]
pub struct ConfigurationFault;

/// Who may run moderation commands, and why.
#[derive(PartialEq, Eq, Structural, Clone, Copy, Debug)]
pub enum AuthDecision {
    /// No moderator roles were ever configured: anyone may.
    AllowUnconfigured,
    /// The role list is explicitly empty: anyone may.
    AllowUnrestricted,
    /// The member holds a moderator role.
    AllowRole,
    /// The stored role setting is malformed: nobody may.
    DenyMalformed,
    /// The member holds none of the moderator roles.
    DenyNoRole,
}

pub open spec fn shares_role(rs: Seq<u64>, member: Seq<u64>) -> bool {
    exists|i: int, j: int| 0 <= i < rs.len() && 0 <= j < member.len() && rs[i] == member[j]
}

pub open spec fn decision(r: RoleFieldView, member: Seq<u64>) -> AuthDecision {
    match r {
        RoleFieldView::Unset => AuthDecision::AllowUnconfigured,
        RoleFieldView::Malformed(_) => AuthDecision::DenyMalformed,
        RoleFieldView::Roles(rs) => if rs.len() == 0 {
            AuthDecision::AllowUnrestricted
        } else if shares_role(rs, member) {
            AuthDecision::AllowRole
        } else {
            AuthDecision::DenyNoRole
        },
    }
}

/// Whether a member holding `member` roles may moderate: yes when never configured or when
/// the list is empty, no when the setting is malformed, else iff a role is shared.
pub open spec fn permits(r: RoleFieldView, member: Seq<u64>) -> bool {
    match r {
        RoleFieldView::Unset => true,
        RoleFieldView::Malformed(_) => false,
        RoleFieldView::Roles(rs) => rs.len() == 0 || shares_role(rs, member),
    }
}

impl AuthDecision {
    pub open spec fn allows(self) -> bool {
        match self {
            AuthDecision::AllowUnconfigured | AuthDecision::AllowUnrestricted
            | AuthDecision::AllowRole => true,
            _ => false,
        }
    }
}

pub fn copy_ids(v: &Vec<u64>) -> (r: Vec<u64>)
    ensures
        r@ == v@,
{
    let mut r: Vec<u64> = Vec::new();
    let mut i: usize = 0;
    while i < v.len()
        invariant
            i <= v@.len(),
            r@ == v@.take(i as int),
        decreases v@.len() - i,
    {
        r.push(v[i]);
        assert(r@ =~= v@.take(i as int + 1));
        i = i + 1;
    }
    assert(v@.take(v@.len() as int) =~= v@);
    r
}

impl RoleField {
    pub fn copy(&self) -> (r: RoleField)
        ensures
            r@ == self@,
    {
        match self {
            RoleField::Unset => RoleField::Unset,
            RoleField::Roles(v) => RoleField::Roles(copy_ids(v)),
            RoleField::Malformed(s) => RoleField::Malformed(s.clone()),
        }
    }
}

impl GuildModerationConfig {
    pub fn copy(&self) -> (r: GuildModerationConfig)
        ensures
            r@ == self@,
    {
        GuildModerationConfig {
            modlog_channel_id: self.modlog_channel_id,
            moderator_roles: self.moderator_roles.copy(),
        }
    }
}

} // verus!
