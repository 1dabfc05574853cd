use vstd::prelude::*;

use crate::config::{
    add_role, copy_ids, decision, doc_wf, entry, has_key, keys_unique, list_or_empty, permits,
    roles_wf, shares_role, upsert, without_role, AuthDecision, ConfigurationFault, DocView,
    GuildModerationConfig, GuildView, RoleField, RoleFieldView, RoleOutcome, RoleUpdate,
};

verus! {

/// The per-community moderation settings, the single source of truth for them.
///
/// Every mutation is followed by a rewrite of the stored file with `render`; the caller
/// holds the store behind one exclusive lock, so that each read-modify-write is atomic.
pub struct ConfigStore {
    guilds: Vec<(u64, GuildModerationConfig)>,
}

pub open spec fn guilds_view(v: Seq<(u64, GuildModerationConfig)>) -> DocView {
    v.map_values(|e: (u64, GuildModerationConfig)| (e.0, e.1@))
}

impl View for ConfigStore {
    type V = DocView;

    closed spec fn view(&self) -> DocView {
        guilds_view(self.guilds@)
    }
}

/// With unique keys, the entry found at any index holding `g` is the settings of `g`.
pub proof fn lemma_entry_at(d: DocView, g: u64, i: int)
    requires
        keys_unique(d),
        0 <= i < d.len(),
        d[i].0 == g,
    ensures
        has_key(d, g),
        entry(d, g) == d[i].1,
{
    let k = choose|k: int| 0 <= k < d.len() && d[k].0 == g;
    assert(0 <= k < d.len() && d[k].0 == g);
}

/// What `without_role` keeps; a list free of duplicates stays so.
pub proof fn lemma_without_role(rs: Seq<u64>, role: u64)
    ensures
        forall|x: u64| #[trigger]
            without_role(rs, role).contains(x) <==> (rs.contains(x) && x != role),
        rs.no_duplicates() ==> without_role(rs, role).no_duplicates(),
        !rs.contains(role) ==> without_role(rs, role) == rs,
    decreases rs.len(),
{
    if rs.len() > 0 {
        let p = rs.drop_last();
        lemma_without_role(p, role);
        assert forall|x: u64| #[trigger] rs.contains(x) <==> (p.contains(x) || x == rs.last()) by {
            if rs.contains(x) {
                let k = choose|k: int| 0 <= k < rs.len() && rs[k] == x;
                if k < rs.len() - 1 {
                    assert(p[k] == x);
                }
            }
            if p.contains(x) {
                let k = choose|k: int| 0 <= k < p.len() && p[k] == x;
                assert(rs[k] == x);
            }
            if x == rs.last() {
                assert(rs[rs.len() - 1] == x);
            }
        }
        let w = without_role(p, role);
        if rs.last() != role {
            assert forall|x: u64| #[trigger] w.push(rs.last()).contains(x) <==> (w.contains(x)
                || x == rs.last()) by {
                if w.push(rs.last()).contains(x) {
                    let k = choose|k: int| 0 <= k < w.len() + 1 && w.push(rs.last())[k] == x;
                    if k < w.len() {
                        assert(w[k] == x);
                    }
                }
                if w.contains(x) {
                    let k = choose|k: int| 0 <= k < w.len() && w[k] == x;
                    assert(w.push(rs.last())[k] == x);
                }
                if x == rs.last() {
                    assert(w.push(rs.last())[w.len() as int] == x);
                }
            }
            if rs.no_duplicates() {
                assert(!p.contains(rs.last())) by {
                    if p.contains(rs.last()) {
                        let k = choose|k: int| 0 <= k < p.len() && p[k] == rs.last();
                        assert(rs[k] == rs[rs.len() - 1]);
                    }
                }
                assert(p.no_duplicates()) by {
                    assert forall|a: int, b: int| 0 <= a < p.len() && 0 <= b < p.len() && a != b
                        implies p[a] != p[b] by {
                        assert(p[a] == rs[a] && p[b] == rs[b]);
                    }
                }
                let q = w.push(rs.last());
                assert forall|a: int, b: int| 0 <= a < q.len() && 0 <= b < q.len() && a != b
                    implies q[a] != q[b] by {
                    if a == w.len() {
                        assert(w.contains(q[b]));
                    } else if b == w.len() {
                        assert(w.contains(q[a]));
                    }
                }
            }
            if !rs.contains(role) {
                assert(rs =~= p.push(rs.last()));
            }
        } else {
            if rs.no_duplicates() {
                assert(p.no_duplicates()) by {
                    assert forall|a: int, b: int| 0 <= a < p.len() && 0 <= b < p.len() && a != b
                        implies p[a] != p[b] by {
                        assert(p[a] == rs[a] && p[b] == rs[b]);
                    }
                }
            }
            assert(rs[rs.len() - 1] == role);
        }
    }
}

proof fn lemma_add_role(rs: Seq<u64>, role: u64)
    ensures
        forall|x: u64| #[trigger] add_role(rs, role).contains(x) <==> (rs.contains(x) || x == role),
        rs.no_duplicates() ==> add_role(rs, role).no_duplicates(),
{
    if !rs.contains(role) {
        let q = rs.push(role);
        assert forall|x: u64| #[trigger] q.contains(x) <==> (rs.contains(x) || x == role) by {
            if q.contains(x) {
                let k = choose|k: int| 0 <= k < q.len() && q[k] == x;
                if k < rs.len() {
                    assert(rs[k] == x);
                }
            }
            if rs.contains(x) {
                let k = choose|k: int| 0 <= k < rs.len() && rs[k] == x;
                assert(q[k] == x);
            }
            if x == role {
                assert(q[rs.len() as int] == x);
            }
        }
        if rs.no_duplicates() {
            assert forall|a: int, b: int| 0 <= a < q.len() && 0 <= b < q.len() && a != b
                implies q[a] != q[b] by {
                if a == rs.len() {
                    assert(rs.contains(q[b]));
                } else if b == rs.len() {
                    assert(rs.contains(q[a]));
                }
            }
        }
    }
}

fn contains_id(v: &[u64], x: u64) -> (r: bool)
    ensures
        r == v@.contains(x),
{
    let mut i: usize = 0;
    while i < v.len()
        invariant
            i <= v@.len(),
            forall|k: int| 0 <= k < i ==> v@[k] != x,
        decreases v@.len() - i,
    {
        if v[i] == x {
            return true;
        }
        i = i + 1;
    }
    false
}

fn any_shared(rs: &[u64], member: &[u64]) -> (r: bool)
    ensures
        r == shares_role(rs@, member@),
{
    let mut i: usize = 0;
    while i < rs.len()
        invariant
            i <= rs@.len(),
            forall|a: int, b: int| 0 <= a < i && 0 <= b < member@.len() ==> rs@[a] != member@[b],
        decreases rs@.len() - i,
    {
        if contains_id(member, rs[i]) {
            let ghost b = choose|b: int| 0 <= b < member@.len() && member@[b] == rs@[i as int];
            assert(rs@[i as int] == member@[b]);
            return true;
        }
        i = i + 1;
    }
    false
}

fn remove_id(v: &Vec<u64>, x: u64) -> (r: Vec<u64>)
    ensures
        r@ == without_role(v@, x),
{
    let mut r: Vec<u64> = Vec::new();
    let mut i: usize = 0;
    while i < v.len()
        invariant
            i <= v@.len(),
            r@ == without_role(v@.take(i as int), x),
        decreases v@.len() - i,
    {
        assert(v@.take(i as int + 1).drop_last() =~= v@.take(i as int));
        if v[i] != x {
            r.push(v[i]);
        }
        i = i + 1;
    }
    assert(v@.take(v@.len() as int) =~= v@);
    r
}

impl ConfigStore {
    /// Every community has at most one entry, and no role list holds an id twice.
    pub open spec fn wf(&self) -> bool {
        doc_wf(self@)
    }

    /// A store with no community configured.
    pub fn new() -> (r: ConfigStore)
        ensures
            r@ == Seq::<(u64, GuildView)>::empty(),
            r.wf(),
    {
        let r = ConfigStore { guilds: Vec::new() };
        assert(r@ =~= Seq::<(u64, GuildView)>::empty());
        r
    }

    /// A store holding the given entries, in order.
    pub(crate) fn from_entries(guilds: Vec<(u64, GuildModerationConfig)>) -> (r: ConfigStore)
        ensures
            r@ == guilds_view(guilds@),
    {
        ConfigStore { guilds }
    }

    /// The index of the entry of `g`, if any.
    fn find(&self, g: u64) -> (r: Option<usize>)
        requires
            self.wf(),
        ensures
            r is None ==> !has_key(self@, g) && entry(self@, g) == crate::config::default_guild(),
            r matches Some(i) ==> i < self@.len() && self@[i as int].0 == g && entry(self@, g)
                == self@[i as int].1,
    {
        let mut i: usize = 0;
        while i < self.guilds.len()
            invariant
                i <= self.guilds@.len(),
                self.wf(),
                self@.len() == self.guilds@.len(),
                forall|k: int| 0 <= k < i ==> self@[k].0 != g,
            decreases self.guilds@.len() - i,
        {
            if self.guilds[i].0 == g {
                proof {
                    lemma_entry_at(self@, g, i as int);
                }
                return Some(i);
            }
            i = i + 1;
        }
        None
    }

    /// Whether `g` has an entry of its own.
    pub fn contains(&self, g: u64) -> (r: bool)
        requires
            self.wf(),
        ensures
            r == has_key(self@, g),
    {
        self.find(g).is_some()
    }

    /// Number of configured communities.
    pub fn len(&self) -> (r: usize)
        ensures
            r == self@.len(),
    {
        self.guilds.len()
    }

    /// The id and a copy of the settings of the `i`-th configured community.
    pub fn entry_at(&self, i: usize) -> (r: (u64, GuildModerationConfig))
        requires
            i < self@.len(),
        ensures
            r.0 == self@[i as int].0,
            r.1@ == self@[i as int].1,
    {
        (self.guilds[i].0, self.guilds[i].1.copy())
    }

    /// A read-only copy of the settings of `g`; the default settings when it has none.
    pub fn get(&self, g: u64) -> (r: GuildModerationConfig)
        requires
            self.wf(),
        ensures
            r@ == entry(self@, g),
    {
        match self.find(g) {
            Some(i) => self.guilds[i].1.copy(),
            None => GuildModerationConfig {
                modlog_channel_id: None,
                moderator_roles: RoleField::Unset,
            },
        }
    }

    /// The audit channel of `g`, if one is configured.
    pub fn get_modlog_channel(&self, g: u64) -> (r: Option<u64>)
        requires
            self.wf(),
        ensures
            r == entry(self@, g).channel,
    {
        match self.find(g) {
            Some(i) => self.guilds[i].1.modlog_channel_id,
            None => None,
        }
    }

    /// Replaces the settings of `g`, or adds them after the others.
    fn store_guild(&mut self, g: u64, cfg: GuildModerationConfig)
        requires
            old(self).wf(),
            roles_wf(cfg@.roles),
        ensures
            final(self)@ == upsert(old(self)@, g, cfg@),
            final(self).wf(),
    {
        let ghost d = self@;
        let ghost v = cfg@;
        match self.find(g) {
            Some(i) => {
                self.guilds.set(i, (g, cfg));
                assert(self@ =~= upsert(d, g, v)) by {
                    assert forall|k: int| 0 <= k < d.len() implies #[trigger] self@[k] == upsert(
                        d,
                        g,
                        v,
                    )[k] by {
                        if k != i {
                            assert(d[k].0 != g);
                        }
                    }
                }
            },
            None => {
                self.guilds.push((g, cfg));
                assert(self@ =~= d.push((g, v)));
            },
        }
        assert(keys_unique(self@));
        assert forall|k: int| 0 <= k < self@.len() implies #[trigger] roles_wf(self@[k].1.roles) by {
            if self@[k].0 != g {
                assert(self@[k] == d[k]);
            }
        }
    }

    /// Sets the audit channel of `g` and returns the one it replaced.
    pub fn set_modlog_channel(&mut self, g: u64, channel: u64) -> (r: Option<u64>)
        requires
            old(self).wf(),
        ensures
            r == entry(old(self)@, g).channel,
            final(self)@ == upsert(
                old(self)@,
                g,
                GuildView { channel: Some(channel), roles: entry(old(self)@, g).roles },
            ),
            final(self).wf(),
    {
        let cur = self.get(g);
        proof {
            if has_key(self@, g) {
                let k = choose|k: int| 0 <= k < self@.len() && self@[k].0 == g;
                assert(roles_wf(self@[k].1.roles));
            }
        }
        let prev = cur.modlog_channel_id;
        self.store_guild(
            g,
            GuildModerationConfig { modlog_channel_id: Some(channel), moderator_roles: cur.moderator_roles },
        );
        prev
    }

    /// Adds `role` to the moderator roles of `g`, unless it is one already.
    /// A malformed role setting is left alone and reported.
    pub fn add_moderator_role(&mut self, g: u64, role: u64) -> (r: Result<RoleUpdate, ConfigurationFault>)
        requires
            old(self).wf(),
        ensures
            final(self).wf(),
            entry(old(self)@, g).roles is Malformed ==> r is Err && final(self)@ == old(self)@,
            !(entry(old(self)@, g).roles is Malformed) ==> r is Ok,
            r matches Ok(u) ==> (u.roles@ == add_role(
                list_or_empty(entry(old(self)@, g).roles),
                role,
            ) && (u.outcome == if list_or_empty(entry(old(self)@, g).roles).contains(role) {
                RoleOutcome::AlreadyPresent
            } else {
                RoleOutcome::Added
            }) && final(self)@ == upsert(
                old(self)@,
                g,
                GuildView {
                    channel: entry(old(self)@, g).channel,
                    roles: RoleFieldView::Roles(u.roles@),
                },
            )),
    {
        let cur = self.get(g);
        proof {
            if has_key(self@, g) {
                let k = choose|k: int| 0 <= k < self@.len() && self@[k].0 == g;
                assert(roles_wf(self@[k].1.roles));
            }
        }
        let mut list = match cur.moderator_roles {
            RoleField::Malformed(_) => {
                return Err(ConfigurationFault);
            },
            RoleField::Roles(v) => v,
            RoleField::Unset => Vec::new(),
        };
        proof {
            lemma_add_role(list@, role);
        }
        let outcome = if contains_id(list.as_slice(), role) {
            RoleOutcome::AlreadyPresent
        } else {
            list.push(role);
            RoleOutcome::Added
        };
        let result = copy_ids(&list);
        self.store_guild(
            g,
            GuildModerationConfig {
                modlog_channel_id: cur.modlog_channel_id,
                moderator_roles: RoleField::Roles(list),
            },
        );
        Ok(RoleUpdate { outcome, roles: result })
    }

    /// Removes `role` from the moderator roles of `g`, if it is one.
    /// A malformed role setting is left alone and reported.
    pub fn remove_moderator_role(&mut self, g: u64, role: u64) -> (r: Result<RoleUpdate, ConfigurationFault>)
        requires
            old(self).wf(),
        ensures
            final(self).wf(),
            entry(old(self)@, g).roles is Malformed ==> r is Err && final(self)@ == old(self)@,
            !(entry(old(self)@, g).roles is Malformed) ==> r is Ok,
            r matches Ok(u) ==> (u.roles@
                == without_role(list_or_empty(entry(old(self)@, g).roles), role) && (u.outcome
                == if list_or_empty(entry(old(self)@, g).roles).contains(role) {
                RoleOutcome::Removed
            } else {
                RoleOutcome::NotPresent
            }) && final(self)@ == upsert(
                old(self)@,
                g,
                GuildView {
                    channel: entry(old(self)@, g).channel,
                    roles: RoleFieldView::Roles(u.roles@),
                },
            )),
    {
        let cur = self.get(g);
        proof {
            if has_key(self@, g) {
                let k = choose|k: int| 0 <= k < self@.len() && self@[k].0 == g;
                assert(roles_wf(self@[k].1.roles));
            }
        }
        let list = match cur.moderator_roles {
            RoleField::Malformed(_) => {
                return Err(ConfigurationFault);
            },
            RoleField::Roles(v) => v,
            RoleField::Unset => Vec::new(),
        };
        proof {
            lemma_without_role(list@, role);
        }
        let outcome = if contains_id(list.as_slice(), role) {
            RoleOutcome::Removed
        } else {
            RoleOutcome::NotPresent
        };
        let rest = remove_id(&list, role);
        let result = copy_ids(&rest);
        self.store_guild(
            g,
            GuildModerationConfig {
                modlog_channel_id: cur.modlog_channel_id,
                moderator_roles: RoleField::Roles(rest),
            },
        );
        Ok(RoleUpdate { outcome, roles: result })
    }

    /// Decides whether a member holding `member_roles` may run moderation commands in `g`,
    /// and why.
    pub fn authorize(&self, g: u64, member_roles: &[u64]) -> (r: AuthDecision)
        requires
            self.wf(),
        ensures
            r == decision(entry(self@, g).roles, member_roles@),
    {
        match self.find(g) {
            None => AuthDecision::AllowUnconfigured,
            Some(i) => match &self.guilds[i].1.moderator_roles {
                RoleField::Unset => AuthDecision::AllowUnconfigured,
                RoleField::Malformed(_) => AuthDecision::DenyMalformed,
                RoleField::Roles(rs) => if rs.len() == 0 {
                    AuthDecision::AllowUnrestricted
                } else if any_shared(rs.as_slice(), member_roles) {
                    AuthDecision::AllowRole
                } else {
                    AuthDecision::DenyNoRole
                },
            },
        }
    }

    /// Whether a member holding `member_roles` may run moderation commands in `g`: yes for a
    /// community never configured and for an empty role list, no for a malformed role
    /// setting whatever the member holds, otherwise yes iff the member holds a listed role.
    pub fn is_moderator(&self, g: u64, member_roles: &[u64]) -> (r: bool)
        requires
            self.wf(),
        ensures
            r == permits(entry(self@, g).roles, member_roles@),
    {
        let d = self.authorize(g, member_roles);
        match d {
            AuthDecision::AllowUnconfigured | AuthDecision::AllowUnrestricted
            | AuthDecision::AllowRole => true,
            _ => false,
        }
    }
}

/// One change of a community's moderator-role list.
pub enum RoleOp {
    Add(u64),
    Remove(u64),
}

pub open spec fn apply_role_op(rs: Seq<u64>, op: RoleOp) -> Seq<u64> {
    match op {
        RoleOp::Add(r) => add_role(rs, r),
        RoleOp::Remove(r) => without_role(rs, r),
    }
}

/// The list after the changes `ops`, applied in call order.
pub open spec fn apply_role_ops(rs: Seq<u64>, ops: Seq<RoleOp>) -> Seq<u64>
    decreases ops.len(),
{
    if ops.len() == 0 {
        rs
    } else {
        apply_role_op(apply_role_ops(rs, ops.drop_last()), ops.last())
    }
}

/// The set of roles after the changes `ops`, applied in call order.
pub open spec fn set_after_ops(s: Set<u64>, ops: Seq<RoleOp>) -> Set<u64>
    decreases ops.len(),
{
    if ops.len() == 0 {
        s
    } else {
        match ops.last() {
            RoleOp::Add(r) => set_after_ops(s, ops.drop_last()).insert(r),
            RoleOp::Remove(r) => set_after_ops(s, ops.drop_last()).remove(r),
        }
    }
}

/// However adds and removes of moderator roles follow one another on one community, the
/// list never holds a role twice, and it holds exactly the set of roles obtained by
/// applying the operations in their call order.
pub proof fn lemma_role_ops(rs: Seq<u64>, ops: Seq<RoleOp>)
    requires
        rs.no_duplicates(),
    ensures
        apply_role_ops(rs, ops).no_duplicates(),
        apply_role_ops(rs, ops).to_set() == set_after_ops(rs.to_set(), ops),
    decreases ops.len(),
{
    if ops.len() > 0 {
        lemma_role_ops(rs, ops.drop_last());
        let p = apply_role_ops(rs, ops.drop_last());
        match ops.last() {
            RoleOp::Add(r) => {
                lemma_add_role(p, r);
                assert(add_role(p, r).to_set() =~= p.to_set().insert(r));
            },
            RoleOp::Remove(r) => {
                lemma_without_role(p, r);
                assert(without_role(p, r).to_set() =~= p.to_set().remove(r));
            },
        }
    }
}

/// After `upsert`, `g` has settings `v`, every other community keeps its settings, and
/// no community has two entries.
pub proof fn lemma_entry_upsert(d: DocView, g: u64, v: GuildView)
    requires
        keys_unique(d),
    ensures
        keys_unique(upsert(d, g, v)),
        entry(upsert(d, g, v), g) == v,
        forall|h: u64| h != g ==> entry(upsert(d, g, v), h) == entry(d, h),
{
    let u = upsert(d, g, v);
    if has_key(d, g) {
        let k = choose|k: int| 0 <= k < d.len() && d[k].0 == g;
        assert(forall|j: int| 0 <= j < d.len() ==> u[j].0 == d[j].0);
        assert(keys_unique(u));
        lemma_entry_at(u, g, k);
        assert forall|h: u64| h != g implies entry(u, h) == entry(d, h) by {
            if has_key(d, h) {
                let j = choose|j: int| 0 <= j < d.len() && d[j].0 == h;
                lemma_entry_at(d, h, j);
                lemma_entry_at(u, h, j);
            } else {
                assert(!has_key(u, h));
            }
        }
    } else {
        assert(keys_unique(u)) by {
            assert forall|i: int, j: int| 0 <= i < u.len() && 0 <= j < u.len() && i != j implies u[i].0
                != u[j].0 by {
                if i < d.len() && j < d.len() {
                } else if i < d.len() {
                    assert(u[i] == d[i]);
                } else {
                    assert(u[j] == d[j]);
                }
            }
        }
        lemma_entry_at(u, g, d.len() as int);
        assert forall|h: u64| h != g implies entry(u, h) == entry(d, h) by {
            if has_key(d, h) {
                let j = choose|j: int| 0 <= j < d.len() && d[j].0 == h;
                lemma_entry_at(d, h, j);
                lemma_entry_at(u, h, j);
            } else {
                assert(!has_key(u, h)) by {
                    if has_key(u, h) {
                        let j = choose|j: int| 0 <= j < u.len() && u[j].0 == h;
                        assert(u[j] == d[j]);
                    }
                }
            }
        }
    }
}

} // verus!
