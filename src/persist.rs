use vstd::prelude::*;

use crate::config::{
    default_guild, doc_wf, has_key, keys_unique, roles_wf, DocView, GuildView, RoleFieldView,
};
use crate::config::{GuildModerationConfig, RoleField};
use crate::decimal::{dec, push_char, push_dec};
use crate::store::{guilds_view, ConfigStore};

verus! {

// The stored file holds one section per community:
//
//     [<community id>]
//     modlog_channel_id = <channel id>
//     moderator_roles = [<role id>, <role id>, ...]
//
// Both settings are optional. Empty lines and lines that start with `#` are ignored.

/// The pieces of `s` between occurrences of `c`; always at least one.
pub open spec fn split(s: Seq<char>, c: char) -> Seq<Seq<char>>
    decreases s.len(),
{
    if s.len() == 0 {
        seq![Seq::empty()]
    } else {
        let p = split(s.drop_last(), c);
        if s.last() == c {
            p.push(Seq::empty())
        } else {
            p.update(p.len() - 1, p.last().push(s.last()))
        }
    }
}

pub open spec fn is_digit(c: char) -> bool {
    '0' <= c && c <= '9'
}

/// The value of the digits of `s`, as long as it fits in a `u64`.
pub open spec fn dec_acc(s: Seq<char>) -> Option<u64>
    decreases s.len(),
{
    if s.len() == 0 {
        Some(0)
    } else {
        match dec_acc(s.drop_last()) {
            Some(v) => if is_digit(s.last()) && v * 10 + (s.last() as int - 48) <= u64::MAX {
                Some((v * 10 + (s.last() as int - 48)) as u64)
            } else {
                None
            },
            None => None,
        }
    }
}

/// A non-empty run of decimal digits whose value fits in a `u64`.
pub open spec fn parse_dec(s: Seq<char>) -> Option<u64> {
    if s.len() == 0 {
        None
    } else {
        dec_acc(s)
    }
}

/// The index of the first character at or after `i` that is not a space.
pub open spec fn skip_spaces(s: Seq<char>, i: int) -> int
    decreases s.len() - i,
{
    if 0 <= i < s.len() && s[i] == ' ' {
        skip_spaces(s, i + 1)
    } else {
        i
    }
}

/// The index just after the last character before `j` that is not a space.
pub open spec fn skip_spaces_back(s: Seq<char>, j: int) -> int
    decreases j,
{
    if 0 < j <= s.len() && s[j - 1] == ' ' {
        skip_spaces_back(s, j - 1)
    } else {
        j
    }
}

/// `s` without leading and trailing spaces.
pub open spec fn trim(s: Seq<char>) -> Seq<char> {
    let a = skip_spaces(s, 0);
    let b = skip_spaces_back(s, s.len() as int);
    if a < b {
        s.subrange(a, b)
    } else {
        Seq::empty()
    }
}

/// The ids of comma-separated pieces, each a number with optional spaces around it.
pub open spec fn parse_ids(ps: Seq<Seq<char>>) -> Option<Seq<u64>>
    decreases ps.len(),
{
    if ps.len() == 0 {
        Some(Seq::empty())
    } else {
        match parse_ids(ps.drop_last()) {
            Some(v) => match parse_dec(trim(ps.last())) {
                Some(x) => Some(v.push(x)),
                None => None,
            },
            None => None,
        }
    }
}

/// A bracketed list of ids: `[]`, or `[1, 2, 3]`.
pub open spec fn parse_list(s: Seq<char>) -> Option<Seq<u64>> {
    if s.len() >= 2 && s[0] == '[' && s.last() == ']' {
        let inner = s.subrange(1, s.len() - 1);
        if inner.len() == 0 {
            Some(Seq::empty())
        } else {
            parse_ids(split(inner, ','))
        }
    } else {
        None
    }
}

/// Text that a malformed role setting may hold and still be written back unchanged:
/// one line, and not a list of distinct ids.
pub open spec fn malformed_text_ok(raw: Seq<char>) -> bool {
    &&& !raw.contains('\n')
    &&& !(parse_list(raw) matches Some(rs) && rs.no_duplicates())
}

pub open spec fn channel_key() -> Seq<char> {
    "modlog_channel_id = "@
}

pub open spec fn roles_key() -> Seq<char> {
    "moderator_roles = "@
}

pub open spec fn starts_with(s: Seq<char>, p: Seq<char>) -> bool {
    s.len() >= p.len() && s.subrange(0, p.len() as int) == p
}

/// The role setting that the text after `moderator_roles = ` stands for.
pub open spec fn roles_of_text(raw: Seq<char>) -> RoleFieldView {
    match parse_list(raw) {
        Some(rs) => if rs.no_duplicates() {
            RoleFieldView::Roles(rs)
        } else {
            RoleFieldView::Malformed(raw)
        },
        None => RoleFieldView::Malformed(raw),
    }
}

/// `d` with the settings of its last community replaced by `v`.
pub open spec fn set_last(d: DocView, v: GuildView) -> DocView {
    d.update(d.len() - 1, (d.last().0, v))
}

/// The document after one more line; none when the line is not understood.
pub open spec fn step(d: DocView, line: Seq<char>) -> Option<DocView> {
    if line.len() == 0 || line[0] == '#' {
        Some(d)
    } else if line[0] == '[' {
        if line.len() >= 2 && line.last() == ']' {
            match parse_dec(line.subrange(1, line.len() - 1)) {
                Some(g) => if has_key(d, g) {
                    None
                } else {
                    Some(d.push((g, default_guild())))
                },
                None => None,
            }
        } else {
            None
        }
    } else if starts_with(line, channel_key()) {
        if d.len() == 0 {
            None
        } else {
            match parse_dec(line.subrange(channel_key().len() as int, line.len() as int)) {
                Some(c) => Some(
                    set_last(d, GuildView { channel: Some(c), roles: d.last().1.roles }),
                ),
                None => None,
            }
        }
    } else if starts_with(line, roles_key()) {
        if d.len() == 0 {
            None
        } else {
            let raw = line.subrange(roles_key().len() as int, line.len() as int);
            Some(set_last(d, GuildView { channel: d.last().1.channel, roles: roles_of_text(raw) }))
        }
    } else {
        None
    }
}

pub open spec fn parse_lines(ls: Seq<Seq<char>>) -> Option<DocView>
    decreases ls.len(),
{
    if ls.len() == 0 {
        Some(Seq::empty())
    } else {
        match parse_lines(ls.drop_last()) {
            Some(d) => step(d, ls.last()),
            None => None,
        }
    }
}

/// The document that a stored file holds; none when the file is not understood.
pub open spec fn parse_doc(text: Seq<char>) -> Option<DocView> {
    parse_lines(split(text, '\n'))
}

/// The role ids separated by `", "`.
pub open spec fn ids_text(rs: Seq<u64>) -> Seq<char>
    decreases rs.len(),
{
    if rs.len() == 0 {
        Seq::empty()
    } else if rs.len() == 1 {
        dec(rs[0] as nat)
    } else {
        ids_text(rs.drop_last()) + seq![',', ' '] + dec(rs.last() as nat)
    }
}

pub open spec fn list_text(rs: Seq<u64>) -> Seq<char> {
    seq!['['] + ids_text(rs) + seq![']']
}

pub open spec fn header_line(g: u64) -> Seq<char> {
    seq!['['] + dec(g as nat) + seq![']']
}

pub open spec fn channel_lines(c: Option<u64>) -> Seq<Seq<char>> {
    match c {
        Some(c) => seq![channel_key() + dec(c as nat)],
        None => Seq::empty(),
    }
}

pub open spec fn roles_lines(r: RoleFieldView) -> Seq<Seq<char>> {
    match r {
        RoleFieldView::Unset => Seq::empty(),
        RoleFieldView::Roles(rs) => seq![roles_key() + list_text(rs)],
        RoleFieldView::Malformed(raw) => seq![roles_key() + raw],
    }
}

pub open spec fn section_lines(e: (u64, GuildView)) -> Seq<Seq<char>> {
    seq![header_line(e.0)] + channel_lines(e.1.channel) + roles_lines(e.1.roles)
}

pub open spec fn doc_lines(d: DocView) -> Seq<Seq<char>>
    decreases d.len(),
{
    if d.len() == 0 {
        Seq::empty()
    } else {
        doc_lines(d.drop_last()) + section_lines(d.last())
    }
}

/// Each line followed by a line break.
pub open spec fn lines_text(ls: Seq<Seq<char>>) -> Seq<char>
    decreases ls.len(),
{
    if ls.len() == 0 {
        Seq::empty()
    } else {
        lines_text(ls.drop_last()) + ls.last() + seq!['\n']
    }
}

/// The text of the stored file for document `d`.
pub open spec fn doc_text(d: DocView) -> Seq<char> {
    lines_text(doc_lines(d))
}

// ---------------------------------------------------------------- lemmas

proof fn lemma_split_len(s: Seq<char>, c: char)
    ensures
        split(s, c).len() >= 1,
    decreases s.len(),
{
    if s.len() > 0 {
        lemma_split_len(s.drop_last(), c);
    }
}

/// Appending text without the separator extends the last piece.
proof fn lemma_split_append(a: Seq<char>, b: Seq<char>, c: char)
    requires
        !b.contains(c),
    ensures
        split(a + b, c) == split(a, c).update(split(a, c).len() - 1, split(a, c).last() + b),
    decreases b.len(),
{
    lemma_split_len(a, c);
    if b.len() == 0 {
        assert(a + b =~= a);
        assert(split(a, c).last() + b =~= split(a, c).last());
        assert(split(a, c).update(split(a, c).len() - 1, split(a, c).last()) =~= split(a, c));
    } else {
        let b2 = b.drop_last();
        assert(!b2.contains(c)) by {
            if b2.contains(c) {
                let k = choose|k: int| 0 <= k < b2.len() && b2[k] == c;
                assert(b[k] == c);
            }
        }
        lemma_split_append(a, b2, c);
        assert((a + b).drop_last() =~= a + b2);
        assert(b[b.len() - 1] != c);
        lemma_split_len(a + b2, c);
        assert((split(a, c).last() + b2).push(b.last()) =~= split(a, c).last() + b);
        assert(split(a + b, c) =~= split(a, c).update(
            split(a, c).len() - 1,
            split(a, c).last() + b,
        ));
    }
}

proof fn lemma_split_sep(a: Seq<char>, c: char)
    ensures
        split(a.push(c), c) == split(a, c).push(Seq::empty()),
{
    assert(a.push(c).drop_last() =~= a);
}

/// Splitting the text of lines that hold no line break gives the lines back, then an empty one.
proof fn lemma_split_lines_text(ls: Seq<Seq<char>>)
    requires
        forall|i: int| 0 <= i < ls.len() ==> !(#[trigger] ls[i]).contains('\n'),
    ensures
        split(lines_text(ls), '\n') == ls.push(Seq::empty()),
    decreases ls.len(),
{
    if ls.len() == 0 {
        assert(split(Seq::<char>::empty(), '\n') =~= seq![Seq::<char>::empty()]);
        assert(ls.push(Seq::empty()) =~= seq![Seq::<char>::empty()]);
    } else {
        let p = ls.drop_last();
        assert forall|i: int| 0 <= i < p.len() implies !(#[trigger] p[i]).contains('\n') by {
            assert(p[i] == ls[i]);
        }
        lemma_split_lines_text(p);
        let a = lines_text(p);
        assert(!ls[ls.len() - 1].contains('\n'));
        lemma_split_append(a, ls.last(), '\n');
        lemma_split_sep(a + ls.last(), '\n');
        assert(lines_text(ls) =~= (a + ls.last()).push('\n'));
        assert(Seq::<char>::empty() + ls.last() =~= ls.last());
        assert(split(a + ls.last(), '\n') =~= p.push(ls.last()));
        assert(split(lines_text(ls), '\n') =~= ls.push(Seq::empty()));
    }
}

proof fn lemma_dec_digits(n: nat)
    ensures
        dec(n).len() >= 1,
        forall|i: int| 0 <= i < dec(n).len() ==> is_digit(#[trigger] dec(n)[i]),
    decreases n,
{
    if n >= 10 {
        lemma_dec_digits(n / 10);
        let p = dec(n / 10);
        assert forall|i: int| 0 <= i < dec(n).len() implies is_digit(#[trigger] dec(n)[i]) by {
            if i < p.len() {
                assert(dec(n)[i] == p[i]);
            }
        }
    }
}

proof fn lemma_dec_acc(n: u64)
    ensures
        dec_acc(dec(n as nat)) == Some(n),
        parse_dec(dec(n as nat)) == Some(n),
    decreases n,
{
    lemma_dec_digits(n as nat);
    let s = dec(n as nat);
    assert(is_digit(s[s.len() - 1]));
    if n < 10 {
        assert(s.drop_last() =~= Seq::<char>::empty());
        assert(dec_acc(s.drop_last()) == Some(0u64));
        assert(s.last() as int - 48 == n);
    } else {
        lemma_dec_acc(n / 10);
        assert(s.drop_last() =~= dec((n / 10) as nat));
        assert(dec_acc(s.drop_last()) == Some((n / 10) as u64));
        assert(s.last() as int - 48 == n % 10);
        assert((n / 10) * 10 + n % 10 == n);
    }
}

proof fn lemma_digits_no_char(s: Seq<char>, c: char)
    requires
        !is_digit(c),
        forall|i: int| 0 <= i < s.len() ==> is_digit(#[trigger] s[i]),
    ensures
        !s.contains(c),
{
}

proof fn lemma_trim_digits(s: Seq<char>)
    requires
        s.len() >= 1,
        forall|i: int| 0 <= i < s.len() ==> is_digit(#[trigger] s[i]),
    ensures
        trim(s) == s,
        trim(seq![' '] + s) == s,
{
    assert(skip_spaces(s, 0) == 0);
    assert(skip_spaces_back(s, s.len() as int) == s.len());
    assert(s.subrange(0, s.len() as int) =~= s);
    let t = seq![' '] + s;
    assert(t[0] == ' ');
    assert(t[1] == s[0]);
    assert(skip_spaces(t, 1) == 1);
    assert(skip_spaces(t, 0) == 1);
    assert(t[t.len() - 1] == s[s.len() - 1]);
    assert(skip_spaces_back(t, t.len() as int) == t.len());
    assert(t.subrange(1, t.len() as int) =~= s);
}

/// The pieces of the ids text, split at commas.
pub open spec fn id_pieces(rs: Seq<u64>) -> Seq<Seq<char>> {
    Seq::new(
        rs.len(),
        |i: int|
            if i == 0 {
                dec(rs[0] as nat)
            } else {
                seq![' '] + dec(rs[i] as nat)
            },
    )
}

proof fn lemma_ids_text(rs: Seq<u64>)
    requires
        rs.len() >= 1,
    ensures
        split(ids_text(rs), ',') == id_pieces(rs),
        parse_ids(id_pieces(rs)) == Some(rs),
        !ids_text(rs).contains('\n'),
        ids_text(rs).len() >= 1,
    decreases rs.len(),
{
    lemma_dec_digits(rs.last() as nat);
    lemma_dec_acc(rs.last());
    lemma_trim_digits(dec(rs.last() as nat));
    if rs.len() == 1 {
        lemma_digits_no_char(dec(rs[0] as nat), ',');
        lemma_digits_no_char(dec(rs[0] as nat), '\n');
        lemma_split_append(Seq::empty(), dec(rs[0] as nat), ',');
        assert(Seq::<char>::empty() + dec(rs[0] as nat) =~= dec(rs[0] as nat));
        assert(split(Seq::<char>::empty(), ',') =~= seq![Seq::<char>::empty()]);
        assert(split(ids_text(rs), ',') =~= id_pieces(rs));
        assert(id_pieces(rs).drop_last() =~= Seq::<Seq<char>>::empty());
        assert(Seq::<u64>::empty().push(rs[0]) =~= rs);
        assert(id_pieces(rs).last() == dec(rs[0] as nat));
        assert(parse_ids(id_pieces(rs).drop_last()) == Some(Seq::<u64>::empty()));
    } else {
        let p = rs.drop_last();
        lemma_ids_text(p);
        let a = ids_text(p);
        let tail = seq![' '] + dec(rs.last() as nat);
        assert(!tail.contains(',')) by {
            if tail.contains(',') {
                let k = choose|k: int| 0 <= k < tail.len() && tail[k] == ',';
                assert(k >= 1);
                assert(tail[k] == dec(rs.last() as nat)[k - 1]);
            }
        }
        assert(ids_text(rs) =~= a.push(',') + tail);
        lemma_split_sep(a, ',');
        lemma_split_append(a.push(','), tail, ',');
        assert(Seq::<char>::empty() + tail =~= tail);
        assert(split(ids_text(rs), ',') =~= id_pieces(rs));
        assert(id_pieces(rs).drop_last() =~= id_pieces(p));
        assert(!ids_text(rs).contains('\n')) by {
            if ids_text(rs).contains('\n') {
                let k = choose|k: int| 0 <= k < ids_text(rs).len() && ids_text(rs)[k] == '\n';
                if k < a.len() {
                    assert(a[k] == '\n');
                } else if k >= a.len() + 2 {
                    assert(dec(rs.last() as nat)[k - a.len() - 2] == '\n');
                }
            }
        }
        assert(id_pieces(rs).last() == tail);
        assert(p.push(rs.last()) =~= rs);
    }
}

proof fn lemma_list_text(rs: Seq<u64>)
    ensures
        parse_list(list_text(rs)) == Some(rs),
        !list_text(rs).contains('\n'),
{
    let s = list_text(rs);
    assert(s.subrange(1, s.len() - 1) =~= ids_text(rs));
    if rs.len() == 0 {
        assert(ids_text(rs).len() == 0);
        assert(rs =~= Seq::<u64>::empty());
    } else {
        lemma_ids_text(rs);
        assert(!list_text(rs).contains('\n')) by {
            if s.contains('\n') {
                let k = choose|k: int| 0 <= k < s.len() && s[k] == '\n';
                assert(ids_text(rs)[k - 1] == '\n');
            }
        }
    }
}

proof fn lemma_concat_no(a: Seq<char>, b: Seq<char>, x: char)
    requires
        !a.contains(x),
        !b.contains(x),
    ensures
        !(a + b).contains(x),
{
    if (a + b).contains(x) {
        let k = choose|k: int| 0 <= k < (a + b).len() && (a + b)[k] == x;
        if k < a.len() {
            assert(a[k] == x);
        } else {
            assert(b[k - a.len()] == x);
        }
    }
}

proof fn lemma_parse_push(ls: Seq<Seq<char>>, l: Seq<char>)
    ensures
        parse_lines(ls.push(l)) == match parse_lines(ls) {
            Some(d) => step(d, l),
            None => None,
        },
{
    assert(ls.push(l).drop_last() =~= ls);
}

/// The lines of one section are read back into the section, after any document without it.
proof fn lemma_section(ls: Seq<Seq<char>>, d: DocView, e: (u64, GuildView))
    requires
        parse_lines(ls) == Some(d),
        !has_key(d, e.0),
        roles_wf(e.1.roles),
    ensures
        parse_lines(ls + section_lines(e)) == Some(d.push(e)),
        forall|i: int| 0 <= i < section_lines(e).len() ==> !(#[trigger] section_lines(
            e,
        )[i]).contains('\n'),
{
    reveal_strlit("modlog_channel_id = ");
    reveal_strlit("moderator_roles = ");
    let g = e.0;
    let h = header_line(g);
    lemma_dec_digits(g as nat);
    lemma_dec_acc(g);
    assert(h.subrange(1, h.len() - 1) =~= dec(g as nat));
    lemma_parse_push(ls, h);
    let d1 = d.push((g, default_guild()));
    assert(parse_lines(ls.push(h)) == Some(d1));
    assert(!h.contains('\n')) by {
        lemma_digits_no_char(dec(g as nat), '\n');
        lemma_concat_no(seq!['['], dec(g as nat), '\n');
        lemma_concat_no(seq!['['] + dec(g as nat), seq![']'], '\n');
    }
    let ls1 = ls.push(h);
    let cl = channel_lines(e.1.channel);
    let d2 = set_last(d1, GuildView { channel: e.1.channel, roles: RoleFieldView::Unset });
    assert(parse_lines(ls1 + cl) == Some(d2) && forall|i: int|
        0 <= i < cl.len() ==> !(#[trigger] cl[i]).contains('\n')) by {
        match e.1.channel {
            Some(c) => {
                let l = channel_key() + dec(c as nat);
                lemma_dec_digits(c as nat);
                lemma_dec_acc(c);
                assert(l[0] == 'm');
                assert(l.subrange(0, channel_key().len() as int) =~= channel_key());
                assert(l.subrange(channel_key().len() as int, l.len() as int) =~= dec(c as nat));
                assert(ls1 + cl =~= ls1.push(l));
                lemma_parse_push(ls1, l);
                assert(set_last(d1, GuildView { channel: Some(c), roles: d1.last().1.roles })
                    =~= d2);
                lemma_digits_no_char(dec(c as nat), '\n');
                assert(!channel_key().contains('\n'));
                lemma_concat_no(channel_key(), dec(c as nat), '\n');
                assert(cl[0] == l);
            },
            None => {
                assert(ls1 + cl =~= ls1);
                assert(d2 =~= d1);
            },
        }
    }
    let ls2 = ls1 + cl;
    let rl = roles_lines(e.1.roles);
    let d3 = set_last(d2, e.1);
    assert(parse_lines(ls2 + rl) == Some(d3) && forall|i: int|
        0 <= i < rl.len() ==> !(#[trigger] rl[i]).contains('\n')) by {
        assert(!roles_key().contains('\n'));
        match e.1.roles {
            RoleFieldView::Unset => {
                assert(ls2 + rl =~= ls2);
                assert(d3 =~= d2);
            },
            RoleFieldView::Roles(rs) => {
                let l = roles_key() + list_text(rs);
                lemma_list_text(rs);
                assert(l[0] == 'm');
                assert(l[3] == 'e');
                assert(!starts_with(l, channel_key())) by {
                    if l.len() >= channel_key().len() {
                        assert(l.subrange(0, channel_key().len() as int)[3] == 'e');
                    }
                }
                assert(l.subrange(0, roles_key().len() as int) =~= roles_key());
                assert(l.subrange(roles_key().len() as int, l.len() as int) =~= list_text(rs));
                assert(ls2 + rl =~= ls2.push(l));
                lemma_parse_push(ls2, l);
                lemma_concat_no(roles_key(), list_text(rs), '\n');
                assert(rl[0] == l);
            },
            RoleFieldView::Malformed(raw) => {
                let l = roles_key() + raw;
                assert(l[0] == 'm');
                assert(l[3] == 'e');
                assert(!starts_with(l, channel_key())) by {
                    if l.len() >= channel_key().len() {
                        assert(l.subrange(0, channel_key().len() as int)[3] == 'e');
                    }
                }
                assert(l.subrange(0, roles_key().len() as int) =~= roles_key());
                assert(l.subrange(roles_key().len() as int, l.len() as int) =~= raw);
                assert(ls2 + rl =~= ls2.push(l));
                lemma_parse_push(ls2, l);
                lemma_concat_no(roles_key(), raw, '\n');
                assert(rl[0] == l);
            },
        }
    }
    assert(d3 =~= d.push(e));
    assert(ls + section_lines(e) =~= ls2 + rl);
    let sl = section_lines(e);
    assert forall|i: int| 0 <= i < sl.len() implies !(#[trigger] sl[i]).contains('\n') by {
        if i == 0 {
            assert(sl[0] == h);
        } else if i < 1 + cl.len() {
            assert(sl[i] == cl[i - 1]);
        } else {
            assert(sl[i] == rl[i - 1 - cl.len()]);
        }
    }
}

proof fn lemma_doc_lines(d: DocView)
    requires
        doc_wf(d),
    ensures
        parse_lines(doc_lines(d)) == Some(d),
        forall|i: int| 0 <= i < doc_lines(d).len() ==> !(#[trigger] doc_lines(d)[i]).contains(
            '\n',
        ),
    decreases d.len(),
{
    if d.len() == 0 {
        assert(d =~= Seq::<(u64, GuildView)>::empty());
    } else {
        let p = d.drop_last();
        let e = d.last();
        assert(doc_wf(p)) by {
            assert forall|i: int| 0 <= i < p.len() implies #[trigger] roles_wf(p[i].1.roles) by {
                assert(p[i] == d[i]);
            }
            assert forall|i: int, j: int|
                0 <= i < p.len() && 0 <= j < p.len() && i != j implies p[i].0 != p[j].0 by {
                assert(p[i] == d[i] && p[j] == d[j]);
            }
        }
        lemma_doc_lines(p);
        assert(!has_key(p, e.0)) by {
            if has_key(p, e.0) {
                let k = choose|k: int| 0 <= k < p.len() && p[k].0 == e.0;
                assert(d[k].0 == d[d.len() - 1].0);
            }
        }
        assert(roles_wf(d[d.len() - 1].1.roles));
        lemma_section(doc_lines(p), p, e);
        assert(p.push(e) =~= d);
        let a = doc_lines(p);
        let b = section_lines(e);
        assert forall|i: int| 0 <= i < doc_lines(d).len() implies !(#[trigger] doc_lines(
            d,
        )[i]).contains('\n') by {
            if i < a.len() {
                assert(doc_lines(d)[i] == a[i]);
            } else {
                assert(doc_lines(d)[i] == b[i - a.len()]);
            }
        }
    }
}

/// Persisting a well-formed document and reading the file back gives the same document:
/// the same communities in the same order, the same channels, the same role lists.
pub proof fn lemma_round_trip(d: DocView)
    requires
        doc_wf(d),
    ensures
        parse_doc(doc_text(d)) == Some(d),
{
    lemma_doc_lines(d);
    lemma_split_lines_text(doc_lines(d));
    lemma_parse_push(doc_lines(d), Seq::empty());
}

// ---------------------------------------------------------------- writing

proof fn lemma_lines_text_concat(a: Seq<Seq<char>>, b: Seq<Seq<char>>)
    ensures
        lines_text(a + b) == lines_text(a) + lines_text(b),
    decreases b.len(),
{
    if b.len() == 0 {
        assert(a + b =~= a);
        assert(lines_text(a) + lines_text(b) =~= lines_text(a));
    } else {
        lemma_lines_text_concat(a, b.drop_last());
        assert((a + b).drop_last() =~= a + b.drop_last());
        assert(lines_text(a + b) =~= lines_text(a) + lines_text(b));
    }
}

proof fn lemma_lines_text_one(l: Seq<char>)
    ensures
        lines_text(seq![l]) == l + seq!['\n'],
{
    assert(seq![l].drop_last() =~= Seq::<Seq<char>>::empty());
    assert(lines_text(Seq::<Seq<char>>::empty()) == Seq::<char>::empty());
    assert(seq![l].last() == l);
    assert(Seq::<char>::empty() + l + seq!['\n'] =~= l + seq!['\n']);
    assert(lines_text(seq![l]) =~= l + seq!['\n']);
}

/// Appends the role ids separated by `", "`.
fn push_ids(out: &mut String, v: &Vec<u64>)
    ensures
        final(out)@ == old(out)@ + ids_text(v@),
{
    let mut i: usize = 0;
    while i < v.len()
        invariant
            i <= v@.len(),
            out@ == old(out)@ + ids_text(v@.take(i as int)),
        decreases v@.len() - i,
    {
        if i > 0 {
            push_char(out, ',');
            push_char(out, ' ');
        }
        push_dec(out, v[i]);
        let ghost t = v@.take(i as int + 1);
        assert(t.drop_last() =~= v@.take(i as int));
        if i == 0 {
            assert(ids_text(v@.take(0)) =~= Seq::<char>::empty());
        }
        assert(out@ =~= old(out)@ + ids_text(t));
        i = i + 1;
    }
    assert(v@.take(v@.len() as int) =~= v@);
}

/// Appends the lines of one community's section.
fn push_section(out: &mut String, g: u64, cfg: &GuildModerationConfig)
    ensures
        final(out)@ == old(out)@ + lines_text(section_lines((g, cfg@))),
{
    let ghost e = (g, cfg@);
    let ghost h = header_line(g);
    let ghost cl = channel_lines(cfg@.channel);
    let ghost rl = roles_lines(cfg@.roles);
    push_char(out, '[');
    push_dec(out, g);
    push_char(out, ']');
    push_char(out, '\n');
    proof {
        lemma_lines_text_one(h);
    }
    assert(out@ =~= old(out)@ + lines_text(seq![h]));
    let ghost o1 = out@;
    match cfg.modlog_channel_id {
        Some(c) => {
            out.append("modlog_channel_id = ");
            push_dec(out, c);
            push_char(out, '\n');
            proof {
                lemma_lines_text_one(channel_key() + dec(c as nat));
            }
            assert(out@ =~= o1 + lines_text(cl));
        },
        None => {
            assert(out@ =~= o1 + lines_text(cl));
        },
    }
    let ghost o2 = out@;
    match &cfg.moderator_roles {
        RoleField::Unset => {
            assert(out@ =~= o2 + lines_text(rl));
        },
        RoleField::Roles(v) => {
            out.append("moderator_roles = ");
            push_char(out, '[');
            push_ids(out, v);
            push_char(out, ']');
            push_char(out, '\n');
            proof {
                lemma_lines_text_one(roles_key() + list_text(v@));
            }
            assert(out@ =~= o2 + lines_text(rl));
        },
        RoleField::Malformed(raw) => {
            out.append("moderator_roles = ");
            out.append(raw.as_str());
            push_char(out, '\n');
            proof {
                lemma_lines_text_one(roles_key() + raw@);
            }
            assert(out@ =~= o2 + lines_text(rl));
        },
    }
    proof {
        lemma_lines_text_concat(seq![h], cl);
        lemma_lines_text_concat(seq![h] + cl, rl);
    }
    assert(out@ =~= old(out)@ + lines_text(section_lines(e)));
}

impl ConfigStore {
    /// The full text of the stored file for the current settings.
    pub fn render(&self) -> (r: String)
        ensures
            r@ == doc_text(self@),
    {
        let mut out = String::new();
        let n = self.len();
        let mut i: usize = 0;
        while i < n
            invariant
                n == self@.len(),
                i <= n,
                out@ == lines_text(doc_lines(self@.take(i as int))),
            decreases n - i,
        {
            let (g, cfg) = self.entry_at(i);
            let ghost before = out@;
            push_section(&mut out, g, &cfg);
            let ghost t = self@.take(i as int + 1);
            assert(t.drop_last() =~= self@.take(i as int));
            assert(t.last() == (g, cfg@));
            proof {
                lemma_lines_text_concat(doc_lines(self@.take(i as int)), section_lines((g, cfg@)));
            }
            i = i + 1;
        }
        assert(self@.take(n as int) =~= self@);
        out
    }
}

// ---------------------------------------------------------------- reading

/// The stored file could not be understood.
#[derive(PartialEq, Eq, Structural, Clone, Copy, Debug)]
pub struct ConfigParseError;

proof fn lemma_split_step(s: Seq<char>, i: int, c: char)
    requires
        0 <= i < s.len(),
    ensures
        s[i] == c ==> split(s.take(i + 1), c) == split(s.take(i), c).push(Seq::empty()),
        s[i] != c ==> split(s.take(i + 1), c) == split(s.take(i), c).update(
            split(s.take(i), c).len() - 1,
            split(s.take(i), c).last().push(s[i]),
        ),
{
    assert(s.take(i + 1).drop_last() =~= s.take(i));
}

fn chars_of(text: &str) -> (r: Vec<char>)
    ensures
        r@ == text@,
{
    let n = text.unicode_len();
    let mut r: Vec<char> = Vec::new();
    let mut i: usize = 0;
    while i < n
        invariant
            n == text@.len(),
            i <= n,
            r@ == text@.take(i as int),
        decreases n - i,
    {
        r.push(text.get_char(i));
        assert(r@ =~= text@.take(i as int + 1));
        i = i + 1;
    }
    assert(text@.take(n as int) =~= text@);
    r
}

/// The number that `s[a..b]` spells.
fn parse_dec_range(s: &Vec<char>, a: usize, b: usize) -> (r: Option<u64>)
    requires
        a <= b <= s@.len(),
    ensures
        r == parse_dec(s@.subrange(a as int, b as int)),
{
    if a == b {
        return None;
    }
    let mut v: u64 = 0;
    let mut ok = true;
    let mut k: usize = a;
    while k < b
        invariant
            a <= k <= b <= s@.len(),
            ok ==> dec_acc(s@.subrange(a as int, k as int)) == Some(v),
            !ok ==> dec_acc(s@.subrange(a as int, k as int)) is None,
        decreases b - k,
    {
        let ghost t = s@.subrange(a as int, k as int + 1);
        assert(t.drop_last() =~= s@.subrange(a as int, k as int));
        let c = s[k];
        if ok {
            if '0' <= c && c <= '9' {
                let d: u64 = (c as u32 - 48) as u64;
                match v.checked_mul(10) {
                    Some(m) => match m.checked_add(d) {
                        Some(w) => {
                            v = w;
                        },
                        None => {
                            ok = false;
                        },
                    },
                    None => {
                        ok = false;
                    },
                }
            } else {
                ok = false;
            }
        }
        k = k + 1;
    }
    if ok {
        Some(v)
    } else {
        None
    }
}

/// The number that `s[a..b]` spells once the spaces around it are dropped.
fn parse_trimmed_dec(s: &Vec<char>, a: usize, b: usize) -> (r: Option<u64>)
    requires
        a <= b <= s@.len(),
    ensures
        r == parse_dec(trim(s@.subrange(a as int, b as int))),
{
    let ghost t = s@.subrange(a as int, b as int);
    let mut lo: usize = a;
    while lo < b && s[lo] == ' '
        invariant
            a <= lo <= b <= s@.len(),
            t == s@.subrange(a as int, b as int),
            skip_spaces(t, lo - a) == skip_spaces(t, 0),
        decreases b - lo,
    {
        lo = lo + 1;
    }
    let mut hi: usize = b;
    while hi > a && s[hi - 1] == ' '
        invariant
            a <= hi <= b <= s@.len(),
            t == s@.subrange(a as int, b as int),
            skip_spaces_back(t, hi - a) == skip_spaces_back(t, t.len() as int),
        decreases hi,
    {
        hi = hi - 1;
    }
    if lo < hi {
        assert(t.subrange(lo - a, hi - a) =~= s@.subrange(lo as int, hi as int));
        parse_dec_range(s, lo, hi)
    } else {
        None
    }
}

fn distinct(v: &Vec<u64>) -> (r: bool)
    ensures
        r == v@.no_duplicates(),
{
    let mut i: usize = 0;
    while i < v.len()
        invariant
            i <= v@.len(),
            forall|x: int, y: int| 0 <= x < y < v@.len() && x < i ==> v@[x] != v@[y],
        decreases v@.len() - i,
    {
        let mut j: usize = i + 1;
        while j < v.len()
            invariant
                i < j <= v@.len(),
                forall|x: int, y: int| 0 <= x < y < v@.len() && x < i ==> v@[x] != v@[y],
                forall|y: int| i < y < j ==> v@[i as int] != v@[y],
            decreases v@.len() - j,
        {
            if v[i] == v[j] {
                return false;
            }
            j = j + 1;
        }
        i = i + 1;
    }
    assert forall|x: int, y: int| 0 <= x < v@.len() && 0 <= y < v@.len() && x != y implies v@[x]
        != v@[y] by {
        if x > y {
            assert(v@[y] != v@[x]);
        }
    }
    true
}

/// The list that `s[a..b]` holds, as `parse_list` reads it.
fn parse_list_range(s: &Vec<char>, a: usize, b: usize) -> (r: Option<Vec<u64>>)
    requires
        a <= b <= s@.len(),
    ensures
        match parse_list(s@.subrange(a as int, b as int)) {
            Some(rs) => r matches Some(v) && v@ == rs,
            None => r is None,
        },
{
    let ghost w = s@.subrange(a as int, b as int);
    if !(b - a >= 2 && s[a] == '[' && s[b - 1] == ']') {
        return None;
    }
    let ghost t = w.subrange(1, w.len() - 1);
    assert(t =~= s@.subrange(a + 1, b - 1));
    if b - a == 2 {
        return Some(Vec::new());
    }
    let lo = a + 1;
    let hi = b - 1;
    let mut acc: Vec<u64> = Vec::new();
    let mut ok = true;
    let mut p: usize = lo;
    let mut j: usize = lo;
    assert(t.take(0) =~= Seq::<char>::empty());
    assert(s@.subrange(lo as int, lo as int) =~= Seq::<char>::empty());
    while j < hi
        invariant
            lo <= p <= j <= hi <= s@.len(),
            t == s@.subrange(lo as int, hi as int),
            split(t.take(j - lo), ',').last() == s@.subrange(p as int, j as int),
            split(t.take(j - lo), ',').len() >= 1,
            ok ==> parse_ids(split(t.take(j - lo), ',').drop_last()) == Some(acc@),
            !ok ==> parse_ids(split(t.take(j - lo), ',').drop_last()) is None,
        decreases hi - j,
    {
        let ghost m = j - lo;
        let ghost before = split(t.take(m), ',');
        proof {
            lemma_split_step(t, m, ',');
        }
        assert(t[m] == s[j as int]);
        if s[j] == ',' {
            let ghost ps = before.drop_last().push(before.last());
            assert(ps =~= before);
            assert(split(t.take(m + 1), ',').drop_last() =~= before);
            if ok {
                match parse_trimmed_dec(s, p, j) {
                    Some(x) => acc.push(x),
                    None => {
                        ok = false;
                    },
                }
            }
            p = j + 1;
            assert(s@.subrange(p as int, p as int) =~= Seq::<char>::empty());
        } else {
            assert(split(t.take(m + 1), ',').drop_last() =~= before.drop_last());
            assert(s@.subrange(p as int, j + 1) =~= s@.subrange(p as int, j as int).push(s[j as int]));
        }
        j = j + 1;
    }
    assert(t.take(hi - lo) =~= t);
    let ghost ps = split(t, ',');
    assert(ps.drop_last().push(ps.last()) =~= ps);
    if ok {
        match parse_trimmed_dec(s, p, hi) {
            Some(x) => {
                acc.push(x);
                Some(acc)
            },
            None => None,
        }
    } else {
        None
    }
}

/// The role setting that `s[a..b]` stands for.
fn roles_from_text(s: &Vec<char>, a: usize, b: usize) -> (r: RoleField)
    requires
        a <= b <= s@.len(),
    ensures
        r@ == roles_of_text(s@.subrange(a as int, b as int)),
{
    match parse_list_range(s, a, b) {
        Some(v) => if distinct(&v) {
            RoleField::Roles(v)
        } else {
            RoleField::Malformed(string_of(s, a, b))
        },
        None => RoleField::Malformed(string_of(s, a, b)),
    }
}

fn string_of(s: &Vec<char>, a: usize, b: usize) -> (r: String)
    requires
        a <= b <= s@.len(),
    ensures
        r@ == s@.subrange(a as int, b as int),
{
    let mut out = String::new();
    let mut k: usize = a;
    while k < b
        invariant
            a <= k <= b <= s@.len(),
            out@ == s@.subrange(a as int, k as int),
        decreases b - k,
    {
        push_char(&mut out, s[k]);
        assert(out@ =~= s@.subrange(a as int, k as int + 1));
        k = k + 1;
    }
    out
}

/// Whether `s[a..b]` starts with `lit`.
fn starts_with_at(s: &Vec<char>, a: usize, b: usize, lit: &str) -> (r: bool)
    requires
        a <= b <= s@.len(),
    ensures
        r == starts_with(s@.subrange(a as int, b as int), lit@),
{
    let n = lit.unicode_len();
    if b - a < n {
        return false;
    }
    let mut i: usize = 0;
    while i < n
        invariant
            n == lit@.len(),
            a + n <= b <= s@.len(),
            i <= n,
            forall|k: int| 0 <= k < i ==> s@[a + k] == lit@[k],
        decreases n - i,
    {
        if s[a + i] != lit.get_char(i) {
            assert(s@.subrange(a as int, b as int).subrange(0, n as int)[i as int] != lit@[i as int]);
            return false;
        }
        i = i + 1;
    }
    assert(s@.subrange(a as int, b as int).subrange(0, n as int) =~= lit@);
    true
}

fn has_guild(v: &Vec<(u64, GuildModerationConfig)>, g: u64) -> (r: bool)
    ensures
        r == has_key(guilds_view(v@), g),
{
    let mut i: usize = 0;
    while i < v.len()
        invariant
            i <= v@.len(),
            forall|k: int| 0 <= k < i ==> v@[k].0 != g,
        decreases v@.len() - i,
    {
        if v[i].0 == g {
            assert(guilds_view(v@)[i as int].0 == g);
            return true;
        }
        i = i + 1;
    }
    assert forall|k: int| 0 <= k < guilds_view(v@).len() implies guilds_view(v@)[k].0 != g by {
        assert(guilds_view(v@)[k].0 == v@[k].0);
    }
    false
}

proof fn lemma_step_wf(d: DocView, line: Seq<char>)
    requires
        doc_wf(d),
        !line.contains('\n'),
    ensures
        step(d, line) matches Some(d2) ==> doc_wf(d2),
{
    if let Some(d2) = step(d, line) {
        if line.len() == 0 || line[0] == '#' {
        } else if line[0] == '[' {
            let g = d2.last().0;
            assert forall|i: int, j: int|
                0 <= i < d2.len() && 0 <= j < d2.len() && i != j implies d2[i].0 != d2[j].0 by {
                if i < d.len() && j < d.len() {
                    assert(d2[i] == d[i] && d2[j] == d[j]);
                } else if i < d.len() {
                    assert(d2[i] == d[i]);
                } else {
                    assert(d2[j] == d[j]);
                }
            }
            assert forall|i: int| 0 <= i < d2.len() implies #[trigger] roles_wf(d2[i].1.roles) by {
                if i < d.len() {
                    assert(d2[i] == d[i]);
                }
            }
        } else {
            assert forall|i: int, j: int|
                0 <= i < d2.len() && 0 <= j < d2.len() && i != j implies d2[i].0 != d2[j].0 by {
                assert(d2[i].0 == d[i].0 && d2[j].0 == d[j].0);
            }
            if !starts_with(line, channel_key()) {
                let raw = line.subrange(roles_key().len() as int, line.len() as int);
                assert(!raw.contains('\n')) by {
                    if raw.contains('\n') {
                        let k = choose|k: int| 0 <= k < raw.len() && raw[k] == '\n';
                        assert(line[k + roles_key().len()] == '\n');
                    }
                }
            }
            assert forall|i: int| 0 <= i < d2.len() implies #[trigger] roles_wf(d2[i].1.roles) by {
                if i < d.len() - 1 {
                    assert(d2[i] == d[i]);
                }
            }
        }
    }
}

/// Applies one line of the file; false when the line is not understood.
fn step_exec(guilds: &mut Vec<(u64, GuildModerationConfig)>, s: &Vec<char>, a: usize, b: usize) -> (r: bool)
    requires
        a <= b <= s@.len(),
    ensures
        match step(guilds_view(old(guilds)@), s@.subrange(a as int, b as int)) {
            Some(d) => r && guilds_view(final(guilds)@) == d,
            None => !r,
        },
{
    let ghost line = s@.subrange(a as int, b as int);
    let ghost d = guilds_view(guilds@);
    if a == b || s[a] == '#' {
        return true;
    }
    assert(line[0] == s@[a as int]);
    if s[a] == '[' {
        if b - a >= 2 && s[b - 1] == ']' {
            assert(line.subrange(1, line.len() - 1) =~= s@.subrange(a + 1, b - 1));
            match parse_dec_range(s, a + 1, b - 1) {
                Some(g) => {
                    if has_guild(guilds, g) {
                        return false;
                    }
                    guilds.push(
                        (g, GuildModerationConfig { modlog_channel_id: None, moderator_roles: RoleField::Unset }),
                    );
                    assert(guilds_view(guilds@) =~= d.push((g, default_guild())));
                    return true;
                },
                None => {
                    return false;
                },
            }
        } else {
            return false;
        }
    }
    let kc = "modlog_channel_id = ".unicode_len();
    if starts_with_at(s, a, b, "modlog_channel_id = ") {
        if guilds.len() == 0 {
            return false;
        }
        assert(line.subrange(kc as int, line.len() as int) =~= s@.subrange(a + kc, b as int));
        match parse_dec_range(s, a + kc, b) {
            Some(c) => {
                let last = guilds.pop().unwrap();
                let cfg = GuildModerationConfig { modlog_channel_id: Some(c), moderator_roles: last.1.moderator_roles };
                guilds.push((last.0, cfg));
                assert(guilds_view(guilds@) =~= set_last(
                    d,
                    GuildView { channel: Some(c), roles: d.last().1.roles },
                ));
                return true;
            },
            None => {
                return false;
            },
        }
    }
    let kr = "moderator_roles = ".unicode_len();
    if starts_with_at(s, a, b, "moderator_roles = ") {
        if guilds.len() == 0 {
            return false;
        }
        assert(line.subrange(kr as int, line.len() as int) =~= s@.subrange(a + kr, b as int));
        let rf = roles_from_text(s, a + kr, b);
        let last = guilds.pop().unwrap();
        let cfg = GuildModerationConfig { modlog_channel_id: last.1.modlog_channel_id, moderator_roles: rf };
        guilds.push((last.0, cfg));
        assert(guilds_view(guilds@) =~= set_last(
            d,
            GuildView {
                channel: d.last().1.channel,
                roles: roles_of_text(line.subrange(kr as int, line.len() as int)),
            },
        ));
        return true;
    }
    false
}

impl ConfigStore {
    /// Reads the stored file; an error when a line is not understood.
    pub fn parse(text: &str) -> (r: Result<ConfigStore, ConfigParseError>)
        ensures
            match parse_doc(text@) {
                Some(d) => r matches Ok(st) && st@ == d && st.wf(),
                None => r is Err,
            },
    {
        let s = chars_of(text);
        let n = s.len();
        let mut guilds: Vec<(u64, GuildModerationConfig)> = Vec::new();
        let mut ok = true;
        let mut start: usize = 0;
        let mut i: usize = 0;
        assert(s@.take(0) =~= Seq::<char>::empty());
        assert(split(s@.take(0), '\n') =~= seq![Seq::<char>::empty()]);
        assert(s@.subrange(0, 0) =~= Seq::<char>::empty());
        assert(seq![Seq::<char>::empty()].drop_last() =~= Seq::<Seq<char>>::empty());
        assert(guilds_view(guilds@) =~= Seq::<(u64, GuildView)>::empty());
        while i < n
            invariant
                n == s@.len(),
                start <= i <= n,
                split(s@.take(i as int), '\n').len() >= 1,
                split(s@.take(i as int), '\n').last() == s@.subrange(start as int, i as int),
                !s@.subrange(start as int, i as int).contains('\n'),
                ok ==> parse_lines(split(s@.take(i as int), '\n').drop_last()) == Some(
                    guilds_view(guilds@),
                ) && doc_wf(guilds_view(guilds@)),
                !ok ==> parse_lines(split(s@.take(i as int), '\n').drop_last()) is None,
            decreases n - i,
        {
            let ghost before = split(s@.take(i as int), '\n');
            proof {
                lemma_split_step(s@, i as int, '\n');
                lemma_parse_push(before.drop_last(), before.last());
            }
            assert(before.drop_last().push(before.last()) =~= before);
            if s[i] == '\n' {
                assert(split(s@.take(i + 1), '\n').drop_last() =~= before);
                if ok {
                    proof {
                        lemma_step_wf(guilds_view(guilds@), s@.subrange(start as int, i as int));
                    }
                    ok = step_exec(&mut guilds, &s, start, i);
                }
                start = i + 1;
                assert(s@.subrange(start as int, start as int) =~= Seq::<char>::empty());
            } else {
                assert(split(s@.take(i + 1), '\n').drop_last() =~= before.drop_last());
                assert(s@.subrange(start as int, i + 1) =~= s@.subrange(start as int, i as int).push(
                    s@[i as int],
                ));
                assert(!s@.subrange(start as int, i + 1).contains('\n')) by {
                    let u = s@.subrange(start as int, i + 1);
                    if u.contains('\n') {
                        let k = choose|k: int| 0 <= k < u.len() && u[k] == '\n';
                        if k < u.len() - 1 {
                            assert(s@.subrange(start as int, i as int)[k] == '\n');
                        }
                    }
                }
            }
            i = i + 1;
        }
        assert(s@.take(n as int) =~= s@);
        let ghost ps = split(s@, '\n');
        proof {
            lemma_parse_push(ps.drop_last(), ps.last());
        }
        assert(ps.drop_last().push(ps.last()) =~= ps);
        if ok {
            proof {
                lemma_step_wf(guilds_view(guilds@), s@.subrange(start as int, n as int));
            }
            ok = step_exec(&mut guilds, &s, start, n);
        }
        if ok {
            let st = ConfigStore::from_entries(guilds);
            Ok(st)
        } else {
            Err(ConfigParseError)
        }
    }
}

} // verus!
