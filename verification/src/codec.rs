//! The record codec: a task's durable text form, and the parser that reads
//! it back.
//!
//! A record is line-oriented: `key: value` header lines, then note sections,
//! each opened by a `--- author timestamp` line. `encode_spec` and
//! `decode_spec` define the format mathematically; `Task::serialize` and
//! `Task::parse` implement them.

use vstd::prelude::*;

use crate::task::{Link, LinkKind, LinkV, Note, NoteV, Status, Task, TaskV};
use crate::text;
use crate::text::{
    all_digits, dec_of, first_ch, first_nl, has_prefix, is_digit, lines_of, parse_u8_spec,
};
use crate::time;
use crate::time::{rfc3339_of, ts_parse, valid_ts};

verus! {

/// Why a record text failed to decode.
#[derive(Clone, Copy, Debug, PartialEq, Eq, Structural)]
pub enum ParseErr {
    MissingId,
    MissingSummary,
    BadStatus,
    BadPriority,
    BadTimestamp,
    BadLink,
    BadLinkKind,
    BadNoteHeader,
}

/// The wire word for each status.
pub open spec fn status_text(st: Status) -> Seq<char> {
    match st {
        Status::Open => "open"@,
        Status::Claimed => "claimed"@,
        Status::Done => "done"@,
    }
}

/// Reads a status word back.
pub open spec fn status_parse(v: Seq<char>) -> Option<Status> {
    if v == "open"@ {
        Some(Status::Open)
    } else if v == "claimed"@ {
        Some(Status::Claimed)
    } else if v == "done"@ {
        Some(Status::Done)
    } else {
        None
    }
}

/// The wire word for each link kind.
pub open spec fn kind_text(k: LinkKind) -> Seq<char> {
    match k {
        LinkKind::RelatesTo => "relates_to"@,
        LinkKind::Duplicates => "duplicates"@,
        LinkKind::Supersedes => "supersedes"@,
    }
}

/// Reads a link-kind word back.
pub open spec fn kind_parse(v: Seq<char>) -> Option<LinkKind> {
    if v == "relates_to"@ {
        Some(LinkKind::RelatesTo)
    } else if v == "duplicates"@ {
        Some(LinkKind::Duplicates)
    } else if v == "supersedes"@ {
        Some(LinkKind::Supersedes)
    } else {
        None
    }
}

/// An optional field's wire text: its value, or nothing.
pub open spec fn opt_text(o: Option<Seq<char>>) -> Seq<char> {
    match o {
        Some(s) => s,
        None => Seq::empty(),
    }
}

/// Pieces joined by the single character `c`.
pub open spec fn join_ch(xs: Seq<Seq<char>>, c: char) -> Seq<char>
    decreases xs.len(),
{
    if xs.len() == 0 {
        Seq::empty()
    } else if xs.len() == 1 {
        xs[0]
    } else {
        xs[0] + seq![c] + join_ch(xs.skip(1), c)
    }
}

/// Joining one more piece extends the joined text on the right.
pub proof fn lemma_join_ch_push(xs: Seq<Seq<char>>, x: Seq<char>, c: char)
    ensures
        join_ch(xs.push(x), c) == if xs.len() == 0 {
            x
        } else {
            join_ch(xs, c) + seq![c] + x
        },
    decreases xs.len(),
{
    let p = xs.push(x);
    if xs.len() == 0 {
        assert(p.len() == 1);
        assert(p[0] == x);
    } else if xs.len() == 1 {
        assert(p.len() == 2);
        assert(p.skip(1) =~= seq![x]);
        assert(join_ch(p, c) == p[0] + seq![c] + join_ch(p.skip(1), c));
        assert(join_ch(seq![x], c) == x);
        assert(join_ch(xs, c) == xs[0]);
        assert(p[0] == xs[0]);
    } else {
        assert(p.skip(1) =~= xs.skip(1).push(x));
        lemma_join_ch_push(xs.skip(1), x, c);
        assert(join_ch(p, c) == p[0] + seq![c] + join_ch(xs.skip(1).push(x), c));
        assert(join_ch(xs.skip(1).push(x), c) == join_ch(xs.skip(1), c) + seq![c] + x);
        assert(xs[0] + seq![c] + (join_ch(xs.skip(1), c) + seq![c] + x) =~= (xs[0] + seq![c]
            + join_ch(xs.skip(1), c)) + seq![c] + x);
    }
}

/// Pieces joined by single spaces.
pub open spec fn join_sp(xs: Seq<Seq<char>>) -> Seq<char> {
    join_ch(xs, ' ')
}

/// The wire piece for one link: `target/kind`.
pub open spec fn link_piece(l: LinkV) -> Seq<char> {
    l.target + seq!['/'] + kind_text(l.kind)
}

/// The wire pieces for a link list.
pub open spec fn links_out(ls: Seq<LinkV>) -> Seq<Seq<char>> {
    ls.map_values(|l: LinkV| link_piece(l))
}

/// A note body as written out: with a trailing newline, added where absent.
pub open spec fn body_out(b: Seq<char>) -> Seq<char> {
    if b.len() > 0 && b.last() == '\n' {
        b
    } else {
        b.push('\n')
    }
}

/// One note section: a separating blank line, the `--- author timestamp`
/// header, then the body.
pub open spec fn note_block(n: NoteV) -> Seq<char> {
    seq!['\n'] + "--- "@ + n.author + seq![' '] + rfc3339_of(n.timestamp) + seq!['\n'] + body_out(
        n.body,
    )
}

/// All note sections in order.
pub open spec fn notes_out(ns: Seq<NoteV>) -> Seq<char>
    decreases ns.len(),
{
    if ns.len() == 0 {
        Seq::empty()
    } else {
        note_block(ns[0]) + notes_out(ns.skip(1))
    }
}

/// One header line: key prefix, value, newline.
pub open spec fn kv_line(k: Seq<char>, v: Seq<char>) -> Seq<char> {
    k + v + seq!['\n']
}

/// The eight header lines every record carries.
pub open spec fn hdr_fixed(t: TaskV) -> Seq<char> {
    kv_line("id: "@, t.id) + kv_line("status: "@, status_text(t.status)) + kv_line(
        "summary: "@,
        t.summary,
    ) + kv_line("priority: "@, dec_of(t.priority as int)) + kv_line("agent: "@, opt_text(t.agent))
        + kv_line("change: "@, opt_text(t.change)) + kv_line("created: "@, rfc3339_of(t.created))
        + kv_line("updated: "@, rfc3339_of(t.updated))
}

/// The `blocked_by` line, present only when there are blockers.
pub open spec fn hdr_bb(t: TaskV) -> Seq<char> {
    if t.blocked_by.len() > 0 {
        kv_line("blocked_by: "@, join_sp(t.blocked_by))
    } else {
        Seq::<char>::empty()
    }
}

/// The `links` line, present only when there are links.
pub open spec fn hdr_links(t: TaskV) -> Seq<char> {
    if t.links.len() > 0 {
        kv_line("links: "@, join_sp(links_out(t.links)))
    } else {
        Seq::<char>::empty()
    }
}

/// The header block of a record. The `blocked_by` and `links` lines are
/// omitted entirely when empty.
pub open spec fn header_out(t: TaskV) -> Seq<char> {
    hdr_fixed(t) + hdr_bb(t) + hdr_links(t)
}

/// The full text form of a task.
pub open spec fn encode_spec(t: TaskV) -> Seq<char> {
    header_out(t) + notes_out(t.notes)
}

/// Index of the first `": "` in `s`, or `s.len()` where there is none.
pub open spec fn first_sep(s: Seq<char>) -> int
    decreases s.len(),
{
    if s.len() == 0 {
        0
    } else if s.len() >= 2 && s[0] == ':' && s[1] == ' ' {
        0
    } else {
        1 + first_sep(s.skip(1))
    }
}

pub proof fn lemma_first_sep(s: Seq<char>)
    ensures
        0 <= first_sep(s) <= s.len(),
        first_sep(s) + 1 < s.len() ==> s[first_sep(s)] == ':' && s[first_sep(s) + 1] == ' ',
        forall|k: int|
            0 <= k < first_sep(s) && k + 1 < s.len() ==> !(#[trigger] s[k] == ':' && s[k + 1]
                == ' '),
    decreases s.len(),
{
    if s.len() > 0 && !(s.len() >= 2 && s[0] == ':' && s[1] == ' ') {
        lemma_first_sep(s.skip(1));
        assert forall|k: int|
            0 <= k < first_sep(s) && k + 1 < s.len() implies !(#[trigger] s[k] == ':' && s[k + 1]
            == ' ') by {
            if k > 0 {
                assert(s.skip(1)[k - 1] == s[k]);
                assert(s.skip(1)[k] == s[k + 1]);
            }
        }
    }
}

/// Where exactly the first `": "` stands, `first_sep` finds it.
pub proof fn lemma_first_sep_at(s: Seq<char>, i: int)
    requires
        0 <= i,
        i + 1 < s.len(),
        s[i] == ':',
        s[i + 1] == ' ',
        forall|k: int|
            0 <= k < i ==> !(#[trigger] s[k] == ':' && s[k + 1] == ' '),
    ensures
        first_sep(s) == i,
{
    lemma_first_sep(s);
    if first_sep(s) < i {
        assert(first_sep(s) + 1 < s.len());
        assert(!(s[first_sep(s)] == ':' && s[first_sep(s) + 1] == ' '));
    }
    if first_sep(s) > i {
        assert(!(s[i] == ':' && s[i + 1] == ' '));
    }
}

/// Splits a header line at the first `": "` into key and value.
pub open spec fn split_kv(line: Seq<char>) -> Option<(Seq<char>, Seq<char>)> {
    let j = first_sep(line);
    if j + 1 < line.len() {
        Some((line.subrange(0, j), line.subrange(j + 2, line.len() as int)))
    } else {
        None
    }
}

/// Splits on spaces, dropping empty pieces.
pub open spec fn split_sp(s: Seq<char>) -> Seq<Seq<char>>
    decreases s.len(),
    via split_sp_dec
{
    if s.len() == 0 {
        Seq::empty()
    } else if s[0] == ' ' {
        split_sp(s.skip(1))
    } else {
        let j = first_ch(s, ' ');
        if j < s.len() {
            seq![s.subrange(0, j)] + split_sp(s.skip(j))
        } else {
            seq![s]
        }
    }
}

#[via_fn]
proof fn split_sp_dec(s: Seq<char>) {
    text::lemma_first_ch(s, ' ');
}

/// Reads one `target/kind` piece.
pub open spec fn parse_link(p: Seq<char>) -> Result<LinkV, ParseErr> {
    let j = first_ch(p, '/');
    if j < p.len() {
        match kind_parse(p.subrange(j + 1, p.len() as int)) {
            Some(k) => Ok(LinkV { target: p.subrange(0, j), kind: k }),
            None => Err(ParseErr::BadLinkKind),
        }
    } else {
        Err(ParseErr::BadLink)
    }
}

/// Reads a list of `target/kind` pieces.
pub open spec fn parse_links(ps: Seq<Seq<char>>) -> Result<Seq<LinkV>, ParseErr>
    decreases ps.len(),
{
    if ps.len() == 0 {
        Ok(Seq::empty())
    } else {
        match parse_link(ps[0]) {
            Err(e) => Err(e),
            Ok(l) => match parse_links(ps.skip(1)) {
                Err(e) => Err(e),
                Ok(ls) => Ok(seq![l] + ls),
            },
        }
    }
}

/// The header fields gathered while reading, before defaults apply.
pub ghost struct HdrV {
    pub id: Option<Seq<char>>,
    pub status: Option<Status>,
    pub summary: Option<Seq<char>>,
    pub priority: u8,
    pub agent: Option<Seq<char>>,
    pub change: Option<Seq<char>>,
    pub created: Option<int>,
    pub updated: Option<int>,
    pub blocked_by: Seq<Seq<char>>,
    pub links: Seq<LinkV>,
}

/// Before any header line is read: everything unset, priority 2.
pub open spec fn hdr_init() -> HdrV {
    HdrV {
        id: None,
        status: None,
        summary: None,
        priority: 2u8,
        agent: None,
        change: None,
        created: None,
        updated: None,
        blocked_by: Seq::empty(),
        links: Seq::empty(),
    }
}

/// A parsed timestamp value, accepted only in the library's range.
pub open spec fn ts_value(v: Seq<char>) -> Option<int> {
    match ts_parse(v) {
        Some(t) => if valid_ts(t as int) {
            Some(t as int)
        } else {
            None
        },
        None => None,
    }
}

/// One header line applied to the gathered fields. Lines without `": "` and
/// unknown keys are ignored; `agent`/`change` are set only by a non-empty
/// value.
pub open spec fn hdr_step(h: HdrV, line: Seq<char>) -> Result<HdrV, ParseErr> {
    match split_kv(line) {
        None => Ok(h),
        Some((k, v)) => {
            if k == "id"@ {
                Ok(HdrV { id: Some(v), ..h })
            } else if k == "status"@ {
                match status_parse(v) {
                    Some(st) => Ok(HdrV { status: Some(st), ..h }),
                    None => Err(ParseErr::BadStatus),
                }
            } else if k == "summary"@ {
                Ok(HdrV { summary: Some(v), ..h })
            } else if k == "priority"@ {
                match parse_u8_spec(v) {
                    Some(p) => Ok(HdrV { priority: p, ..h }),
                    None => Err(ParseErr::BadPriority),
                }
            } else if k == "agent"@ {
                if v.len() > 0 {
                    Ok(HdrV { agent: Some(v), ..h })
                } else {
                    Ok(h)
                }
            } else if k == "change"@ {
                if v.len() > 0 {
                    Ok(HdrV { change: Some(v), ..h })
                } else {
                    Ok(h)
                }
            } else if k == "created"@ {
                match ts_value(v) {
                    Some(t) => Ok(HdrV { created: Some(t), ..h }),
                    None => Err(ParseErr::BadTimestamp),
                }
            } else if k == "updated"@ {
                match ts_value(v) {
                    Some(t) => Ok(HdrV { updated: Some(t), ..h }),
                    None => Err(ParseErr::BadTimestamp),
                }
            } else if k == "blocked_by"@ {
                Ok(HdrV { blocked_by: split_sp(v), ..h })
            } else if k == "links"@ {
                match parse_links(split_sp(v)) {
                    Ok(ls) => Ok(HdrV { links: ls, ..h }),
                    Err(e) => Err(e),
                }
            } else {
                Ok(h)
            }
        },
    }
}

/// All header lines applied in order.
pub open spec fn hdr_fold(h: HdrV, ls: Seq<Seq<char>>) -> Result<HdrV, ParseErr>
    decreases ls.len(),
{
    if ls.len() == 0 {
        Ok(h)
    } else {
        match hdr_step(h, ls[0]) {
            Err(e) => Err(e),
            Ok(h2) => hdr_fold(h2, ls.skip(1)),
        }
    }
}

/// Index of the first line opening with `---`, where the header ends.
pub open spec fn first_break(ls: Seq<Seq<char>>) -> int
    decreases ls.len(),
{
    if ls.len() == 0 {
        0
    } else if has_prefix(ls[0], "---"@) {
        0
    } else {
        1 + first_break(ls.skip(1))
    }
}

pub proof fn lemma_first_break(ls: Seq<Seq<char>>)
    ensures
        0 <= first_break(ls) <= ls.len(),
        first_break(ls) < ls.len() ==> has_prefix(ls[first_break(ls)], "---"@),
        forall|k: int| 0 <= k < first_break(ls) ==> !has_prefix(ls[k], "---"@),
    decreases ls.len(),
{
    if ls.len() > 0 && !has_prefix(ls[0], "---"@) {
        lemma_first_break(ls.skip(1));
        assert forall|k: int| 0 <= k < first_break(ls) implies !has_prefix(ls[k], "---"@) by {
            if k > 0 {
                assert(!has_prefix(ls.skip(1)[k - 1], "---"@));
            }
        }
    }
}

/// Where exactly the first `---` line stands, `first_break` finds it.
pub proof fn lemma_first_break_at(ls: Seq<Seq<char>>, i: int)
    requires
        0 <= i <= ls.len(),
        i < ls.len() ==> has_prefix(ls[i], "---"@),
        forall|k: int| 0 <= k < i ==> !has_prefix(ls[k], "---"@),
        i == ls.len() ==> forall|k: int| 0 <= k < ls.len() ==> !has_prefix(ls[k], "---"@),
    ensures
        first_break(ls) == i,
{
    lemma_first_break(ls);
    if first_break(ls) < i {
        assert(has_prefix(ls[first_break(ls)], "---"@));
    } else if i < first_break(ls) {
        assert(i < ls.len());
    }
}

/// Index of the first line opening with `--- `, where a note starts.
pub open spec fn first_note_hdr(ls: Seq<Seq<char>>) -> int
    decreases ls.len(),
{
    if ls.len() == 0 {
        0
    } else if has_prefix(ls[0], "--- "@) {
        0
    } else {
        1 + first_note_hdr(ls.skip(1))
    }
}

pub proof fn lemma_first_note_hdr(ls: Seq<Seq<char>>)
    ensures
        0 <= first_note_hdr(ls) <= ls.len(),
        first_note_hdr(ls) < ls.len() ==> has_prefix(ls[first_note_hdr(ls)], "--- "@),
        forall|k: int| 0 <= k < first_note_hdr(ls) ==> !has_prefix(ls[k], "--- "@),
    decreases ls.len(),
{
    if ls.len() > 0 && !has_prefix(ls[0], "--- "@) {
        lemma_first_note_hdr(ls.skip(1));
        assert forall|k: int| 0 <= k < first_note_hdr(ls) implies !has_prefix(ls[k], "--- "@) by {
            if k > 0 {
                assert(!has_prefix(ls.skip(1)[k - 1], "--- "@));
            }
        }
    }
}

/// Where exactly the first `--- ` line stands, `first_note_hdr` finds it.
pub proof fn lemma_first_note_hdr_at(ls: Seq<Seq<char>>, i: int)
    requires
        0 <= i <= ls.len(),
        i < ls.len() ==> has_prefix(ls[i], "--- "@),
        forall|k: int| 0 <= k < i ==> !has_prefix(ls[k], "--- "@),
        i == ls.len() ==> forall|k: int| 0 <= k < ls.len() ==> !has_prefix(ls[k], "--- "@),
    ensures
        first_note_hdr(ls) == i,
{
    lemma_first_note_hdr(ls);
    if first_note_hdr(ls) < i {
        assert(has_prefix(ls[first_note_hdr(ls)], "--- "@));
    } else if i < first_note_hdr(ls) {
        assert(i < ls.len());
    }
}

/// Lines joined by newlines.
pub open spec fn join_nl(ls: Seq<Seq<char>>) -> Seq<char> {
    join_ch(ls, '\n')
}

/// A decoded note body: the section's lines joined with newlines, nothing
/// added — the trailing newline belongs to the encoding alone.
pub open spec fn body_in(ls: Seq<Seq<char>>) -> Seq<char> {
    join_nl(ls)
}

/// The note sections read in order. Lines before the first `--- ` line are
/// ignored; each section's body runs to the next `--- ` line or the end.
pub open spec fn notes_parse(ls: Seq<Seq<char>>) -> Result<Seq<NoteV>, ParseErr>
    decreases ls.len(),
    via notes_parse_dec
{
    if ls.len() == 0 {
        Ok(Seq::empty())
    } else if !has_prefix(ls[0], "--- "@) {
        notes_parse(ls.skip(1))
    } else {
        let rest = ls[0].skip(4);
        let j = first_ch(rest, ' ');
        if j >= rest.len() {
            Err(ParseErr::BadNoteHeader)
        } else {
            let author = rest.subrange(0, j);
            let tstext = rest.subrange(j + 1, rest.len() as int);
            match ts_value(tstext) {
                None => Err(ParseErr::BadTimestamp),
                Some(t) => {
                    let k = 1 + first_note_hdr(ls.skip(1));
                    let body = body_in(ls.subrange(1, k));
                    match notes_parse(ls.skip(k)) {
                        Err(e) => Err(e),
                        Ok(ns) => Ok(seq![NoteV { author, timestamp: t, body }] + ns),
                    }
                },
            }
        }
    }
}

#[via_fn]
proof fn notes_parse_dec(ls: Seq<Seq<char>>) {
    if ls.len() > 0 {
        lemma_first_note_hdr(ls.skip(1));
    }
}

/// A status left unset reads as `Open`.
pub open spec fn or_open(st: Option<Status>) -> Status {
    match st {
        Some(s) => s,
        None => Status::Open,
    }
}

/// A timestamp left unset reads as the current time.
pub open spec fn or_now(t: Option<int>, now: int) -> int {
    match t {
        Some(v) => v,
        None => now,
    }
}

/// What reading the text `s` gives: the task, or the first failure. Header
/// lines are read until a `---` line; note sections follow; a record without
/// `id` or `summary` is refused; missing `status` and timestamps fall back
/// to `Open` and to `now`.
pub open spec fn decode_spec(s: Seq<char>, now: int) -> Result<TaskV, ParseErr> {
    let ls = lines_of(s);
    let hend = first_break(ls);
    match hdr_fold(hdr_init(), ls.subrange(0, hend)) {
        Err(e) => Err(e),
        Ok(h) => match notes_parse(ls.skip(hend)) {
            Err(e) => Err(e),
            Ok(ns) => {
                if h.id is None {
                    Err(ParseErr::MissingId)
                } else if h.summary is None {
                    Err(ParseErr::MissingSummary)
                } else {
                    Ok(
                        TaskV {
                            id: h.id->Some_0,
                            status: or_open(h.status),
                            summary: h.summary->Some_0,
                            priority: h.priority,
                            agent: h.agent,
                            change: h.change,
                            created: or_now(h.created, now),
                            updated: or_now(h.updated, now),
                            blocked_by: h.blocked_by,
                            links: h.links,
                            notes: ns,
                        },
                    )
                }
            },
        },
    }
}

/// Every timestamp the task carries is in the library's range.
pub open spec fn ts_in_range(t: TaskV) -> bool {
    &&& valid_ts(t.created)
    &&& valid_ts(t.updated)
    &&& forall|i: int| 0 <= i < t.notes.len() ==> valid_ts(#[trigger] t.notes[i].timestamp)
}

/// One wire token: non-empty, free of spaces and newlines.
pub open spec fn token_ok(s: Seq<char>) -> bool {
    s.len() > 0 && forall|k: int| 0 <= k < s.len() ==> s[k] != ' ' && s[k] != '\n'
}

/// One line's worth of free text: no newlines.
pub open spec fn line_ok(s: Seq<char>) -> bool {
    forall|k: int| 0 <= k < s.len() ==> s[k] != '\n'
}

/// A link target fit for the wire: free of `/`, spaces and newlines.
pub open spec fn target_ok(s: Seq<char>) -> bool {
    forall|k: int| 0 <= k < s.len() ==> s[k] != '/' && s[k] != ' ' && s[k] != '\n'
}

/// No line of the body, as the encoder writes it out, opens like a note
/// header: such a line would read back as the start of another note.
pub open spec fn body_lines_ok(b: Seq<char>) -> bool {
    forall|k: int|
        0 <= k < lines_of(body_out(b)).len() ==> !has_prefix(
            #[trigger] lines_of(body_out(b))[k],
            "--- "@,
        )
}

/// A body standing before another note: closed by a newline, so that the
/// blank line separating it from the next note's header reads back into it
/// exactly.
pub open spec fn body_mid_ok(b: Seq<char>) -> bool {
    &&& b.len() > 0
    &&& b.last() == '\n'
    &&& body_lines_ok(b)
}

/// The last note's body: without a trailing newline, since the record's end
/// supplies none to read back.
pub open spec fn body_last_ok(b: Seq<char>) -> bool {
    &&& (b.len() == 0 || b.last() != '\n')
    &&& body_lines_ok(b)
}

/// A task the codec writes out and reads back without loss. The asymmetry
/// over note bodies is the wire format's own: the blank line before each
/// note header joins into the body read before it, while nothing follows
/// the last body.
pub open spec fn wf_wire(t: TaskV) -> bool {
    &&& line_ok(t.id)
    &&& line_ok(t.summary)
    &&& (t.agent is Some ==> t.agent->Some_0.len() > 0 && line_ok(t.agent->Some_0))
    &&& (t.change is Some ==> t.change->Some_0.len() > 0 && line_ok(t.change->Some_0))
    &&& ts_in_range(t)
    &&& forall|i: int| 0 <= i < t.blocked_by.len() ==> token_ok(#[trigger] t.blocked_by[i])
    &&& forall|i: int| 0 <= i < t.links.len() ==> target_ok(#[trigger] t.links[i].target)
    &&& forall|i: int|
        0 <= i < t.notes.len() ==> token_ok(#[trigger] t.notes[i].author) && body_lines_ok(
            t.notes[i].body,
        )
    &&& forall|i: int| 0 <= i < t.notes.len() - 1 ==> body_mid_ok((#[trigger] t.notes[i]).body)
    &&& t.notes.len() > 0 ==> body_last_ok(t.notes.last().body)
}

/// The timestamp texts the task writes read back as the same timestamps.
pub open spec fn ts_parse_back(t: TaskV) -> bool {
    &&& ts_parse(rfc3339_of(t.created)) == Some(t.created as i64)
    &&& ts_parse(rfc3339_of(t.updated)) == Some(t.updated as i64)
    &&& forall|i: int|
        0 <= i < t.notes.len() ==> ts_parse(rfc3339_of(#[trigger] t.notes[i].timestamp)) == Some(
            t.notes[i].timestamp as i64,
        )
}

/// Joining the lines of newline-closed text gives the text back, less its
/// final newline.
pub proof fn lemma_join_lines(b: Seq<char>)
    requires
        b.len() == 0 || b.last() == '\n',
    ensures
        join_nl(lines_of(b)) == if b.len() == 0 {
            Seq::<char>::empty()
        } else {
            b.drop_last()
        },
        lines_of(b).len() > 0 <==> b.len() > 0,
    decreases b.len(),
{
    if b.len() > 0 {
        text::lemma_first_nl(b);
        let i = first_nl(b);
        assert(b[b.len() - 1] == '\n');
        assert(i < b.len());
        let p = b.subrange(0, i);
        let rest = b.subrange(i + 1, b.len() as int);
        assert(lines_of(b) == seq![p] + lines_of(rest));
        if rest.len() == 0 {
            assert(lines_of(rest).len() == 0);
            assert(lines_of(b) =~= seq![p]);
            assert(join_nl(seq![p]) == p);
            assert(i == b.len() - 1);
            assert(p =~= b.drop_last());
        } else {
            assert(rest.last() == b.last());
            lemma_join_lines(rest);
            let lr = lines_of(rest);
            assert(lr.len() > 0);
            let whole = seq![p] + lr;
            assert(whole.len() >= 2);
            assert(whole[0] == p);
            assert(whole.skip(1) =~= lr);
            assert(join_nl(whole) == p + seq!['\n'] + join_nl(lr));
            assert(p + seq!['\n'] + rest.drop_last() =~= b.drop_last());
        }
    }
}

/// Splitting space-joined tokens gives the tokens back.
pub proof fn lemma_split_join(xs: Seq<Seq<char>>)
    requires
        forall|i: int| 0 <= i < xs.len() ==> token_ok(#[trigger] xs[i]),
    ensures
        split_sp(join_sp(xs)) == xs,
    decreases xs.len(),
{
    if xs.len() == 0 {
    } else if xs.len() == 1 {
        let s = xs[0];
        assert(token_ok(xs[0]));
        assert(s[0] != ' ');
        text::lemma_first_ch_at(s, ' ', s.len() as int);
        assert(split_sp(s) == seq![s]);
        assert(seq![s] =~= xs);
    } else {
        let s = join_sp(xs);
        let x0 = xs[0];
        let rest = join_sp(xs.skip(1));
        assert(s == x0 + seq![' '] + rest);
        assert(token_ok(xs[0]));
        assert(s.len() > 0 && s[0] == x0[0]);
        assert(s[0] != ' ');
        assert forall|k: int| 0 <= k < x0.len() implies s[k] != ' ' by {
            assert(s[k] == x0[k]);
        }
        assert(s[x0.len() as int] == ' ');
        text::lemma_first_ch_at(s, ' ', x0.len() as int);
        assert(first_ch(s, ' ') < s.len());
        assert(s.subrange(0, x0.len() as int) =~= x0);
        assert(split_sp(s) == seq![x0] + split_sp(s.skip(x0.len() as int)));
        assert(s.skip(x0.len() as int)[0] == ' ');
        assert(split_sp(s.skip(x0.len() as int)) == split_sp(s.skip(x0.len() as int).skip(1)));
        assert(s.skip(x0.len() as int).skip(1) =~= rest);
        assert forall|i: int| 0 <= i < xs.skip(1).len() implies token_ok(
            #[trigger] xs.skip(1)[i],
        ) by {
            assert(xs.skip(1)[i] == xs[i + 1]);
        }
        lemma_split_join(xs.skip(1));
        assert(seq![x0] + xs.skip(1) =~= xs);
    }
}

/// Reading the written link pieces gives the links back.
pub proof fn lemma_parse_links_enc(ls: Seq<LinkV>)
    requires
        forall|i: int| 0 <= i < ls.len() ==> target_ok(#[trigger] ls[i].target),
    ensures
        parse_links(links_out(ls)) == Ok::<Seq<LinkV>, ParseErr>(ls),
    decreases ls.len(),
{
    reveal_strlit("relates_to");
    reveal_strlit("duplicates");
    reveal_strlit("supersedes");
    let ps = links_out(ls);
    if ls.len() == 0 {
        assert(ps.len() == 0);
        assert(parse_links(ps) == Ok::<Seq<LinkV>, ParseErr>(Seq::empty()));
        assert(Seq::<LinkV>::empty() =~= ls);
    } else {
        let l = ls[0];
        let p = ps[0];
        assert(p == link_piece(l));
        let kt = kind_text(l.kind);
        assert(kt.len() > 0 && kt[0] != '/');
        assert(target_ok(ls[0].target));
        assert forall|k: int| 0 <= k < l.target.len() implies p[k] != '/' by {
            assert(p[k] == l.target[k]);
        }
        assert(p[l.target.len() as int] == '/');
        text::lemma_first_ch_at(p, '/', l.target.len() as int);
        assert(p.subrange(0, l.target.len() as int) =~= l.target);
        assert(p.subrange(l.target.len() as int + 1, p.len() as int) =~= kt);
        assert(kind_parse(kt) == Some(l.kind));
        assert(parse_link(p) == Ok::<LinkV, ParseErr>(l));
        assert(ps.skip(1) =~= links_out(ls.skip(1)));
        assert forall|i: int| 0 <= i < ls.skip(1).len() implies target_ok(
            #[trigger] ls.skip(1)[i].target,
        ) by {
            assert(ls.skip(1)[i] == ls[i + 1]);
        }
        lemma_parse_links_enc(ls.skip(1));
        assert(seq![l] + ls.skip(1) =~= ls);
    }
}

/// The header block, line by line.
pub open spec fn hdr_lines(t: TaskV) -> Seq<Seq<char>> {
    seq![
        "id: "@ + t.id,
        "status: "@ + status_text(t.status),
        "summary: "@ + t.summary,
        "priority: "@ + dec_of(t.priority as int),
        "agent: "@ + opt_text(t.agent),
        "change: "@ + opt_text(t.change),
        "created: "@ + rfc3339_of(t.created),
        "updated: "@ + rfc3339_of(t.updated),
    ] + (if t.blocked_by.len() > 0 {
        seq!["blocked_by: "@ + join_sp(t.blocked_by)]
    } else {
        Seq::<Seq<char>>::empty()
    }) + (if t.links.len() > 0 {
        seq!["links: "@ + join_sp(links_out(t.links))]
    } else {
        Seq::<Seq<char>>::empty()
    })
}

/// One note's lines: the separating blank, the header, then the lines of
/// the body as written out.
pub open spec fn note_lines(n: NoteV) -> Seq<Seq<char>> {
    seq![Seq::<char>::empty(), "--- "@ + n.author + seq![' '] + rfc3339_of(n.timestamp)]
        + lines_of(body_out(n.body))
}

/// All notes' lines in order.
pub open spec fn notes_lines(ns: Seq<NoteV>) -> Seq<Seq<char>>
    decreases ns.len(),
{
    if ns.len() == 0 {
        Seq::empty()
    } else {
        note_lines(ns[0]) + notes_lines(ns.skip(1))
    }
}

/// Newline-free texts concatenate to a newline-free text.
proof fn lemma_line_ok_concat(a: Seq<char>, b: Seq<char>)
    requires
        line_ok(a),
        line_ok(b),
    ensures
        line_ok(a + b),
{
    assert forall|k: int| 0 <= k < (a + b).len() implies (a + b)[k] != '\n' by {
        if k < a.len() {
            assert((a + b)[k] == a[k]);
        } else {
            assert((a + b)[k] == b[k - a.len()]);
        }
    }
}

/// Joining newline-free pieces with a non-newline keeps the text on one
/// line.
proof fn lemma_join_line_ok(xs: Seq<Seq<char>>, c: char)
    requires
        c != '\n',
        forall|i: int| 0 <= i < xs.len() ==> line_ok(#[trigger] xs[i]),
    ensures
        line_ok(join_ch(xs, c)),
    decreases xs.len(),
{
    if xs.len() == 0 {
    } else if xs.len() == 1 {
        assert(line_ok(xs[0]));
    } else {
        assert forall|i: int| 0 <= i < xs.skip(1).len() implies line_ok(#[trigger] xs.skip(1)[i]) by {
            assert(xs.skip(1)[i] == xs[i + 1]);
        }
        lemma_join_line_ok(xs.skip(1), c);
        assert(line_ok(xs[0]));
        assert(line_ok(seq![c]));
        lemma_line_ok_concat(xs[0], seq![c]);
        lemma_line_ok_concat(xs[0] + seq![c], join_ch(xs.skip(1), c));
    }
}

/// Digit strings stay on one line.
proof fn lemma_digits_line_ok(s: Seq<char>)
    requires
        all_digits(s),
    ensures
        line_ok(s),
{
    assert forall|k: int| 0 <= k < s.len() implies s[k] != '\n' by {
        assert(is_digit(s[k]));
    }
}

/// The RFC 3339 renderings of the task's timestamps are single tokens.
pub open spec fn rfc_tokens_ok(t: TaskV) -> bool {
    &&& time::one_token(rfc3339_of(t.created))
    &&& time::one_token(rfc3339_of(t.updated))
    &&& forall|i: int|
        0 <= i < t.notes.len() ==> time::one_token(rfc3339_of(#[trigger] t.notes[i].timestamp))
}

/// The written body always ends in a newline.
proof fn lemma_body_out_closed(b: Seq<char>)
    ensures
        body_out(b).len() > 0,
        body_out(b).last() == '\n',
        (b.len() == 0 || b.last() != '\n') ==> body_out(b).drop_last() =~= b,
        (b.len() > 0 && b.last() == '\n') ==> body_out(b) == b,
{
    if b.len() == 0 || b.last() != '\n' {
        assert(body_out(b) == b.push('\n'));
        assert(b.push('\n').drop_last() =~= b);
    }
}

/// The note sections split into exactly the notes' lines.
proof fn lemma_notes_lines(ns: Seq<NoteV>)
    requires
        forall|i: int|
            0 <= i < ns.len() ==> token_ok(#[trigger] ns[i].author) && time::one_token(
                rfc3339_of(ns[i].timestamp),
            ),
    ensures
        lines_of(notes_out(ns)) == notes_lines(ns),
    decreases ns.len(),
{
    reveal_strlit("--- ");
    if ns.len() > 0 {
        let n = ns[0];
        assert(token_ok(ns[0].author));
        let hline = "--- "@ + n.author + seq![' '] + rfc3339_of(n.timestamp);
        let bo = body_out(n.body);
        lemma_body_out_closed(n.body);
        let rest = notes_out(ns.skip(1));
        assert(notes_out(ns) =~= Seq::<char>::empty() + seq!['\n'] + (hline + seq!['\n'] + (bo
            + rest)));
        assert(line_ok("--- "@));
        assert forall|k: int| 0 <= k < n.author.len() implies n.author[k] != '\n' by {}
        assert(line_ok(n.author));
        assert(line_ok(seq![' ']));
        assert(line_ok(rfc3339_of(n.timestamp)));
        lemma_line_ok_concat("--- "@, n.author);
        lemma_line_ok_concat("--- "@ + n.author, seq![' ']);
        lemma_line_ok_concat("--- "@ + n.author + seq![' '], rfc3339_of(n.timestamp));
        text::lemma_lines_of_prepend(Seq::empty(), hline + seq!['\n'] + (bo + rest));
        text::lemma_lines_of_prepend(hline, bo + rest);
        text::lemma_lines_of_concat(bo, rest);
        assert forall|i: int|
            0 <= i < ns.skip(1).len() implies token_ok(#[trigger] ns.skip(1)[i].author)
            && time::one_token(rfc3339_of(ns.skip(1)[i].timestamp)) by {
            assert(ns.skip(1)[i] == ns[i + 1]);
        }
        lemma_notes_lines(ns.skip(1));
        assert(lines_of(notes_out(ns)) == seq![Seq::<char>::empty()] + (seq![hline] + (lines_of(bo)
            + notes_lines(ns.skip(1)))));
        assert(seq![Seq::<char>::empty()] + (seq![hline] + (lines_of(bo) + notes_lines(
            ns.skip(1),
        ))) =~= note_lines(n) + notes_lines(ns.skip(1)));
    }
}

/// One header line holds exactly its own text.
proof fn lemma_kv_lines(k: Seq<char>, v: Seq<char>)
    requires
        line_ok(k),
        line_ok(v),
    ensures
        lines_of(kv_line(k, v)) == seq![k + v],
        kv_line(k, v).len() > 0,
        kv_line(k, v).last() == '\n',
{
    lemma_line_ok_concat(k, v);
    text::lemma_lines_of_line(k + v);
}

/// The encoded text splits into exactly the header and note lines.
#[verifier::rlimit(100)]
proof fn lemma_enc_lines(t: TaskV)
    requires
        wf_wire(t),
        rfc_tokens_ok(t),
    ensures
        lines_of(encode_spec(t)) == hdr_lines(t) + notes_lines(t.notes),
{
    reveal_strlit("id: ");
    reveal_strlit("status: ");
    reveal_strlit("summary: ");
    reveal_strlit("priority: ");
    reveal_strlit("agent: ");
    reveal_strlit("change: ");
    reveal_strlit("created: ");
    reveal_strlit("updated: ");
    reveal_strlit("blocked_by: ");
    reveal_strlit("links: ");
    reveal_strlit("open");
    reveal_strlit("claimed");
    reveal_strlit("done");
    reveal_strlit("relates_to");
    reveal_strlit("duplicates");
    reveal_strlit("supersedes");
    let l1 = "id: "@ + t.id;
    let l2 = "status: "@ + status_text(t.status);
    let l3 = "summary: "@ + t.summary;
    let l4 = "priority: "@ + dec_of(t.priority as int);
    let l5 = "agent: "@ + opt_text(t.agent);
    let l6 = "change: "@ + opt_text(t.change);
    let l7 = "created: "@ + rfc3339_of(t.created);
    let l8 = "updated: "@ + rfc3339_of(t.updated);
    assert(line_ok(status_text(t.status)));
    text::lemma_dec_round_trip(t.priority as int);
    lemma_digits_line_ok(dec_of(t.priority as int));
    assert(line_ok(opt_text(t.agent)));
    assert(line_ok(opt_text(t.change)));
    assert(line_ok(rfc3339_of(t.created)));
    assert(line_ok(rfc3339_of(t.updated)));
    lemma_kv_lines("id: "@, t.id);
    lemma_kv_lines("status: "@, status_text(t.status));
    lemma_kv_lines("summary: "@, t.summary);
    lemma_kv_lines("priority: "@, dec_of(t.priority as int));
    lemma_kv_lines("agent: "@, opt_text(t.agent));
    lemma_kv_lines("change: "@, opt_text(t.change));
    lemma_kv_lines("created: "@, rfc3339_of(t.created));
    lemma_kv_lines("updated: "@, rfc3339_of(t.updated));
    let a1 = kv_line("id: "@, t.id);
    let a2 = kv_line("status: "@, status_text(t.status));
    let a3 = kv_line("summary: "@, t.summary);
    let a4 = kv_line("priority: "@, dec_of(t.priority as int));
    let a5 = kv_line("agent: "@, opt_text(t.agent));
    let a6 = kv_line("change: "@, opt_text(t.change));
    let a7 = kv_line("created: "@, rfc3339_of(t.created));
    let a8 = kv_line("updated: "@, rfc3339_of(t.updated));
    let p2 = a1 + a2;
    let p3 = p2 + a3;
    let p4 = p3 + a4;
    let p5 = p4 + a5;
    let p6 = p5 + a6;
    let p7 = p6 + a7;
    let p8 = p7 + a8;
    text::lemma_lines_of_concat(a1, a2);
    assert(p2.last() == a2.last());
    assert(lines_of(p2) =~= seq![l1, l2]);
    text::lemma_lines_of_concat(p2, a3);
    assert(p3.last() == a3.last());
    assert(lines_of(p3) =~= seq![l1, l2, l3]);
    text::lemma_lines_of_concat(p3, a4);
    assert(p4.last() == a4.last());
    assert(lines_of(p4) =~= seq![l1, l2, l3, l4]);
    text::lemma_lines_of_concat(p4, a5);
    assert(p5.last() == a5.last());
    assert(lines_of(p5) =~= seq![l1, l2, l3, l4, l5]);
    text::lemma_lines_of_concat(p5, a6);
    assert(p6.last() == a6.last());
    assert(lines_of(p6) =~= seq![l1, l2, l3, l4, l5, l6]);
    text::lemma_lines_of_concat(p6, a7);
    assert(p7.last() == a7.last());
    assert(lines_of(p7) =~= seq![l1, l2, l3, l4, l5, l6, l7]);
    text::lemma_lines_of_concat(p7, a8);
    assert(p8.last() == a8.last());
    assert(lines_of(p8) =~= seq![l1, l2, l3, l4, l5, l6, l7, l8]);
    // The optional blocked_by line.
    let lbb = "blocked_by: "@ + join_sp(t.blocked_by);
    let p9 = p8 + hdr_bb(t);
    text::lemma_lines_of_concat(p8, hdr_bb(t));
    if t.blocked_by.len() > 0 {
        assert forall|i: int| 0 <= i < t.blocked_by.len() implies line_ok(
            #[trigger] t.blocked_by[i],
        ) by {
            assert(token_ok(t.blocked_by[i]));
        }
        lemma_join_line_ok(t.blocked_by, ' ');
        lemma_kv_lines("blocked_by: "@, join_sp(t.blocked_by));
        assert(p9.last() == '\n');
    } else {
        assert(lines_of(hdr_bb(t)).len() == 0);
        assert(p9 =~= p8);
    }
    assert(p9.len() > 0 && p9.last() == '\n');
    // The optional links line.
    let llk = "links: "@ + join_sp(links_out(t.links));
    let p10 = p9 + hdr_links(t);
    text::lemma_lines_of_concat(p9, hdr_links(t));
    if t.links.len() > 0 {
        assert forall|i: int| 0 <= i < links_out(t.links).len() implies line_ok(
            #[trigger] links_out(t.links)[i],
        ) by {
            let l = t.links[i];
            assert(target_ok(t.links[i].target));
            assert(line_ok(l.target));
            assert(line_ok(kind_text(l.kind)));
            lemma_line_ok_concat(l.target, seq!['/']);
            lemma_line_ok_concat(l.target + seq!['/'], kind_text(l.kind));
        }
        lemma_join_line_ok(links_out(t.links), ' ');
        lemma_kv_lines("links: "@, join_sp(links_out(t.links)));
        assert(p10.last() == '\n');
    } else {
        assert(lines_of(hdr_links(t)).len() == 0);
        assert(p10 =~= p9);
    }
    assert(p10.len() > 0 && p10.last() == '\n');
    // The note sections.
    assert forall|i: int|
        0 <= i < t.notes.len() implies token_ok(#[trigger] t.notes[i].author) && time::one_token(
        rfc3339_of(t.notes[i].timestamp),
    ) by {
        assert(token_ok(t.notes[i].author));
        assert(time::one_token(rfc3339_of(t.notes[i].timestamp)));
    }
    lemma_notes_lines(t.notes);
    text::lemma_lines_of_concat(p10, notes_out(t.notes));
    assert(encode_spec(t) == p10 + notes_out(t.notes));
    assert(lines_of(encode_spec(t)) =~= hdr_lines(t) + notes_lines(t.notes));
}

/// The header fields a well-formed task's own header lines produce.
pub open spec fn hdr_expected(t: TaskV) -> HdrV {
    HdrV {
        id: Some(t.id),
        status: Some(t.status),
        summary: Some(t.summary),
        priority: t.priority,
        agent: t.agent,
        change: t.change,
        created: Some(t.created),
        updated: Some(t.updated),
        blocked_by: t.blocked_by,
        links: t.links,
    }
}

/// Splitting a line made of a key prefix and a value finds that split.
proof fn lemma_split_kv_line(k: Seq<char>, v: Seq<char>, ci: int)
    requires
        0 <= ci,
        ci + 2 == k.len(),
        k[ci] == ':',
        k[ci + 1] == ' ',
        forall|x: int| 0 <= x < ci ==> !(#[trigger] k[x] == ':' && k[x + 1] == ' '),
    ensures
        split_kv(k + v) == Some((k.subrange(0, ci), v)),
{
    let line = k + v;
    assert(line[ci] == ':');
    assert(line[ci + 1] == ' ');
    assert forall|x: int| 0 <= x < ci implies !(#[trigger] line[x] == ':' && line[x + 1] == ' ') by {
        assert(line[x] == k[x]);
        assert(line[x + 1] == k[x + 1]);
    }
    lemma_first_sep_at(line, ci);
    assert(line.subrange(0, ci) =~= k.subrange(0, ci));
    assert(line.subrange(ci + 2, line.len() as int) =~= v);
}

/// A note as the wire carries it: header pieces fit for one line, body
/// lines that open no new note, timestamp in range and reading back to
/// itself.
pub open spec fn note_wire_ok(n: NoteV) -> bool {
    &&& token_ok(n.author)
    &&& body_lines_ok(n.body)
    &&& valid_ts(n.timestamp)
    &&& time::one_token(rfc3339_of(n.timestamp))
    &&& ts_parse(rfc3339_of(n.timestamp)) == Some(n.timestamp as i64)
}

/// The header fields after the first four fixed lines.
pub open spec fn hdr_upto4(t: TaskV) -> HdrV {
    HdrV {
        id: Some(t.id),
        status: Some(t.status),
        summary: Some(t.summary),
        priority: t.priority,
        ..hdr_init()
    }
}

/// The header fields after all eight fixed lines.
pub open spec fn hdr_upto8(t: TaskV) -> HdrV {
    HdrV {
        agent: t.agent,
        change: t.change,
        created: Some(t.created),
        updated: Some(t.updated),
        ..hdr_upto4(t)
    }
}

/// The first four fixed header lines fold to the first four fields.
proof fn lemma_hdr_fold_a(t: TaskV)
    requires
        wf_wire(t),
    ensures
        hdr_fold(
            hdr_init(),
            seq![
                "id: "@ + t.id,
                "status: "@ + status_text(t.status),
                "summary: "@ + t.summary,
                "priority: "@ + dec_of(t.priority as int),
            ],
        ) == Ok::<HdrV, ParseErr>(hdr_upto4(t)),
{
    reveal_strlit("id: ");
    reveal_strlit("status: ");
    reveal_strlit("summary: ");
    reveal_strlit("priority: ");
    reveal_strlit("id");
    reveal_strlit("status");
    reveal_strlit("summary");
    reveal_strlit("priority");
    reveal_strlit("agent");
    reveal_strlit("change");
    reveal_strlit("created");
    reveal_strlit("updated");
    reveal_strlit("blocked_by");
    reveal_strlit("links");
    reveal_strlit("open");
    reveal_strlit("claimed");
    reveal_strlit("done");
    assert("id"@.len() == 2 && "status"@.len() == 6 && "summary"@.len() == 7 && "priority"@.len()
        == 8 && "agent"@.len() == 5 && "change"@.len() == 6 && "created"@.len() == 7
        && "updated"@.len() == 7 && "blocked_by"@.len() == 10 && "links"@.len() == 5);
    assert("status"@[0] == 's' && "summary"@[0] == 's' && "change"@[0] == 'c' && "created"@[0]
        == 'c' && "updated"@[0] == 'u' && "agent"@[0] == 'a' && "links"@[0] == 'l');
    let l1 = "id: "@ + t.id;
    let l2 = "status: "@ + status_text(t.status);
    let l3 = "summary: "@ + t.summary;
    let l4 = "priority: "@ + dec_of(t.priority as int);
    let h0 = hdr_init();
    lemma_split_kv_line("id: "@, t.id, 2);
    assert(("id: "@).subrange(0, 2) =~= "id"@);
    let h1 = HdrV { id: Some(t.id), ..h0 };
    assert(hdr_step(h0, l1) == Ok::<HdrV, ParseErr>(h1));
    lemma_split_kv_line("status: "@, status_text(t.status), 6);
    assert(("status: "@).subrange(0, 6) =~= "status"@);
    assert(status_parse(status_text(t.status)) == Some(t.status));
    let h2 = HdrV { status: Some(t.status), ..h1 };
    assert(hdr_step(h1, l2) == Ok::<HdrV, ParseErr>(h2));
    lemma_split_kv_line("summary: "@, t.summary, 7);
    assert(("summary: "@).subrange(0, 7) =~= "summary"@);
    let h3 = HdrV { summary: Some(t.summary), ..h2 };
    assert(hdr_step(h2, l3) == Ok::<HdrV, ParseErr>(h3));
    lemma_split_kv_line("priority: "@, dec_of(t.priority as int), 8);
    assert(("priority: "@).subrange(0, 8) =~= "priority"@);
    text::lemma_dec_round_trip(t.priority as int);
    assert(parse_u8_spec(dec_of(t.priority as int)) == Some(t.priority));
    let h4 = HdrV { priority: t.priority, ..h3 };
    assert(hdr_step(h3, l4) == Ok::<HdrV, ParseErr>(h4));
    let L = seq![l1, l2, l3, l4];
    assert(L.skip(1) =~= seq![l2, l3, l4]);
    assert(seq![l2, l3, l4].skip(1) =~= seq![l3, l4]);
    assert(seq![l3, l4].skip(1) =~= seq![l4]);
    assert(seq![l4].skip(1) =~= Seq::<Seq<char>>::empty());
    assert(hdr_fold(h3, seq![l4]) == Ok::<HdrV, ParseErr>(h4)) by {
        assert(seq![l4].len() == 1);
        assert(seq![l4][0] == l4);
        assert(hdr_step(h3, l4) == Ok::<HdrV, ParseErr>(h4));
        assert(seq![l4].skip(1).len() == 0);
        assert(hdr_fold(h4, seq![l4].skip(1)) == Ok::<HdrV, ParseErr>(h4));
    }
    assert(hdr_fold(h2, seq![l3, l4]) == Ok::<HdrV, ParseErr>(h4));
    assert(hdr_fold(h1, seq![l2, l3, l4]) == Ok::<HdrV, ParseErr>(h4));
    assert(hdr_fold(h0, L) == Ok::<HdrV, ParseErr>(h4));
    assert(h4 == hdr_upto4(t));
}

/// The last four fixed header lines fold to the next four fields.
proof fn lemma_hdr_fold_b(t: TaskV)
    requires
        wf_wire(t),
        ts_parse_back(t),
    ensures
        hdr_fold(
            hdr_upto4(t),
            seq![
                "agent: "@ + opt_text(t.agent),
                "change: "@ + opt_text(t.change),
                "created: "@ + rfc3339_of(t.created),
                "updated: "@ + rfc3339_of(t.updated),
            ],
        ) == Ok::<HdrV, ParseErr>(hdr_upto8(t)),
{
    reveal_strlit("agent: ");
    reveal_strlit("change: ");
    reveal_strlit("created: ");
    reveal_strlit("updated: ");
    reveal_strlit("id");
    reveal_strlit("status");
    reveal_strlit("summary");
    reveal_strlit("priority");
    reveal_strlit("agent");
    reveal_strlit("change");
    reveal_strlit("created");
    reveal_strlit("updated");
    reveal_strlit("blocked_by");
    reveal_strlit("links");
    assert("id"@.len() == 2 && "status"@.len() == 6 && "summary"@.len() == 7 && "priority"@.len()
        == 8 && "agent"@.len() == 5 && "change"@.len() == 6 && "created"@.len() == 7
        && "updated"@.len() == 7 && "blocked_by"@.len() == 10 && "links"@.len() == 5);
    assert("status"@[0] == 's' && "summary"@[0] == 's' && "change"@[0] == 'c' && "created"@[0]
        == 'c' && "updated"@[0] == 'u' && "agent"@[0] == 'a' && "links"@[0] == 'l');
    let l5 = "agent: "@ + opt_text(t.agent);
    let l6 = "change: "@ + opt_text(t.change);
    let l7 = "created: "@ + rfc3339_of(t.created);
    let l8 = "updated: "@ + rfc3339_of(t.updated);
    let h4 = hdr_upto4(t);
    lemma_split_kv_line("agent: "@, opt_text(t.agent), 5);
    assert(("agent: "@).subrange(0, 5) =~= "agent"@);
    let h5 = HdrV { agent: t.agent, ..h4 };
    assert(hdr_step(h4, l5) == Ok::<HdrV, ParseErr>(h5));
    lemma_split_kv_line("change: "@, opt_text(t.change), 6);
    assert(("change: "@).subrange(0, 6) =~= "change"@);
    let h6 = HdrV { change: t.change, ..h5 };
    assert(hdr_step(h5, l6) == Ok::<HdrV, ParseErr>(h6)) by {
        assert(split_kv(l6) == Some(("change"@, opt_text(t.change))));
        assert("change"@ != "id"@ && "change"@ != "status"@ && "change"@ != "summary"@ && "change"@
            != "priority"@ && "change"@ != "agent"@);
        if t.change is Some {
            assert(opt_text(t.change).len() > 0);
        } else {
            assert(opt_text(t.change).len() == 0);
        }
    }
    lemma_split_kv_line("created: "@, rfc3339_of(t.created), 7);
    assert(("created: "@).subrange(0, 7) =~= "created"@);
    assert(ts_value(rfc3339_of(t.created)) == Some(t.created));
    let h7 = HdrV { created: Some(t.created), ..h6 };
    assert(hdr_step(h6, l7) == Ok::<HdrV, ParseErr>(h7)) by {
        assert(split_kv(l7) == Some(("created"@, rfc3339_of(t.created))));
        assert("created"@ != "id"@ && "created"@ != "status"@ && "created"@ != "summary"@
            && "created"@ != "priority"@ && "created"@ != "agent"@ && "created"@ != "change"@);
        assert(ts_value(rfc3339_of(t.created)) == Some(t.created));
    }
    lemma_split_kv_line("updated: "@, rfc3339_of(t.updated), 7);
    assert(("updated: "@).subrange(0, 7) =~= "updated"@);
    assert(ts_value(rfc3339_of(t.updated)) == Some(t.updated));
    let h8 = HdrV { updated: Some(t.updated), ..h7 };
    assert(hdr_step(h7, l8) == Ok::<HdrV, ParseErr>(h8)) by {
        assert(split_kv(l8) == Some(("updated"@, rfc3339_of(t.updated))));
        assert("updated"@ != "id"@ && "updated"@ != "status"@ && "updated"@ != "summary"@
            && "updated"@ != "priority"@ && "updated"@ != "agent"@ && "updated"@ != "change"@
            && "updated"@ != "created"@);
        assert(ts_value(rfc3339_of(t.updated)) == Some(t.updated));
    }
    let L = seq![l5, l6, l7, l8];
    assert(L.skip(1) =~= seq![l6, l7, l8]);
    assert(seq![l6, l7, l8].skip(1) =~= seq![l7, l8]);
    assert(seq![l7, l8].skip(1) =~= seq![l8]);
    assert(seq![l8].skip(1) =~= Seq::<Seq<char>>::empty());
    assert(hdr_fold(h7, seq![l8]) == Ok::<HdrV, ParseErr>(h8)) by {
        assert(seq![l8].len() == 1);
        assert(seq![l8][0] == l8);
        assert(hdr_step(h7, l8) == Ok::<HdrV, ParseErr>(h8));
        assert(seq![l8].skip(1).len() == 0);
        assert(hdr_fold(h8, seq![l8].skip(1)) == Ok::<HdrV, ParseErr>(h8));
    }
    assert(hdr_fold(h6, seq![l7, l8]) == Ok::<HdrV, ParseErr>(h8));
    assert(hdr_fold(h5, seq![l6, l7, l8]) == Ok::<HdrV, ParseErr>(h8));
    assert(hdr_fold(h4, L) == Ok::<HdrV, ParseErr>(h8));
    assert(h8 == hdr_upto8(t));
}

/// The optional `blocked_by` and `links` lines fold to the last fields.
proof fn lemma_hdr_fold_c(t: TaskV)
    requires
        wf_wire(t),
    ensures
        hdr_fold(
            hdr_upto8(t),
            (if t.blocked_by.len() > 0 {
                seq!["blocked_by: "@ + join_sp(t.blocked_by)]
            } else {
                Seq::<Seq<char>>::empty()
            }) + (if t.links.len() > 0 {
                seq!["links: "@ + join_sp(links_out(t.links))]
            } else {
                Seq::<Seq<char>>::empty()
            }),
        ) == Ok::<HdrV, ParseErr>(hdr_expected(t)),
{
    reveal_strlit("blocked_by: ");
    reveal_strlit("links: ");
    reveal_strlit("id");
    reveal_strlit("status");
    reveal_strlit("summary");
    reveal_strlit("priority");
    reveal_strlit("agent");
    reveal_strlit("change");
    reveal_strlit("created");
    reveal_strlit("updated");
    reveal_strlit("blocked_by");
    reveal_strlit("links");
    assert("id"@.len() == 2 && "status"@.len() == 6 && "summary"@.len() == 7 && "priority"@.len()
        == 8 && "agent"@.len() == 5 && "change"@.len() == 6 && "created"@.len() == 7
        && "updated"@.len() == 7 && "blocked_by"@.len() == 10 && "links"@.len() == 5);
    assert("status"@[0] == 's' && "summary"@[0] == 's' && "change"@[0] == 'c' && "created"@[0]
        == 'c' && "updated"@[0] == 'u' && "agent"@[0] == 'a' && "links"@[0] == 'l');
    let lbb = "blocked_by: "@ + join_sp(t.blocked_by);
    let llk = "links: "@ + join_sp(links_out(t.links));
    let h8 = hdr_upto8(t);
    let h9 = HdrV { blocked_by: t.blocked_by, ..h8 };
    let h10 = HdrV { links: t.links, ..h9 };
    if t.blocked_by.len() > 0 {
        lemma_split_kv_line("blocked_by: "@, join_sp(t.blocked_by), 10);
        assert(("blocked_by: "@).subrange(0, 10) =~= "blocked_by"@);
        lemma_split_join(t.blocked_by);
        assert(hdr_step(h8, lbb) == Ok::<HdrV, ParseErr>(h9));
    } else {
        assert(t.blocked_by =~= Seq::<Seq<char>>::empty());
        assert(h9 == h8);
    }
    if t.links.len() > 0 {
        lemma_split_kv_line("links: "@, join_sp(links_out(t.links)), 5);
        assert(("links: "@).subrange(0, 5) =~= "links"@);
        assert forall|i: int| 0 <= i < links_out(t.links).len() implies token_ok(
            #[trigger] links_out(t.links)[i],
        ) by {
            let l = t.links[i];
            assert(target_ok(t.links[i].target));
            let p = link_piece(l);
            let kt = kind_text(l.kind);
            reveal_strlit("relates_to");
            reveal_strlit("duplicates");
            reveal_strlit("supersedes");
            assert(p.len() > 0);
            assert forall|x: int| 0 <= x < p.len() implies p[x] != ' ' && p[x] != '\n' by {
                if x < l.target.len() {
                    assert(p[x] == l.target[x]);
                } else if x == l.target.len() {
                    assert(p[x] == '/');
                } else {
                    assert(p[x] == kt[x - l.target.len() - 1]);
                }
            }
        }
        lemma_split_join(links_out(t.links));
        lemma_parse_links_enc(t.links);
        assert(hdr_step(h9, llk) == Ok::<HdrV, ParseErr>(h10));
    } else {
        assert(t.links =~= Seq::<LinkV>::empty());
        assert(h10 == h9);
    }
    assert(h10 == hdr_expected(t));
    if t.blocked_by.len() > 0 && t.links.len() > 0 {
        let L = seq![lbb] + seq![llk];
        assert(L[0] == lbb);
        assert(L.skip(1) =~= seq![llk]);
        assert(seq![llk].skip(1) =~= Seq::<Seq<char>>::empty());
        assert(hdr_fold(h9, seq![llk]) == Ok::<HdrV, ParseErr>(h10)) by {
            assert(seq![llk].len() == 1);
            assert(seq![llk][0] == llk);
            assert(hdr_step(h9, llk) == Ok::<HdrV, ParseErr>(h10));
            assert(seq![llk].skip(1).len() == 0);
            assert(hdr_fold(h10, seq![llk].skip(1)) == Ok::<HdrV, ParseErr>(h10));
        }
        assert(hdr_fold(h8, L) == Ok::<HdrV, ParseErr>(h10));
    } else if t.blocked_by.len() > 0 {
        let L = seq![lbb] + Seq::<Seq<char>>::empty();
        assert(L =~= seq![lbb]);
        assert(seq![lbb].skip(1) =~= Seq::<Seq<char>>::empty());
        assert(hdr_fold(h8, seq![lbb]) == Ok::<HdrV, ParseErr>(h9)) by {
            assert(seq![lbb].len() == 1);
            assert(seq![lbb][0] == lbb);
            assert(hdr_step(h8, lbb) == Ok::<HdrV, ParseErr>(h9));
            assert(seq![lbb].skip(1).len() == 0);
            assert(hdr_fold(h9, seq![lbb].skip(1)) == Ok::<HdrV, ParseErr>(h9));
        }
        assert(hdr_fold(h8, L) == Ok::<HdrV, ParseErr>(h10));
    } else if t.links.len() > 0 {
        let L = Seq::<Seq<char>>::empty() + seq![llk];
        assert(L =~= seq![llk]);
        assert(seq![llk].skip(1) =~= Seq::<Seq<char>>::empty());
        assert(hdr_fold(h9, seq![llk]) == Ok::<HdrV, ParseErr>(h10)) by {
            assert(seq![llk].len() == 1);
            assert(seq![llk][0] == llk);
            assert(hdr_step(h9, llk) == Ok::<HdrV, ParseErr>(h10));
            assert(seq![llk].skip(1).len() == 0);
            assert(hdr_fold(h10, seq![llk].skip(1)) == Ok::<HdrV, ParseErr>(h10));
        }
        assert(hdr_fold(h8, L) == Ok::<HdrV, ParseErr>(h10));
    } else {
        let L = Seq::<Seq<char>>::empty() + Seq::<Seq<char>>::empty();
        assert(L.len() == 0);
        assert(hdr_fold(h8, L) == Ok::<HdrV, ParseErr>(h8));
    }
}

/// A well-formed task's header lines fold to exactly its fields.
proof fn lemma_hdr_eval(t: TaskV)
    requires
        wf_wire(t),
        rfc_tokens_ok(t),
        ts_parse_back(t),
    ensures
        hdr_fold(hdr_init(), hdr_lines(t)) == Ok::<HdrV, ParseErr>(hdr_expected(t)),
{
    let l1 = "id: "@ + t.id;
    let l2 = "status: "@ + status_text(t.status);
    let l3 = "summary: "@ + t.summary;
    let l4 = "priority: "@ + dec_of(t.priority as int);
    let l5 = "agent: "@ + opt_text(t.agent);
    let l6 = "change: "@ + opt_text(t.change);
    let l7 = "created: "@ + rfc3339_of(t.created);
    let l8 = "updated: "@ + rfc3339_of(t.updated);
    let L = hdr_lines(t);
    lemma_hdr_fold_a(t);
    lemma_hdr_fold_b(t);
    lemma_hdr_fold_c(t);
    lemma_hdr_fold_split(hdr_init(), L, 4);
    assert(L.subrange(0, 4) =~= seq![l1, l2, l3, l4]);
    lemma_hdr_fold_split(hdr_upto4(t), L.skip(4), 4);
    assert(L.skip(4).subrange(0, 4) =~= seq![l5, l6, l7, l8]);
    assert(L.skip(4).skip(4) =~= (if t.blocked_by.len() > 0 {
        seq!["blocked_by: "@ + join_sp(t.blocked_by)]
    } else {
        Seq::<Seq<char>>::empty()
    }) + (if t.links.len() > 0 {
        seq!["links: "@ + join_sp(links_out(t.links))]
    } else {
        Seq::<Seq<char>>::empty()
    }));
}

/// Well-formed note lines read back as exactly those notes.
#[verifier::rlimit(100)]
proof fn lemma_notes_eval(ns: Seq<NoteV>)
    requires
        forall|i: int| 0 <= i < ns.len() ==> note_wire_ok(#[trigger] ns[i]),
        forall|i: int| 0 <= i < ns.len() - 1 ==> body_mid_ok((#[trigger] ns[i]).body),
        ns.len() > 0 ==> body_last_ok(ns.last().body),
    ensures
        notes_parse(notes_lines(ns)) == Ok::<Seq<NoteV>, ParseErr>(ns),
    decreases ns.len(),
{
    reveal_strlit("--- ");
    if ns.len() == 0 {
        assert(notes_lines(ns).len() == 0);
        assert(Seq::<NoteV>::empty() =~= ns);
    } else {
        let n = ns[0];
        assert(note_wire_ok(ns[0]));
        let hline = "--- "@ + n.author + seq![' '] + rfc3339_of(n.timestamp);
        let bo = body_out(n.body);
        let bl = lines_of(bo);
        lemma_body_out_closed(n.body);
        let tail = notes_lines(ns.skip(1));
        let nl = notes_lines(ns);
        assert(nl == (seq![Seq::<char>::empty(), hline] + bl) + tail);
        assert(nl[0] =~= Seq::<char>::empty());
        assert(!has_prefix(nl[0], "--- "@));
        assert(notes_parse(nl) == notes_parse(nl.skip(1)));
        let tt = nl.skip(1);
        assert(tt =~= seq![hline] + (bl + tail));
        assert(tt[0] == hline);
        assert(hline.len() >= 4);
        assert(hline.subrange(0, 4) =~= "--- "@);
        assert(has_prefix(tt[0], "--- "@));
        let rest = tt[0].skip(4);
        assert(rest =~= n.author + seq![' '] + rfc3339_of(n.timestamp));
        let alen = n.author.len() as int;
        assert forall|x: int| 0 <= x < alen implies rest[x] != ' ' by {
            assert(rest[x] == n.author[x]);
        }
        assert(rest[alen] == ' ');
        text::lemma_first_ch_at(rest, ' ', alen);
        assert(first_ch(rest, ' ') == alen);
        assert(alen < rest.len());
        assert(rest.subrange(0, alen) =~= n.author);
        assert(rest.subrange(alen + 1, rest.len() as int) =~= rfc3339_of(n.timestamp));
        assert(ts_value(rfc3339_of(n.timestamp)) == Some(n.timestamp));
        // Where the section ends.
        let s2 = tt.skip(1);
        assert(s2 =~= bl + tail);
        lemma_join_lines(bo);
        assert(bl.len() > 0);
        assert forall|m: int| 0 <= m < bl.len() implies !has_prefix(#[trigger] s2[m], "--- "@) by {
            assert(s2[m] == bl[m]);
            assert(!has_prefix(lines_of(body_out(n.body))[m], "--- "@));
        }
        if ns.len() == 1 {
            // The last note: nothing follows the body, so its text read
            // back is the written body less the closing newline.
            assert(body_last_ok(n.body));
            assert(tail.len() == 0);
            assert(s2 =~= bl);
            lemma_first_note_hdr_at(s2, bl.len() as int);
            let k = 1 + first_note_hdr(s2);
            assert(k == 1 + bl.len());
            assert(tt.subrange(1, k) =~= bl);
            assert(join_nl(bl) == bo.drop_last());
            assert(bo.drop_last() =~= n.body);
            assert(body_in(tt.subrange(1, k)) == n.body);
            assert(tt.skip(k).len() == 0);
            assert(notes_parse(tt.skip(k)) == Ok::<Seq<NoteV>, ParseErr>(Seq::empty()));
            let nv = NoteV {
                author: rest.subrange(0, alen),
                timestamp: n.timestamp,
                body: body_in(tt.subrange(1, k)),
            };
            assert(nv == n);
            assert(notes_parse(tt) == Ok::<Seq<NoteV>, ParseErr>(seq![nv] + Seq::empty()));
            assert(seq![nv] + Seq::<NoteV>::empty() =~= ns);
        } else {
            // A note before another: the blank line opening the next
            // section reads back as this body's closing newline.
            assert(body_mid_ok(ns[0].body));
            assert(bo == n.body);
            let n2 = ns.skip(1)[0];
            assert(note_wire_ok(ns[1]));
            assert(ns.skip(1)[0] == ns[1]);
            assert(tail == note_lines(n2) + notes_lines(ns.skip(1).skip(1)));
            assert(tail[0] =~= Seq::<char>::empty());
            assert(tail.len() >= 2);
            let h2line = "--- "@ + n2.author + seq![' '] + rfc3339_of(n2.timestamp);
            assert(tail[1] == h2line);
            assert(h2line.subrange(0, 4) =~= "--- "@);
            assert(s2[bl.len() as int] == tail[0]);
            assert(!has_prefix(s2[bl.len() as int], "--- "@));
            assert(s2[bl.len() as int + 1] == tail[1]);
            assert(has_prefix(s2[bl.len() as int + 1], "--- "@));
            assert forall|m: int| 0 <= m < bl.len() as int + 1 implies !has_prefix(
                #[trigger] s2[m],
                "--- "@,
            ) by {}
            lemma_first_note_hdr_at(s2, bl.len() as int + 1);
            let k = 1 + first_note_hdr(s2);
            assert(k == bl.len() as int + 2);
            assert(tt.subrange(1, k) =~= bl.push(Seq::<char>::empty()));
            lemma_join_ch_push(bl, Seq::<char>::empty(), '\n');
            assert(join_nl(bl.push(Seq::<char>::empty())) == join_nl(bl) + seq!['\n']
                + Seq::<char>::empty());
            assert(join_nl(bl) == n.body.drop_last());
            assert(n.body.drop_last() + seq!['\n'] + Seq::<char>::empty() =~= n.body);
            assert(body_in(tt.subrange(1, k)) == n.body);
            assert(tt.skip(k) =~= tail.skip(1));
            // The remaining sections are the remaining notes.
            assert forall|i: int| 0 <= i < ns.skip(1).len() implies note_wire_ok(
                #[trigger] ns.skip(1)[i],
            ) by {
                assert(ns.skip(1)[i] == ns[i + 1]);
            }
            assert forall|i: int| 0 <= i < ns.skip(1).len() - 1 implies body_mid_ok(
                (#[trigger] ns.skip(1)[i]).body,
            ) by {
                assert(ns.skip(1)[i] == ns[i + 1]);
                assert(body_mid_ok(ns[i + 1].body));
            }
            assert(ns.skip(1).last() == ns.last());
            lemma_notes_eval(ns.skip(1));
            assert(notes_parse(tail) == notes_parse(tail.skip(1)));
            assert(notes_parse(tt.skip(k)) == Ok::<Seq<NoteV>, ParseErr>(ns.skip(1)));
            let nv = NoteV {
                author: rest.subrange(0, alen),
                timestamp: n.timestamp,
                body: body_in(tt.subrange(1, k)),
            };
            assert(nv == n);
            assert(notes_parse(tt) == Ok::<Seq<NoteV>, ParseErr>(seq![nv] + ns.skip(1)));
            assert(seq![nv] + ns.skip(1) =~= ns);
        }
    }
}

/// Adding one more note extends the text by one more section.
pub proof fn lemma_notes_out_push(ns: Seq<NoteV>, n: NoteV)
    ensures
        notes_out(ns.push(n)) == notes_out(ns) + note_block(n),
    decreases ns.len(),
{
    if ns.len() == 0 {
        assert(ns.push(n) =~= seq![n]);
        assert(seq![n].skip(1) =~= Seq::<NoteV>::empty());
        assert(notes_out(seq![n]) == note_block(n) + notes_out(seq![n].skip(1)));
        assert(notes_out(ns) + note_block(n) =~= note_block(n) + notes_out(seq![n].skip(1)));
    } else {
        assert(ns.push(n).skip(1) =~= ns.skip(1).push(n));
        lemma_notes_out_push(ns.skip(1), n);
        assert(notes_out(ns.push(n)) == note_block(ns[0]) + (notes_out(ns.skip(1)) + note_block(
            n,
        )));
        assert(note_block(ns[0]) + (notes_out(ns.skip(1)) + note_block(n)) =~= (note_block(ns[0])
            + notes_out(ns.skip(1))) + note_block(n));
    }
}

/// Finds the first `": "` in `line`, if any.
fn find_sep(line: &Vec<char>) -> (r: Option<usize>)
    ensures
        match r {
            Some(j) => first_sep(line@) == j && j + 1 < line@.len(),
            None => first_sep(line@) + 1 >= line@.len(),
        },
{
    if line.len() == 0 {
        return None;
    }
    let mut j: usize = 0;
    while j + 1 < line.len()
        invariant
            j < line@.len(),
            forall|k: int|
                0 <= k < j ==> !(#[trigger] line@[k] == ':' && line@[k + 1] == ' '),
        decreases line.len() - j,
    {
        if line[j] == ':' && line[j + 1] == ' ' {
            proof {
                lemma_first_sep_at(line@, j as int);
            }
            return Some(j);
        }
        j = j + 1;
    }
    proof {
        lemma_first_sep(line@);
        if first_sep(line@) + 1 < line@.len() {
            assert(!(line@[first_sep(line@)] == ':' && line@[first_sep(line@) + 1] == ' '));
        }
    }
    None
}

/// Splits `v` on spaces, dropping empty pieces.
pub(crate) fn split_sp_exec(v: &Vec<char>) -> (r: Vec<Vec<char>>)
    ensures
        r.deep_view() == split_sp(v@),
{
    let mut r: Vec<Vec<char>> = Vec::new();
    let mut i: usize = 0;
    proof {
        assert(v@.skip(0) =~= v@);
        assert(split_sp(v@) =~= r.deep_view() + split_sp(v@.skip(0)));
    }
    while i < v.len()
        invariant
            i <= v@.len(),
            split_sp(v@) == r.deep_view() + split_sp(v@.skip(i as int)),
        decreases v.len() - i,
    {
        if v[i] == ' ' {
            proof {
                assert(v@.skip(i as int).skip(1) =~= v@.skip(i + 1));
            }
            i = i + 1;
        } else {
            let j = match text::find_char(v, i, ' ') {
                Some(j) => j,
                None => v.len(),
            };
            proof {
                text::lemma_first_ch(v@.skip(i as int), ' ');
            }
            let piece = text::subvec(v, i, j);
            let ghost old_r = r.deep_view();
            proof {
                let tail = v@.skip(i as int);
                assert(first_ch(tail, ' ') == j - i);
                assert(tail.subrange(0, j - i) =~= piece@);
                if j < v.len() {
                    assert(tail.skip(j - i) =~= v@.skip(j as int));
                    assert(split_sp(tail) == seq![piece@] + split_sp(v@.skip(j as int)));
                } else {
                    assert(j - i == tail.len());
                    assert(split_sp(tail) == seq![piece@]);
                    assert(v@.skip(j as int).len() == 0);
                    assert(split_sp(tail) =~= seq![piece@] + split_sp(v@.skip(j as int)));
                }
            }
            r.push(piece);
            proof {
                assert(r.deep_view() =~~= old_r.push(piece@));
                assert(old_r + (seq![piece@] + split_sp(v@.skip(j as int))) =~= r.deep_view()
                    + split_sp(v@.skip(j as int)));
            }
            i = j;
        }
    }
    proof {
        assert(v@.skip(i as int).len() == 0);
        assert(split_sp(v@) =~= r.deep_view());
    }
    r
}

/// Turns character pieces into strings, piece for piece.
fn strings_of(pieces: &Vec<Vec<char>>) -> (r: Vec<String>)
    ensures
        r.deep_view() == pieces.deep_view(),
{
    let mut r: Vec<String> = Vec::new();
    let mut i: usize = 0;
    while i < pieces.len()
        invariant
            i <= pieces@.len(),
            r.deep_view() == pieces.deep_view().subrange(0, i as int),
        decreases pieces.len() - i,
    {
        let ghost old_r = r.deep_view();
        let s = text::string_of(&pieces[i]);
        r.push(s);
        proof {
            assert(r.deep_view() =~~= old_r.push(pieces@[i as int]@));
            assert(r.deep_view() =~~= pieces.deep_view().subrange(0, i + 1));
        }
        i = i + 1;
    }
    proof {
        assert(pieces.deep_view().subrange(0, pieces.deep_view().len() as int) =~= pieces.deep_view());
    }
    r
}

/// Reads `target/kind` pieces into links, or reports the first bad piece.
fn parse_links_exec(pieces: &Vec<Vec<char>>) -> (r: Result<Vec<Link>, ParseErr>)
    ensures
        match (r, parse_links(pieces.deep_view())) {
            (Ok(ls), Ok(lsv)) => crate::task::links_vv(ls@) == lsv,
            (Err(e), Err(e2)) => e == e2,
            _ => false,
        },
{
    let ghost ps = pieces.deep_view();
    let mut out: Vec<Link> = Vec::new();
    let mut i: usize = 0;
    proof {
        assert(ps.skip(0) =~= ps);
        if parse_links(ps) is Ok {
            assert(crate::task::links_vv(out@) + parse_links(ps)->Ok_0 =~= parse_links(
                ps,
            )->Ok_0);
        }
    }
    while i < pieces.len()
        invariant
            i <= pieces@.len(),
            ps == pieces.deep_view(),
            ps.len() == pieces@.len(),
            parse_links(ps) == match parse_links(ps.skip(i as int)) {
                Ok(rest) => Ok(crate::task::links_vv(out@) + rest),
                Err(e) => Err(e),
            },
        decreases pieces.len() - i,
    {
        let p = &pieces[i];
        proof {
            assert(ps[i as int] =~~= p@);
            assert(ps.skip(i as int)[0] == ps[i as int]);
            text::lemma_first_ch(p@, '/');
        }
        let jo = text::find_char(p, 0, '/');
        proof {
            assert(p@.skip(0) =~= p@);
        }
        match jo {
            None => {
                proof {
                    assert(parse_link(ps[i as int]) == Err::<LinkV, ParseErr>(ParseErr::BadLink));
                    assert(parse_links(ps.skip(i as int)) == Err::<Seq<LinkV>, ParseErr>(
                        ParseErr::BadLink,
                    ));
                }
                return Err(ParseErr::BadLink);
            },
            Some(j) => {
                let pl = p.len();
                let kind_opt = if text::range_eq_str(p, j + 1, pl, "relates_to") {
                    Some(LinkKind::RelatesTo)
                } else if text::range_eq_str(p, j + 1, pl, "duplicates") {
                    Some(LinkKind::Duplicates)
                } else if text::range_eq_str(p, j + 1, pl, "supersedes") {
                    Some(LinkKind::Supersedes)
                } else {
                    None
                };
                proof {
                    assert(kind_parse(p@.subrange(j + 1, p@.len() as int)) == match kind_opt {
                        Some(k) => Some(k),
                        None => None::<LinkKind>,
                    });
                }
                match kind_opt {
                    None => {
                        proof {
                            assert(parse_link(ps[i as int]) == Err::<LinkV, ParseErr>(
                                ParseErr::BadLinkKind,
                            ));
                            assert(parse_links(ps.skip(i as int)) == Err::<Seq<LinkV>, ParseErr>(
                                ParseErr::BadLinkKind,
                            ));
                        }
                        return Err(ParseErr::BadLinkKind);
                    },
                    Some(k) => {
                        let tv = text::subvec(p, 0, j);
                        let target = text::string_of(&tv);
                        let ghost old_out = out@;
                        let ghost lv = parse_link(ps[i as int])->Ok_0;
                        out.push(Link { target, kind: k });
                        proof {
                            assert(lv == LinkV { target: p@.subrange(0, j as int), kind: k });
                            assert(out@[out@.len() - 1]@ == lv);
                            assert(crate::task::links_vv(out@) =~= crate::task::links_vv(
                                old_out,
                            ).push(lv));
                            assert(ps.skip(i as int).skip(1) =~= ps.skip(i + 1));
                            assert(parse_links(ps.skip(i as int)) == match parse_links(
                                ps.skip(i + 1),
                            ) {
                                Ok(rest) => Ok(seq![lv] + rest),
                                Err(e) => Err(e),
                            });
                            if parse_links(ps.skip(i + 1)) is Ok {
                                let rest = parse_links(ps.skip(i + 1))->Ok_0;
                                assert(crate::task::links_vv(old_out) + (seq![lv] + rest)
                                    =~= crate::task::links_vv(out@) + rest);
                            }
                        }
                    },
                }
            },
        }
        i = i + 1;
    }
    proof {
        assert(ps.skip(i as int).len() == 0);
        assert(parse_links(ps.skip(i as int)) == Ok::<Seq<LinkV>, ParseErr>(Seq::empty()));
        assert(crate::task::links_vv(out@) + Seq::<LinkV>::empty() =~= crate::task::links_vv(
            out@,
        ));
    }
    Ok(out)
}

/// The header fields as the executable parser gathers them.
struct Hdr {
    id: Option<String>,
    status: Option<Status>,
    summary: Option<String>,
    priority: u8,
    agent: Option<String>,
    change: Option<String>,
    created: Option<i64>,
    updated: Option<i64>,
    blocked_by: Vec<String>,
    links: Vec<Link>,
}

/// The view of an optional timestamp field.
pub open spec fn opt_int(o: Option<i64>) -> Option<int> {
    match o {
        Some(t) => Some(t as int),
        None => None,
    }
}

impl View for Hdr {
    type V = HdrV;

    closed spec fn view(&self) -> HdrV {
        HdrV {
            id: crate::task::opt_vv(self.id),
            status: self.status,
            summary: crate::task::opt_vv(self.summary),
            priority: self.priority,
            agent: crate::task::opt_vv(self.agent),
            change: crate::task::opt_vv(self.change),
            created: opt_int(self.created),
            updated: opt_int(self.updated),
            blocked_by: crate::task::strs_vv(self.blocked_by@),
            links: crate::task::links_vv(self.links@),
        }
    }
}

/// Timestamps gathered so far are in the library's range.
pub open spec fn hdr_ts_ok(h: HdrV) -> bool {
    &&& (h.created is Some ==> valid_ts(h.created->Some_0))
    &&& (h.updated is Some ==> valid_ts(h.updated->Some_0))
}

/// Applies one header line to the gathered fields, as `hdr_step` says.
fn hdr_apply(h: &mut Hdr, line: &Vec<char>) -> (r: Result<(), ParseErr>)
    ensures
        match (r, hdr_step(old(h)@, line@)) {
            (Ok(()), Ok(h2)) => final(h)@ == h2,
            (Err(e), Err(e2)) => e == e2,
            _ => false,
        },
        hdr_ts_ok(old(h)@) && r is Ok ==> hdr_ts_ok(final(h)@),
{
    let jo = find_sep(line);
    let j = match jo {
        None => {
            proof {
                assert(split_kv(line@) is None);
            }
            return Ok(());
        },
        Some(j) => j,
    };
    let ll = line.len();
    let ghost v = line@.subrange(j + 2, line@.len() as int);
    if text::range_eq_str(line, 0, j, "id") {
        let val = text::subvec(line, j + 2, ll);
        h.id = Some(text::string_of(&val));
        Ok(())
    } else if text::range_eq_str(line, 0, j, "status") {
        if text::range_eq_str(line, j + 2, ll, "open") {
            h.status = Some(Status::Open);
            Ok(())
        } else if text::range_eq_str(line, j + 2, ll, "claimed") {
            h.status = Some(Status::Claimed);
            Ok(())
        } else if text::range_eq_str(line, j + 2, ll, "done") {
            h.status = Some(Status::Done);
            Ok(())
        } else {
            Err(ParseErr::BadStatus)
        }
    } else if text::range_eq_str(line, 0, j, "summary") {
        let val = text::subvec(line, j + 2, ll);
        h.summary = Some(text::string_of(&val));
        Ok(())
    } else if text::range_eq_str(line, 0, j, "priority") {
        match text::parse_u8_range(line, j + 2, ll) {
            Some(p) => {
                h.priority = p;
                Ok(())
            },
            None => Err(ParseErr::BadPriority),
        }
    } else if text::range_eq_str(line, 0, j, "agent") {
        if j + 2 < ll {
            let val = text::subvec(line, j + 2, ll);
            h.agent = Some(text::string_of(&val));
            Ok(())
        } else {
            proof {
                assert(v.len() == 0);
            }
            Ok(())
        }
    } else if text::range_eq_str(line, 0, j, "change") {
        if j + 2 < ll {
            let val = text::subvec(line, j + 2, ll);
            h.change = Some(text::string_of(&val));
            Ok(())
        } else {
            proof {
                assert(v.len() == 0);
            }
            Ok(())
        }
    } else if text::range_eq_str(line, 0, j, "created") {
        let val = text::subvec(line, j + 2, ll);
        let vs = text::string_of(&val);
        match time::parse_ts(vs.as_str()) {
            None => Err(ParseErr::BadTimestamp),
            Some(t) => {
                if t < time::TS_MIN || t > time::TS_MAX {
                    Err(ParseErr::BadTimestamp)
                } else {
                    h.created = Some(t);
                    Ok(())
                }
            },
        }
    } else if text::range_eq_str(line, 0, j, "updated") {
        let val = text::subvec(line, j + 2, ll);
        let vs = text::string_of(&val);
        match time::parse_ts(vs.as_str()) {
            None => Err(ParseErr::BadTimestamp),
            Some(t) => {
                if t < time::TS_MIN || t > time::TS_MAX {
                    Err(ParseErr::BadTimestamp)
                } else {
                    h.updated = Some(t);
                    Ok(())
                }
            },
        }
    } else if text::range_eq_str(line, 0, j, "blocked_by") {
        let val = text::subvec(line, j + 2, ll);
        let pieces = split_sp_exec(&val);
        h.blocked_by = strings_of(&pieces);
        proof {
            assert(crate::task::strs_vv(h.blocked_by@) =~~= split_sp(v));
        }
        Ok(())
    } else if text::range_eq_str(line, 0, j, "links") {
        let val = text::subvec(line, j + 2, ll);
        let pieces = split_sp_exec(&val);
        match parse_links_exec(&pieces) {
            Ok(ls) => {
                h.links = ls;
                Ok(())
            },
            Err(e) => Err(e),
        }
    } else {
        Ok(())
    }
}

/// A fold over header lines can stop and resume anywhere.
pub proof fn lemma_hdr_fold_split(h0: HdrV, xs: Seq<Seq<char>>, i: int)
    requires
        0 <= i <= xs.len(),
    ensures
        hdr_fold(h0, xs) == match hdr_fold(h0, xs.subrange(0, i)) {
            Ok(h) => hdr_fold(h, xs.skip(i)),
            Err(e) => Err(e),
        },
    decreases i,
{
    if i == 0 {
        assert(xs.subrange(0, 0) =~= Seq::<Seq<char>>::empty());
        assert(xs.skip(0) =~= xs);
    } else {
        assert(xs.len() > 0);
        assert(xs.subrange(0, i)[0] == xs[0]);
        match hdr_step(h0, xs[0]) {
            Err(e) => {
                assert(hdr_fold(h0, xs.subrange(0, i)) == Err::<HdrV, ParseErr>(e));
            },
            Ok(h1) => {
                lemma_hdr_fold_split(h1, xs.skip(1), i - 1);
                assert(xs.subrange(0, i).skip(1) =~= xs.skip(1).subrange(0, i - 1));
                assert(xs.skip(1).skip(i - 1) =~= xs.skip(i));
                assert(hdr_fold(h0, xs) == hdr_fold(h1, xs.skip(1)));
                assert(hdr_fold(h0, xs.subrange(0, i)) == hdr_fold(
                    h1,
                    xs.skip(1).subrange(0, i - 1),
                ));
            },
        }
    }
}

/// The round trip of the codec: a task fit for the wire, written out and
/// read back, is the same task, field for field — whatever `now` the reader
/// supplies, since an encoded record carries both timestamps. The two
/// hypotheses about timestamp texts are exactly what the clock wrappers
/// guarantee of every rendering; `round_trip` below collects them and
/// applies this lemma with nothing more asked of its caller.
#[verifier::rlimit(100)]
pub proof fn lemma_round_trip(t: TaskV, now: int)
    requires
        wf_wire(t),
        rfc_tokens_ok(t),
        ts_parse_back(t),
    ensures
        decode_spec(encode_spec(t), now) == Ok::<TaskV, ParseErr>(t),
{
    reveal_strlit("---");
    reveal_strlit("--- ");
    reveal_strlit("id: ");
    reveal_strlit("status: ");
    reveal_strlit("summary: ");
    reveal_strlit("priority: ");
    reveal_strlit("agent: ");
    reveal_strlit("change: ");
    reveal_strlit("created: ");
    reveal_strlit("updated: ");
    reveal_strlit("blocked_by: ");
    reveal_strlit("links: ");
    lemma_enc_lines(t);
    let ls = lines_of(encode_spec(t));
    let hl = hdr_lines(t);
    let nl = notes_lines(t.notes);
    assert(ls == hl + nl);
    assert(("---"@).len() == 3);
    assert(("---"@)[0] == '-');
    assert forall|k: int| 0 <= k < hl.len() implies !has_prefix(#[trigger] hl[k], "---"@) by {
        if k == 0 {
            assert(hl[k][0] == 'i');
        } else if k == 1 {
            assert(hl[k][0] == 's');
        } else if k == 2 {
            assert(hl[k][0] == 's');
        } else if k == 3 {
            assert(hl[k][0] == 'p');
        } else if k == 4 {
            assert(hl[k][0] == 'a');
        } else if k == 5 {
            assert(hl[k][0] == 'c');
        } else if k == 6 {
            assert(hl[k][0] == 'c');
        } else if k == 7 {
            assert(hl[k][0] == 'u');
        } else if k == 8 && t.blocked_by.len() > 0 {
            assert(hl[k][0] == 'b');
        } else {
            assert(hl[k][0] == 'l');
        }
        if has_prefix(hl[k], "---"@) {
            assert(hl[k].subrange(0, 3)[0] == '-');
            assert(hl[k][0] == '-');
        }
    }
    lemma_hdr_eval(t);
    if t.notes.len() > 0 {
        assert(note_wire_ok(t.notes[0]));
        let hline1 = "--- "@ + t.notes[0].author + seq![' '] + rfc3339_of(t.notes[0].timestamp);
        assert(nl[0] =~= Seq::<char>::empty());
        assert(nl[1] == hline1);
        assert(ls[hl.len() as int] == nl[0]);
        assert(!has_prefix(ls[hl.len() as int], "---"@));
        assert(ls[hl.len() as int + 1] == hline1);
        assert(hline1.subrange(0, 3) =~= "---"@);
        assert(has_prefix(hline1, "---"@));
        assert forall|k: int| 0 <= k < hl.len() + 1 implies !has_prefix(
            #[trigger] ls[k],
            "---"@,
        ) by {}
        lemma_first_break_at(ls, hl.len() as int + 1);
        let hend = first_break(ls);
        assert(hend == hl.len() + 1);
        assert(ls.subrange(0, hend) =~= hl + seq![Seq::<char>::empty()]);
        lemma_hdr_fold_split(hdr_init(), ls.subrange(0, hend), hl.len() as int);
        assert(ls.subrange(0, hend).subrange(0, hl.len() as int) =~= hl);
        assert(ls.subrange(0, hend).skip(hl.len() as int) =~= seq![Seq::<char>::empty()]);
        let blank = seq![Seq::<char>::empty()];
        assert(blank[0].len() == 0);
        assert(split_kv(blank[0]) is None);
        assert(hdr_step(hdr_expected(t), blank[0]) == Ok::<HdrV, ParseErr>(hdr_expected(t)));
        assert(blank.skip(1).len() == 0);
        assert(hdr_fold(hdr_expected(t), blank.skip(1)) == Ok::<HdrV, ParseErr>(hdr_expected(t)));
        assert(hdr_fold(hdr_expected(t), blank) == Ok::<HdrV, ParseErr>(hdr_expected(t)));
        assert(hdr_fold(hdr_init(), ls.subrange(0, hend)) == Ok::<HdrV, ParseErr>(
            hdr_expected(t),
        ));
        // The note sections.
        assert forall|i: int| 0 <= i < t.notes.len() implies note_wire_ok(
            #[trigger] t.notes[i],
        ) by {}
        assert forall|i: int| 0 <= i < t.notes.len() - 1 implies body_mid_ok(
            (#[trigger] t.notes[i]).body,
        ) by {}
        assert(body_last_ok(t.notes.last().body));
        lemma_notes_eval(t.notes);
        assert(!has_prefix(nl[0], "--- "@));
        assert(notes_parse(nl) == notes_parse(nl.skip(1)));
        assert(ls.skip(hend) =~= nl.skip(1));
        assert(notes_parse(ls.skip(hend)) == Ok::<Seq<NoteV>, ParseErr>(t.notes));
    } else {
        assert(nl.len() == 0);
        assert(ls =~= hl);
        lemma_first_break_at(ls, ls.len() as int);
        let hend = first_break(ls);
        assert(ls.subrange(0, hend) =~= hl);
        assert(hdr_fold(hdr_init(), ls.subrange(0, hend)) == Ok::<HdrV, ParseErr>(
            hdr_expected(t),
        ));
        assert(ls.skip(hend).len() == 0);
        assert(notes_parse(ls.skip(hend)) == Ok::<Seq<NoteV>, ParseErr>(Seq::empty()));
        assert(Seq::<NoteV>::empty() =~= t.notes);
    }
    let h = hdr_expected(t);
    assert(h.id is Some && h.summary is Some);
    assert(decode_spec(encode_spec(t), now) == Ok::<TaskV, ParseErr>(
        TaskV {
            id: t.id,
            status: t.status,
            summary: t.summary,
            priority: t.priority,
            agent: t.agent,
            change: t.change,
            created: t.created,
            updated: t.updated,
            blocked_by: t.blocked_by,
            links: t.links,
            notes: t.notes,
        },
    ));
}

/// The round trip, executable: writes `t` out, reads the text back, and
/// returns the reread task, which is `t` itself, field for field.
pub fn round_trip(t: &Task, now: i64) -> (r: Task)
    requires
        wf_wire(t@),
        valid_ts(now as int),
    ensures
        r@ == t@,
{
    // Each timestamp's rendering reads back as the timestamp itself.
    let cs = time::fmt_rfc3339(t.created);
    let _c_back = time::parse_ts(cs.as_str());
    let us = time::fmt_rfc3339(t.updated);
    let _u_back = time::parse_ts(us.as_str());
    let mut i: usize = 0;
    while i < t.notes.len()
        invariant
            wf_wire(t@),
            i <= t.notes@.len(),
            t.notes@.len() == t@.notes.len(),
            forall|k: int|
                0 <= k < i ==> ts_parse(rfc3339_of(#[trigger] t@.notes[k].timestamp)) == Some(
                    t@.notes[k].timestamp as i64,
                ) && time::one_token(rfc3339_of(t@.notes[k].timestamp)),
        decreases t.notes@.len() - i,
    {
        proof {
            assert(t@.notes[i as int] == t.notes@[i as int]@);
            assert(valid_ts(t@.notes[i as int].timestamp));
        }
        let ts = time::fmt_rfc3339(t.notes[i].timestamp);
        let _t_back = time::parse_ts(ts.as_str());
        i = i + 1;
    }
    proof {
        assert(ts_parse_back(t@));
        assert(rfc_tokens_ok(t@));
        lemma_round_trip(t@, now as int);
    }
    let text_out = t.serialize();
    match Task::parse(text_out.as_str(), now) {
        Ok(t2) => t2,
        Err(_) => {
            proof {
                assert(false);
            }
            vstd::pervasive::unreached()
        },
    }
}

impl Task {
    /// Writes the task in its durable text form.
    #[verifier::rlimit(50)]
    pub fn serialize(&self) -> (r: String)
        requires
            ts_in_range(self@),
        ensures
            r@ == encode_spec(self@),
            rfc_tokens_ok(self@),
    {
        let ghost t = self@;
        let mut out: Vec<char> = Vec::new();
        text::push_str_chars(&mut out, "id: ");
        text::push_str_chars(&mut out, self.id.as_str());
        out.push('\n');
        text::push_str_chars(&mut out, "status: ");
        match self.status {
            Status::Open => text::push_str_chars(&mut out, "open"),
            Status::Claimed => text::push_str_chars(&mut out, "claimed"),
            Status::Done => text::push_str_chars(&mut out, "done"),
        }
        out.push('\n');
        text::push_str_chars(&mut out, "summary: ");
        text::push_str_chars(&mut out, self.summary.as_str());
        out.push('\n');
        text::push_str_chars(&mut out, "priority: ");
        text::push_u64_dec(&mut out, self.priority as u64);
        out.push('\n');
        text::push_str_chars(&mut out, "agent: ");
        match &self.agent {
            Some(a) => text::push_str_chars(&mut out, a.as_str()),
            None => {},
        }
        out.push('\n');
        text::push_str_chars(&mut out, "change: ");
        match &self.change {
            Some(c) => text::push_str_chars(&mut out, c.as_str()),
            None => {},
        }
        out.push('\n');
        text::push_str_chars(&mut out, "created: ");
        let cs = time::fmt_rfc3339(self.created);
        text::push_str_chars(&mut out, cs.as_str());
        out.push('\n');
        text::push_str_chars(&mut out, "updated: ");
        let us = time::fmt_rfc3339(self.updated);
        text::push_str_chars(&mut out, us.as_str());
        out.push('\n');
        proof {
            assert(out@ =~= hdr_fixed(t));
        }
        let ghost base1 = out@;
        if self.blocked_by.len() > 0 {
            text::push_str_chars(&mut out, "blocked_by: ");
            proof {
                assert(t.blocked_by.subrange(0, 0) =~= Seq::<Seq<char>>::empty());
                assert(out@ =~= base1 + "blocked_by: "@ + join_sp(t.blocked_by.subrange(0, 0)));
            }
            let mut i: usize = 0;
            while i < self.blocked_by.len()
                invariant
                    t == self@,
                    i <= self.blocked_by@.len(),
                    t.blocked_by.len() == self.blocked_by@.len(),
                    out@ == base1 + "blocked_by: "@ + join_sp(t.blocked_by.subrange(0, i as int)),
                decreases self.blocked_by@.len() - i,
            {
                if i > 0 {
                    out.push(' ');
                }
                text::push_str_chars(&mut out, self.blocked_by[i].as_str());
                proof {
                    let pre = t.blocked_by.subrange(0, i as int);
                    assert(t.blocked_by[i as int] == self.blocked_by@[i as int]@);
                    assert(t.blocked_by.subrange(0, i + 1) =~= pre.push(t.blocked_by[i as int]));
                    lemma_join_ch_push(pre, t.blocked_by[i as int], ' ');
                    assert(out@ =~= base1 + "blocked_by: "@ + join_sp(
                        t.blocked_by.subrange(0, i + 1),
                    ));
                }
                i = i + 1;
            }
            out.push('\n');
            proof {
                assert(t.blocked_by.subrange(0, t.blocked_by.len() as int) =~= t.blocked_by);
                assert(out@ =~= base1 + hdr_bb(t));
            }
        } else {
            proof {
                assert(out@ =~= base1 + hdr_bb(t));
            }
        }
        let ghost base2 = out@;
        if self.links.len() > 0 {
            text::push_str_chars(&mut out, "links: ");
            proof {
                assert(links_out(t.links).subrange(0, 0) =~= Seq::<Seq<char>>::empty());
                assert(out@ =~= base2 + "links: "@ + join_sp(links_out(t.links).subrange(0, 0)));
            }
            let mut i: usize = 0;
            while i < self.links.len()
                invariant
                    t == self@,
                    i <= self.links@.len(),
                    t.links.len() == self.links@.len(),
                    links_out(t.links).len() == t.links.len(),
                    out@ == base2 + "links: "@ + join_sp(links_out(t.links).subrange(0, i as int)),
                decreases self.links@.len() - i,
            {
                if i > 0 {
                    out.push(' ');
                }
                let ghost piece_start = out@;
                text::push_str_chars(&mut out, self.links[i].target.as_str());
                out.push('/');
                match self.links[i].kind {
                    LinkKind::RelatesTo => text::push_str_chars(&mut out, "relates_to"),
                    LinkKind::Duplicates => text::push_str_chars(&mut out, "duplicates"),
                    LinkKind::Supersedes => text::push_str_chars(&mut out, "supersedes"),
                }
                proof {
                    let pre = links_out(t.links).subrange(0, i as int);
                    assert(t.links[i as int] == self.links@[i as int]@);
                    assert(links_out(t.links)[i as int] == link_piece(t.links[i as int]));
                    assert(out@ =~= piece_start + links_out(t.links)[i as int]);
                    assert(links_out(t.links).subrange(0, i + 1) =~= pre.push(
                        links_out(t.links)[i as int],
                    ));
                    lemma_join_ch_push(pre, links_out(t.links)[i as int], ' ');
                    assert(out@ =~= base2 + "links: "@ + join_sp(
                        links_out(t.links).subrange(0, i + 1),
                    ));
                }
                i = i + 1;
            }
            out.push('\n');
            proof {
                assert(links_out(t.links).subrange(0, links_out(t.links).len() as int) =~= links_out(
                    t.links,
                ));
                assert(out@ =~= base2 + hdr_links(t));
            }
        } else {
            proof {
                assert(out@ =~= base2 + hdr_links(t));
            }
        }
        proof {
            assert(out@ =~= header_out(t));
        }
        let ghost base3 = out@;
        let mut i: usize = 0;
        proof {
            assert(t.notes.subrange(0, 0) =~= Seq::<NoteV>::empty());
            assert(out@ =~= base3 + notes_out(t.notes.subrange(0, 0)));
        }
        while i < self.notes.len()
            invariant
                t == self@,
                ts_in_range(t),
                i <= self.notes@.len(),
                t.notes.len() == self.notes@.len(),
                out@ == base3 + notes_out(t.notes.subrange(0, i as int)),
                forall|k: int|
                    0 <= k < i ==> time::one_token(rfc3339_of(#[trigger] t.notes[k].timestamp)),
            decreases self.notes@.len() - i,
        {
            let ghost nb_start = out@;
            out.push('\n');
            text::push_str_chars(&mut out, "--- ");
            text::push_str_chars(&mut out, self.notes[i].author.as_str());
            out.push(' ');
            proof {
                assert(t.notes[i as int] == self.notes@[i as int]@);
                assert(valid_ts(t.notes[i as int].timestamp));
            }
            let ts = time::fmt_rfc3339(self.notes[i].timestamp);
            text::push_str_chars(&mut out, ts.as_str());
            out.push('\n');
            let b = self.notes[i].body.as_str();
            let bl = b.unicode_len();
            text::push_str_chars(&mut out, b);
            if bl == 0 {
                out.push('\n');
            } else {
                let lc = b.get_char(bl - 1);
                if lc != '\n' {
                    out.push('\n');
                }
            }
            proof {
                let n = t.notes[i as int];
                assert(n == self.notes@[i as int]@);
                assert(out@ =~= nb_start + note_block(n));
                let pre = t.notes.subrange(0, i as int);
                assert(t.notes.subrange(0, i + 1) =~= pre.push(n));
                lemma_notes_out_push(pre, n);
                assert(out@ =~= base3 + notes_out(t.notes.subrange(0, i + 1)));
            }
            i = i + 1;
        }
        proof {
            assert(t.notes.subrange(0, t.notes.len() as int) =~= t.notes);
            assert(out@ =~= encode_spec(t));
        }
        text::string_of(&out)
    }

    /// Reads a task back from its text form. `now` stands in for missing
    /// `created`/`updated` lines.
    #[verifier::rlimit(50)]
    pub fn parse(input: &str, now: i64) -> (r: Result<Task, ParseErr>)
        requires
            valid_ts(now as int),
        ensures
            (match (r, decode_spec(input@, now as int)) {
                (Ok(t), Ok(tv)) => t@ == tv && ts_in_range(t@),
                (Err(e), Err(e2)) => e == e2,
                _ => false,
            }),
    {
        let chars = text::chars_of(input);
        let lines = text::split_lines(&chars);
        let ghost ls = lines.deep_view();
        proof {
            assert(ls == lines_of(input@));
        }
        // Find where the header ends: the first line opening with `---`.
        let mut hend: usize = 0;
        while hend < lines.len() && !text::starts_with_str(&lines[hend], "---")
            invariant
                hend <= ls.len(),
                ls == lines.deep_view(),
                lines@.len() == ls.len(),
                forall|k: int| 0 <= k < hend ==> !has_prefix(#[trigger] ls[k], "---"@),
            decreases lines@.len() - hend,
        {
            proof {
                assert(ls[hend as int] =~= lines@[hend as int]@);
            }
            hend = hend + 1;
        }
        proof {
            if hend < lines@.len() {
                assert(ls[hend as int] =~= lines@[hend as int]@);
            }
            lemma_first_break_at(ls, hend as int);
        }
        // Read the header lines.
        let mut h = Hdr {
            id: None,
            status: None,
            summary: None,
            priority: 2,
            agent: None,
            change: None,
            created: None,
            updated: None,
            blocked_by: Vec::new(),
            links: Vec::new(),
        };
        proof {
            assert(h@.blocked_by =~= hdr_init().blocked_by);
            assert(h@.links =~= hdr_init().links);
            assert(h@ == hdr_init());
            assert(ls.subrange(0, 0) =~= Seq::<Seq<char>>::empty());
        }
        let mut i: usize = 0;
        while i < hend
            invariant
                i <= hend <= ls.len(),
                ls == lines.deep_view(),
                ls == lines_of(input@),
                lines@.len() == ls.len(),
                hend == first_break(ls),
                hdr_fold(hdr_init(), ls.subrange(0, i as int)) == Ok::<HdrV, ParseErr>(h@),
                hdr_ts_ok(h@),
            decreases hend - i,
        {
            let ghost h_old = h@;
            proof {
                assert(ls[i as int] =~= lines@[i as int]@);
            }
            match hdr_apply(&mut h, &lines[i]) {
                Ok(()) => {
                    proof {
                        let pre = ls.subrange(0, i as int);
                        let ext = ls.subrange(0, i + 1);
                        lemma_hdr_fold_split(hdr_init(), ext, i as int);
                        assert(ext.subrange(0, i as int) =~= pre);
                        assert(ext.skip(i as int) =~= seq![ls[i as int]]);
                        assert(hdr_step(h_old, lines@[i as int]@) is Ok);
                        assert(hdr_step(h_old, ls[i as int]) == hdr_step(h_old, lines@[i as int]@));
                        assert(seq![ls[i as int]][0] == ls[i as int]);
                        assert(seq![ls[i as int]].skip(1) =~= Seq::<Seq<char>>::empty());
                        assert(hdr_fold(h@, seq![ls[i as int]].skip(1)) == Ok::<HdrV, ParseErr>(
                            h@,
                        ));
                        assert(hdr_fold(h_old, seq![ls[i as int]]) == Ok::<HdrV, ParseErr>(h@));
                    }
                },
                Err(e) => {
                    proof {
                        let hb = ls.subrange(0, first_break(ls));
                        lemma_hdr_fold_split(hdr_init(), hb, i as int);
                        assert(hb.subrange(0, i as int) =~= ls.subrange(0, i as int));
                        assert(hb.skip(i as int)[0] == ls[i as int]);
                        assert(hdr_fold(h_old, hb.skip(i as int)) == Err::<HdrV, ParseErr>(e));
                        assert(hdr_fold(hdr_init(), hb) == Err::<HdrV, ParseErr>(e));
                    }
                    return Err(e);
                },
            }
            i = i + 1;
        }
        let ghost hv = h@;
        proof {
            assert(ls.subrange(0, hend as int) =~= ls.subrange(0, first_break(ls)));
        }
        // Read the note sections.
        let mut notes: Vec<Note> = Vec::new();
        proof {
            assert(crate::task::notes_vv(notes@) =~= Seq::<NoteV>::empty());
            if notes_parse(ls.skip(hend as int)) is Ok {
                assert(crate::task::notes_vv(notes@) + notes_parse(ls.skip(hend as int))->Ok_0
                    =~= notes_parse(ls.skip(hend as int))->Ok_0);
            }
        }
        while i < lines.len()
            invariant
                hend <= i <= ls.len(),
                ls == lines.deep_view(),
                ls == lines_of(input@),
                lines@.len() == ls.len(),
                hend == first_break(ls),
                hdr_fold(hdr_init(), ls.subrange(0, hend as int)) == Ok::<HdrV, ParseErr>(hv),
                notes_parse(ls.skip(hend as int)) == match notes_parse(ls.skip(i as int)) {
                    Ok(rest) => Ok(crate::task::notes_vv(notes@) + rest),
                    Err(e) => Err(e),
                },
                forall|k: int|
                    0 <= k < notes@.len() ==> valid_ts(
                        #[trigger] crate::task::notes_vv(notes@)[k].timestamp,
                    ),
            decreases lines@.len() - i,
        {
            let ghost sub = ls.skip(i as int);
            proof {
                assert(ls[i as int] =~= lines@[i as int]@);
                assert(sub[0] == ls[i as int]);
            }
            if !text::starts_with_str(&lines[i], "--- ") {
                proof {
                    assert(sub.skip(1) =~= ls.skip(i + 1));
                    assert(notes_parse(sub) == notes_parse(ls.skip(i + 1)));
                }
                i = i + 1;
                continue ;
            }
            proof {
                reveal_strlit("--- ");
                assert(ls[i as int].len() >= 4);
            }
            let jo = text::find_char(&lines[i], 4, ' ');
            let ghost rest = sub[0].skip(4);
            let j = match jo {
                None => {
                    proof {
                        assert(first_ch(rest, ' ') == rest.len());
                        assert(notes_parse(sub) == Err::<Seq<NoteV>, ParseErr>(
                            ParseErr::BadNoteHeader,
                        ));
                    }
                    return Err(ParseErr::BadNoteHeader);
                },
                Some(j) => j,
            };
            proof {
                assert(first_ch(rest, ' ') == j - 4);
                text::lemma_first_ch(rest, ' ');
            }
            let ll = lines[i].len();
            let author_vec = text::subvec(&lines[i], 4, j);
            let ts_vec = text::subvec(&lines[i], j + 1, ll);
            let tss = text::string_of(&ts_vec);
            let topt = time::parse_ts(tss.as_str());
            let ghost tstext = rest.subrange(j - 4 + 1, rest.len() as int);
            proof {
                assert(tstext =~= ts_vec@);
                assert(author_vec@ =~= rest.subrange(0, j - 4));
            }
            let t = match topt {
                None => {
                    proof {
                        assert(ts_value(tstext) is None);
                        assert(notes_parse(sub) == Err::<Seq<NoteV>, ParseErr>(
                            ParseErr::BadTimestamp,
                        ));
                    }
                    return Err(ParseErr::BadTimestamp);
                },
                Some(t) => t,
            };
            if t < time::TS_MIN || t > time::TS_MAX {
                proof {
                    assert(ts_value(tstext) is None);
                    assert(notes_parse(sub) == Err::<Seq<NoteV>, ParseErr>(ParseErr::BadTimestamp));
                }
                return Err(ParseErr::BadTimestamp);
            }
            proof {
                assert(ts_value(tstext) == Some(t as int));
            }
            // Gather the body: lines up to the next `--- ` line or the end.
            let mut body: Vec<char> = Vec::new();
            let mut k: usize = i + 1;
            proof {
                assert(ls.subrange(i + 1, i + 1) =~= Seq::<Seq<char>>::empty());
            }
            while k < lines.len() && !text::starts_with_str(&lines[k], "--- ")
                invariant
                    i + 1 <= k <= ls.len(),
                    ls == lines.deep_view(),
                    lines@.len() == ls.len(),
                    body@ == join_nl(ls.subrange(i + 1, k as int)),
                    forall|m: int| i + 1 <= m < k ==> !has_prefix(#[trigger] ls[m], "--- "@),
                decreases lines@.len() - k,
            {
                if k > i + 1 {
                    body.push('\n');
                }
                text::push_all(&mut body, &lines[k]);
                proof {
                    assert(ls[k as int] =~= lines@[k as int]@);
                    let pre = ls.subrange(i + 1, k as int);
                    assert(ls.subrange(i + 1, k + 1) =~= pre.push(ls[k as int]));
                    lemma_join_ch_push(pre, ls[k as int], '\n');
                    assert(body@ =~= join_nl(ls.subrange(i + 1, k + 1)));
                }
                k = k + 1;
            }
            proof {
                assert(body@ =~= body_in(ls.subrange(i + 1, k as int)));
            }
            let ghost nv = NoteV {
                author: rest.subrange(0, j - 4),
                timestamp: t as int,
                body: body@,
            };
            proof {
                if k < lines@.len() {
                    assert(ls[k as int] =~= lines@[k as int]@);
                }
                assert(sub.skip(1) =~= ls.skip(i + 1));
                assert forall|m: int| 0 <= m < k - (i + 1) implies !has_prefix(
                    #[trigger] ls.skip(i + 1)[m],
                    "--- "@,
                ) by {
                    assert(ls.skip(i + 1)[m] == ls[i + 1 + m]);
                }
                if k == lines@.len() {
                    lemma_first_note_hdr_at(ls.skip(i + 1), k - (i + 1));
                } else {
                    assert(ls.skip(i + 1)[k - (i + 1)] == ls[k as int]);
                    lemma_first_note_hdr_at(ls.skip(i + 1), k - (i + 1));
                }
                assert(1 + first_note_hdr(sub.skip(1)) == k - i);
                assert(sub.subrange(1, k - i) =~= ls.subrange(i + 1, k as int));
                assert(sub.skip(k - i) =~= ls.skip(k as int));
                assert(notes_parse(sub) == match notes_parse(ls.skip(k as int)) {
                    Ok(ns) => Ok(seq![nv] + ns),
                    Err(e) => Err(e),
                });
            }
            let author = text::string_of(&author_vec);
            let bodys = text::string_of(&body);
            let ghost old_notes = notes@;
            notes.push(Note { author, timestamp: t, body: bodys });
            proof {
                assert(notes@[notes@.len() - 1]@ == nv);
                assert(crate::task::notes_vv(notes@) =~= crate::task::notes_vv(old_notes).push(
                    nv,
                ));
                if notes_parse(ls.skip(k as int)) is Ok {
                    let rst = notes_parse(ls.skip(k as int))->Ok_0;
                    assert(crate::task::notes_vv(old_notes) + (seq![nv] + rst)
                        =~= crate::task::notes_vv(notes@) + rst);
                }
            }
            i = k;
        }
        proof {
            assert(ls.skip(i as int).len() == 0);
            assert(notes_parse(ls.skip(i as int)) == Ok::<Seq<NoteV>, ParseErr>(Seq::empty()));
            assert(crate::task::notes_vv(notes@) + Seq::<NoteV>::empty() =~= crate::task::notes_vv(
                notes@,
            ));
        }
        // Assemble the task, applying the defaults.
        let Hdr { id, status, summary, priority, agent, change, created, updated, blocked_by, links } =
            h;
        let idv = match id {
            None => {
                return Err(ParseErr::MissingId);
            },
            Some(idv) => idv,
        };
        let sm = match summary {
            None => {
                return Err(ParseErr::MissingSummary);
            },
            Some(sm) => sm,
        };
        let task = Task {
            id: idv,
            status: match status {
                Some(s) => s,
                None => Status::Open,
            },
            summary: sm,
            priority,
            agent,
            change,
            created: match created {
                Some(c) => c,
                None => now,
            },
            updated: match updated {
                Some(u) => u,
                None => now,
            },
            blocked_by,
            links,
            notes,
        };
        proof {
            let tv = decode_spec(input@, now as int)->Ok_0;
            assert(task@.id == tv.id);
            assert(task@.status == tv.status);
            assert(task@.blocked_by == tv.blocked_by);
            assert(task@.links == tv.links);
            assert(task@.notes == tv.notes);
            assert(task@ == tv);
        }
        Ok(task)
    }
}

} // verus!
