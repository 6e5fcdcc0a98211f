//! The version-control backend's protocol: for each operation, the exact
//! argument list to hand the external `jj` tool, and the reading of what it
//! prints. Running the tool happens outside; this module decides what to
//! run and what its output means.

use vstd::prelude::*;
use vstd::string::StringExecFns;

use crate::codec::split_sp;
use crate::text;

verus! {

/// The views of an argument list, element for element.
pub open spec fn args_vv(s: Seq<String>) -> Seq<Seq<char>> {
    Seq::new(s.len(), |i: int| s[i]@)
}

/// The views of a record list, pair for pair.
pub open spec fn pairs_vv(s: Seq<(String, String)>) -> Seq<(Seq<char>, Seq<char>)> {
    Seq::new(s.len(), |i: int| (s[i].0@, s[i].1@))
}

/// The backend over the external `jj` tool.
pub struct Jj;

impl Jj {
    /// The arguments that test for a repository: `jj root` succeeds only
    /// inside one.
    pub fn check_repo() -> (r: Vec<String>)
        ensures
            args_vv(r@) == seq!["root"@],
    {
        let mut v: Vec<String> = Vec::new();
        v.push(String::from_str("root"));
        proof {
            assert(args_vv(v@) =~= seq!["root"@]);
        }
        v
    }

    /// The arguments that list bookmarks, for finding the root bookmark.
    pub fn bookmark_list_args() -> (r: Vec<String>)
        ensures
            args_vv(r@) == seq!["bookmark"@, "list"@],
    {
        let mut v: Vec<String> = Vec::new();
        v.push(String::from_str("bookmark"));
        v.push(String::from_str("list"));
        proof {
            assert(args_vv(v@) =~= seq!["bookmark"@, "list"@]);
        }
        v
    }

    /// Whether the bookmark listing already shows a `jjt` bookmark.
    pub fn bookmark_taken(out: &str) -> (r: bool)
        ensures
            r == exists|i: int|
                0 <= i < text::lines_of(out@).len() && bookmark_line(
                    #[trigger] text::lines_of(out@)[i],
                ),
    {
        let chars = text::chars_of(out);
        let lines = text::split_lines(&chars);
        let ghost ls = text::lines_of(out@);
        let mut i: usize = 0;
        while i < lines.len()
            invariant
                i <= ls.len(),
                ls == lines.deep_view(),
                ls == text::lines_of(out@),
                lines@.len() == ls.len(),
                forall|k: int| 0 <= k < i ==> !bookmark_line(#[trigger] ls[k]),
            decreases lines@.len() - i,
        {
            proof {
                assert(ls[i as int] =~= lines@[i as int]@);
                assert(lines@[i as int]@.subrange(0, lines@[i as int]@.len() as int)
                    =~= lines@[i as int]@);
            }
            if text::starts_with_str(&lines[i], "jjt:") || text::starts_with_str(&lines[i], "jjt ")
                || text::range_eq_str(&lines[i], 0, lines[i].len(), "jjt") {
                proof {
                    assert(bookmark_line(ls[i as int]));
                }
                return true;
            }
            i = i + 1;
        }
        proof {
            if exists|k: int| 0 <= k < ls.len() && bookmark_line(#[trigger] ls[k]) {
                let w = choose|w: int| 0 <= w < ls.len() && bookmark_line(#[trigger] ls[w]);
                assert(!bookmark_line(ls[w]));
            }
        }
        false
    }

    /// The arguments that create the root commit for task records.
    pub fn init_root_args() -> (r: Vec<String>)
        ensures
            args_vv(r@) == seq!["new"@, "root()"@, "--no-edit"@, "-m"@, "jjt root"@],
    {
        let mut v: Vec<String> = Vec::new();
        v.push(String::from_str("new"));
        v.push(String::from_str("root()"));
        v.push(String::from_str("--no-edit"));
        v.push(String::from_str("-m"));
        v.push(String::from_str("jjt root"));
        proof {
            assert(args_vv(v@) =~= seq!["new"@, "root()"@, "--no-edit"@, "-m"@, "jjt root"@]);
        }
        v
    }

    /// The arguments that bookmark the root commit as `jjt`.
    pub fn bookmark_create_args(change_id: &str) -> (r: Vec<String>)
        ensures
            args_vv(r@) == seq!["bookmark"@, "create"@, "jjt"@, "-r"@, change_id@],
    {
        let mut v: Vec<String> = Vec::new();
        v.push(String::from_str("bookmark"));
        v.push(String::from_str("create"));
        v.push(String::from_str("jjt"));
        v.push(String::from_str("-r"));
        v.push(String::from_str(change_id));
        proof {
            assert(args_vv(v@) =~= seq!["bookmark"@, "create"@, "jjt"@, "-r"@, change_id@]);
        }
        v
    }

    /// The arguments that create a record commit under the root, holding
    /// the description.
    pub fn create_child(description: &str) -> (r: Vec<String>)
        ensures
            args_vv(r@) == seq!["new"@, "jjt"@, "--no-edit"@, "-m"@, description@],
    {
        let mut v: Vec<String> = Vec::new();
        v.push(String::from_str("new"));
        v.push(String::from_str("jjt"));
        v.push(String::from_str("--no-edit"));
        v.push(String::from_str("-m"));
        v.push(String::from_str(description));
        proof {
            assert(args_vv(v@) =~= seq!["new"@, "jjt"@, "--no-edit"@, "-m"@, description@]);
        }
        v
    }

    /// The arguments that print a commit's description.
    pub fn get_description_args(change_id: &str) -> (r: Vec<String>)
        ensures
            args_vv(r@) == seq!["log"@, "-r"@, change_id@, "--no-graph"@, "-T"@, "description"@],
    {
        let mut v: Vec<String> = Vec::new();
        v.push(String::from_str("log"));
        v.push(String::from_str("-r"));
        v.push(String::from_str(change_id));
        v.push(String::from_str("--no-graph"));
        v.push(String::from_str("-T"));
        v.push(String::from_str("description"));
        proof {
            assert(args_vv(v@) =~= seq![
                "log"@,
                "-r"@,
                change_id@,
                "--no-graph"@,
                "-T"@,
                "description"@,
            ]);
        }
        v
    }

    /// The arguments that rewrite a commit's description.
    pub fn describe(change_id: &str, description: &str) -> (r: Vec<String>)
        ensures
            args_vv(r@) == seq!["describe"@, "-r"@, change_id@, "-m"@, description@],
    {
        let mut v: Vec<String> = Vec::new();
        v.push(String::from_str("describe"));
        v.push(String::from_str("-r"));
        v.push(String::from_str(change_id));
        v.push(String::from_str("-m"));
        v.push(String::from_str(description));
        proof {
            assert(args_vv(v@) =~= seq!["describe"@, "-r"@, change_id@, "-m"@, description@]);
        }
        v
    }

    /// The arguments that resolve a revision to a short change id.
    pub fn resolve_change(rev: &str) -> (r: Vec<String>)
        ensures
            args_vv(r@) == seq![
                "log"@,
                "-r"@,
                rev@,
                "--no-graph"@,
                "-T"@,
                "change_id.short(12)"@,
            ],
    {
        let mut v: Vec<String> = Vec::new();
        v.push(String::from_str("log"));
        v.push(String::from_str("-r"));
        v.push(String::from_str(rev));
        v.push(String::from_str("--no-graph"));
        v.push(String::from_str("-T"));
        v.push(String::from_str("change_id.short(12)"));
        proof {
            assert(args_vv(v@) =~= seq![
                "log"@,
                "-r"@,
                rev@,
                "--no-graph"@,
                "-T"@,
                "change_id.short(12)"@,
            ]);
        }
        v
    }

    /// The arguments that abandon a commit, deleting the record.
    pub fn abandon(change_id: &str) -> (r: Vec<String>)
        ensures
            args_vv(r@) == seq!["abandon"@, change_id@],
    {
        let mut v: Vec<String> = Vec::new();
        v.push(String::from_str("abandon"));
        v.push(String::from_str(change_id));
        proof {
            assert(args_vv(v@) =~= seq!["abandon"@, change_id@]);
        }
        v
    }

    /// The arguments that print every record commit in the marker form
    /// `list_task_records` reads back.
    pub fn list_records_args() -> (r: Vec<String>)
        ensures
            args_vv(r@) == seq![
                "log"@,
                "-r"@,
                "children(jjt)"@,
                "--no-graph"@,
                "-T"@,
                "\"<<JJT:\" ++ change_id.short(12) ++ \">>\\n\" ++ description ++ \"\\n<<JJT:END>>\\n\""@,
            ],
    {
        let mut v: Vec<String> = Vec::new();
        v.push(String::from_str("log"));
        v.push(String::from_str("-r"));
        v.push(String::from_str("children(jjt)"));
        v.push(String::from_str("--no-graph"));
        v.push(String::from_str("-T"));
        v.push(
            String::from_str(
                "\"<<JJT:\" ++ change_id.short(12) ++ \">>\\n\" ++ description ++ \"\\n<<JJT:END>>\\n\"",
            ),
        );
        proof {
            assert(args_vv(v@) =~= seq![
                "log"@,
                "-r"@,
                "children(jjt)"@,
                "--no-graph"@,
                "-T"@,
                "\"<<JJT:\" ++ change_id.short(12) ++ \">>\\n\" ++ description ++ \"\\n<<JJT:END>>\\n\""@,
            ]);
        }
        v
    }
}

/// A bookmark-listing line that names the `jjt` bookmark.
pub open spec fn bookmark_line(l: Seq<char>) -> bool {
    text::has_prefix(l, "jjt:"@) || text::has_prefix(l, "jjt "@) || l == "jjt"@
}

/// What one line of `jj new` output yields: the word after
/// `Created new commit ` on the trimmed line.
pub open spec fn change_id_of_line(l: Seq<char>) -> Option<Seq<char>> {
    let t = text::trim(l);
    if text::has_prefix(t, "Created new commit "@) {
        let ps = split_sp(t.skip(19));
        if ps.len() > 0 {
            Some(ps[0])
        } else {
            None
        }
    } else {
        None
    }
}

/// The first line that yields a change id, front to back.
pub open spec fn change_id_lines(ls: Seq<Seq<char>>) -> Option<Seq<char>>
    decreases ls.len(),
{
    if ls.len() == 0 {
        None
    } else {
        match change_id_of_line(ls[0]) {
            Some(x) => Some(x),
            None => change_id_lines(ls.skip(1)),
        }
    }
}

/// The change id `jj new` announces on its error stream, if any.
pub open spec fn change_id_spec(s: Seq<char>) -> Option<Seq<char>> {
    change_id_lines(text::lines_of(s))
}

impl Jj {
    /// Reads the fresh commit's change id off `jj new`'s announcement.
    pub fn parse_change_id(stderr: &str) -> (r: Option<String>)
        ensures
            match (r, change_id_spec(stderr@)) {
                (Some(s), Some(v)) => s@ == v,
                (None, None) => true,
                _ => false,
            },
    {
        proof {
            reveal_strlit("Created new commit ");
        }
        let chars = text::chars_of(stderr);
        let lines = text::split_lines(&chars);
        let ghost ls = text::lines_of(stderr@);
        let mut i: usize = 0;
        proof {
            assert(ls.skip(0) =~= ls);
        }
        while i < lines.len()
            invariant
                i <= ls.len(),
                ls == lines.deep_view(),
                ls == text::lines_of(stderr@),
                lines@.len() == ls.len(),
                change_id_lines(ls) == change_id_lines(ls.skip(i as int)),
            decreases lines@.len() - i,
        {
            proof {
                reveal_strlit("Created new commit ");
                assert(ls[i as int] =~= lines@[i as int]@);
                assert(ls.skip(i as int)[0] == ls[i as int]);
            }
            let t = text::trim_chars(&lines[i]);
            if text::starts_with_str(&t, "Created new commit ") {
                let rest = text::subvec(&t, 19, t.len());
                let pieces = crate::codec::split_sp_exec(&rest);
                proof {
                    assert(rest@ =~= text::trim(ls[i as int]).skip(19));
                }
                if pieces.len() > 0 {
                    let ghost pv = pieces.deep_view();
                    let word = text::string_of(&pieces[0]);
                    proof {
                        assert(pieces@[0]@ =~~= pv[0]);
                        assert(split_sp(text::trim(ls[i as int]).skip(19)) == pv);
                        assert(change_id_of_line(ls[i as int]) == Some(pv[0]));
                        assert(change_id_lines(ls.skip(i as int)) == Some(pv[0]));
                        assert(word@ == pv[0]);
                    }
                    return Some(word);
                }
                proof {
                    assert(change_id_of_line(ls[i as int]) is None);
                    assert(ls.skip(i as int).skip(1) =~= ls.skip(i + 1));
                }
            } else {
                proof {
                    assert(change_id_of_line(ls[i as int]) is None);
                    assert(ls.skip(i as int).skip(1) =~= ls.skip(i + 1));
                }
            }
            i = i + 1;
        }
        proof {
            assert(ls.skip(i as int).len() == 0);
        }
        None
    }
}

/// What one marker-separated block yields: the change id between `<<JJT:`
/// and `>>` on the first line, and the description after it.
pub open spec fn record_of_block(p: Seq<char>) -> Option<(Seq<char>, Seq<char>)> {
    let t = text::trim(p);
    if t.len() == 0 {
        None
    } else {
        let j = text::first_ch(t, '\n');
        if j >= t.len() {
            None
        } else {
            let header = t.subrange(0, j);
            let desc = t.subrange(j + 1, t.len() as int);
            if header.len() >= 8 && header.subrange(0, 6) == "<<JJT:"@ && header.subrange(
                header.len() - 2,
                header.len() as int,
            ) == ">>"@ {
                Some((header.subrange(6, header.len() - 2), desc))
            } else {
                None
            }
        }
    }
}

/// The pieces of the log output, split at each end marker.
pub open spec fn blocks_split(s: Seq<char>) -> Seq<Seq<char>>
    decreases s.len(),
    via blocks_split_dec
{
    let pat = "<<JJT:END>>\n"@;
    let j = text::find_sub(s, pat);
    if j < s.len() {
        seq![s.subrange(0, j)] + blocks_split(s.skip(j + 12))
    } else {
        seq![s]
    }
}

#[via_fn]
proof fn blocks_split_dec(s: Seq<char>) {
    reveal_strlit("<<JJT:END>>\n");
    text::lemma_find_sub(s, "<<JJT:END>>\n"@);
}

/// The records of the blocks, in order, blocks that carry none skipped.
pub open spec fn records_of_blocks(bs: Seq<Seq<char>>) -> Seq<(Seq<char>, Seq<char>)>
    decreases bs.len(),
{
    if bs.len() == 0 {
        Seq::empty()
    } else {
        match record_of_block(bs[0]) {
            Some(r) => seq![r] + records_of_blocks(bs.skip(1)),
            None => records_of_blocks(bs.skip(1)),
        }
    }
}

/// Every record commit the log output carries: change id and description.
pub open spec fn records_spec(s: Seq<char>) -> Seq<(Seq<char>, Seq<char>)> {
    records_of_blocks(blocks_split(s))
}

/// Reads one block.
fn parse_block(b: &Vec<char>) -> (r: Option<(String, String)>)
    ensures
        match (r, record_of_block(b@)) {
            (Some(p), Some(q)) => p.0@ == q.0 && p.1@ == q.1,
            (None, None) => true,
            _ => false,
        },
{
    let t = text::trim_chars(b);
    if t.len() == 0 {
        return None;
    }
    let j = match text::find_char(&t, 0, '\n') {
        Some(j) => j,
        None => {
            proof {
                assert(t@.skip(0) =~= t@);
            }
            return None;
        },
    };
    proof {
        assert(t@.skip(0) =~= t@);
    }
    let tl = t.len();
    let header = text::subvec(&t, 0, j);
    let desc = text::subvec(&t, j + 1, tl);
    if header.len() >= 8 && text::range_eq_str(&header, 0, 6, "<<JJT:") && text::range_eq_str(
        &header,
        header.len() - 2,
        header.len(),
        ">>",
    ) {
        let hl = header.len();
        let cid = text::subvec(&header, 6, hl - 2);
        proof {
            assert(header@.subrange(0, 6) =~= t@.subrange(0, j as int).subrange(0, 6));
            assert(header@.subrange(hl - 2, hl as int) =~= t@.subrange(0, j as int).subrange(
                j - 2,
                j as int,
            ));
            assert(cid@ =~= t@.subrange(0, j as int).subrange(6, j - 2));
        }
        Some((text::string_of(&cid), text::string_of(&desc)))
    } else {
        proof {
            if record_of_block(b@) is Some {
                assert(header@ == t@.subrange(0, j as int));
            }
        }
        None
    }
}

impl Jj {
    /// Reads every record commit off the marker-templated log output, as
    /// `(change id, description)` pairs in log order.
    pub fn list_task_records(out: &str) -> (r: Vec<(String, String)>)
        ensures
            pairs_vv(r@) == records_spec(out@),
    {
        let v = text::chars_of(out);
        let mut acc: Vec<(String, String)> = Vec::new();
        let mut pos: usize = 0;
        proof {
            assert(v@.skip(0) =~= v@);
            if records_of_blocks(blocks_split(v@)) =~= Seq::<(Seq<char>, Seq<char>)>::empty()
                + records_of_blocks(blocks_split(v@)) {
            }
            assert(pairs_vv(acc@) + records_of_blocks(blocks_split(v@.skip(0))) =~= records_spec(
                v@,
            ));
        }
        loop
            invariant
                pos <= v@.len(),
                v@ == out@,
                pairs_vv(acc@) + records_of_blocks(blocks_split(v@.skip(pos as int)))
                    == records_spec(out@),
            decreases v@.len() - pos,
        {
            let ghost tail = v@.skip(pos as int);
            let jo = text::find_sub_exec(&v, pos, "<<JJT:END>>\n");
            proof {
                reveal_strlit("<<JJT:END>>\n");
            }
            match jo {
                Some(j) => {
                    let block = text::subvec(&v, pos, j);
                    proof {
                        assert(text::find_sub(tail, "<<JJT:END>>\n"@) == j - pos);
                        assert(j - pos < tail.len());
                        assert(blocks_split(tail) == seq![tail.subrange(0, j - pos)]
                            + blocks_split(tail.skip(j - pos + 12)));
                        assert(block@ =~= tail.subrange(0, j - pos));
                        assert(tail.skip(j - pos + 12) =~= v@.skip(j + 12));
                        let bs = blocks_split(tail);
                        assert(bs[0] == block@);
                        assert(bs.skip(1) =~= blocks_split(v@.skip(j + 12)));
                        assert(j + 12 <= v@.len());
                    }
                    let rec = parse_block(&block);
                    let ghost old_acc = acc@;
                    match rec {
                        Some(p) => {
                            let ghost q = record_of_block(block@)->Some_0;
                            acc.push(p);
                            proof {
                                assert(pairs_vv(acc@) =~= pairs_vv(old_acc).push(q));
                                assert(records_of_blocks(blocks_split(tail)) == seq![q]
                                    + records_of_blocks(blocks_split(v@.skip(j + 12))));
                                assert(pairs_vv(old_acc) + (seq![q] + records_of_blocks(
                                    blocks_split(v@.skip(j + 12)),
                                )) =~= pairs_vv(acc@) + records_of_blocks(
                                    blocks_split(v@.skip(j + 12)),
                                ));
                            }
                        },
                        None => {
                            proof {
                                assert(records_of_blocks(blocks_split(tail))
                                    == records_of_blocks(blocks_split(v@.skip(j + 12))));
                            }
                        },
                    }
                    let vn = v.len();
                    proof {
                        assert(j + 12 <= vn);
                    }
                    pos = j + 12;
                },
                None => {
                    proof {
                        text::lemma_find_sub(tail, "<<JJT:END>>\n"@);
                        assert(text::find_sub(tail, "<<JJT:END>>\n"@) == tail.len());
                        assert(blocks_split(tail) == seq![tail]);
                    }
                    let block = text::subvec(&v, pos, v.len());
                    proof {
                        assert(block@ =~= tail);
                    }
                    let rec = parse_block(&block);
                    let ghost old_acc = acc@;
                    match rec {
                        Some(p) => {
                            let ghost q = record_of_block(block@)->Some_0;
                            acc.push(p);
                            proof {
                                assert(seq![tail][0] == tail);
                                assert(seq![tail].skip(1) =~= Seq::<Seq<char>>::empty());
                                assert(records_of_blocks(seq![tail].skip(1))
                                    =~= Seq::<(Seq<char>, Seq<char>)>::empty());
                                assert(records_of_blocks(blocks_split(tail)) =~= seq![q]);
                                assert(pairs_vv(acc@) =~= pairs_vv(old_acc).push(q));
                                assert(pairs_vv(acc@) =~= records_spec(out@));
                            }
                        },
                        None => {
                            proof {
                                assert(seq![tail][0] == tail);
                                assert(seq![tail].skip(1) =~= Seq::<Seq<char>>::empty());
                                assert(records_of_blocks(seq![tail].skip(1))
                                    =~= Seq::<(Seq<char>, Seq<char>)>::empty());
                                assert(records_of_blocks(blocks_split(tail)).len() == 0);
                                assert(pairs_vv(acc@) =~= records_spec(out@));
                            }
                        },
                    }
                    return acc;
                },
            }
        }
    }
}

} // verus!
