//! Text as sequences of characters: conversions between `String` and
//! `Vec<char>`, line splitting, and decimal rendering and parsing.

use vstd::prelude::*;
use vstd::string::StrSliceExecFns;
use vstd::string::StringExecFns;

verus! {

/// Relies on `String::push`: appends exactly the one character.
#[verifier::external_body]
fn push_char(s: &mut String, c: char)
    ensures
        final(s)@ == old(s)@.push(c),
{
    s.push(c);
}

/// The characters of `s`, one vector element per character.
pub fn chars_of(s: &str) -> (v: Vec<char>)
    ensures
        v@ == s@,
{
    let n = s.unicode_len();
    let mut v: Vec<char> = Vec::new();
    let mut i: usize = 0;
    while i < n
        invariant
            i <= n,
            n == s@.len(),
            v@ == s@.subrange(0, i as int),
        decreases n - i,
    {
        let c = s.get_char(i);
        v.push(c);
        proof {
            assert(v@ =~= s@.subrange(0, i + 1 as int));
        }
        i = i + 1;
    }
    proof {
        assert(v@ =~= s@);
    }
    v
}

/// The string holding exactly the characters of `v`.
pub fn string_of(v: &Vec<char>) -> (s: String)
    ensures
        s@ == v@,
{
    let mut s = String::new();
    let mut i: usize = 0;
    while i < v.len()
        invariant
            i <= v.len(),
            s@ == v@.subrange(0, i as int),
        decreases v.len() - i,
    {
        push_char(&mut s, v[i]);
        proof {
            assert(s@ =~= v@.subrange(0, i + 1 as int));
        }
        i = i + 1;
    }
    proof {
        assert(s@ =~= v@);
    }
    s
}

/// Appends the characters of `s` to `out`.
pub fn push_str_chars(out: &mut Vec<char>, s: &str)
    ensures
        final(out)@ == old(out)@ + s@,
{
    let n = s.unicode_len();
    let mut i: usize = 0;
    while i < n
        invariant
            i <= n,
            n == s@.len(),
            out@ == old(out)@ + s@.subrange(0, i as int),
        decreases n - i,
    {
        let c = s.get_char(i);
        out.push(c);
        proof {
            assert(out@ =~= old(out)@ + s@.subrange(0, i + 1 as int));
        }
        i = i + 1;
    }
    proof {
        assert(out@ =~= old(out)@ + s@);
    }
}

/// Appends all characters of `v` to `out`.
pub fn push_all(out: &mut Vec<char>, v: &Vec<char>)
    ensures
        final(out)@ == old(out)@ + v@,
{
    let mut i: usize = 0;
    while i < v.len()
        invariant
            i <= v@.len(),
            out@ == old(out)@ + v@.subrange(0, i as int),
        decreases v.len() - i,
    {
        out.push(v[i]);
        proof {
            assert(out@ =~= old(out)@ + v@.subrange(0, i + 1 as int));
        }
        i = i + 1;
    }
    proof {
        assert(out@ =~= old(out)@ + v@);
    }
}

/// A copy of `v[from .. to]`.
pub fn subvec(v: &Vec<char>, from: usize, to: usize) -> (r: Vec<char>)
    requires
        from <= to <= v@.len(),
    ensures
        r@ == v@.subrange(from as int, to as int),
{
    let mut r: Vec<char> = Vec::new();
    let mut i: usize = from;
    while i < to
        invariant
            from <= i <= to <= v@.len(),
            r@ == v@.subrange(from as int, i as int),
        decreases to - i,
    {
        r.push(v[i]);
        proof {
            assert(r@ =~= v@.subrange(from as int, i + 1 as int));
        }
        i = i + 1;
    }
    r
}

/// `p` is a leading piece of `s`.
pub open spec fn has_prefix(s: Seq<char>, p: Seq<char>) -> bool {
    s.len() >= p.len() && s.subrange(0, p.len() as int) == p
}

/// Whether `v` starts with the characters of `p`.
pub fn starts_with_str(v: &Vec<char>, p: &str) -> (b: bool)
    ensures
        b == has_prefix(v@, p@),
{
    let n = p.unicode_len();
    if v.len() < n {
        proof {
            assert(!has_prefix(v@, p@));
        }
        return false;
    }
    let mut i: usize = 0;
    while i < n
        invariant
            i <= n,
            n == p@.len(),
            n <= v@.len(),
            forall|k: int| 0 <= k < i ==> v@[k] == p@[k],
        decreases n - i,
    {
        let c = p.get_char(i);
        if v[i] != c {
            proof {
                assert(v@.subrange(0, p@.len() as int)[i as int] != p@[i as int]);
            }
            return false;
        }
        i = i + 1;
    }
    proof {
        assert(v@.subrange(0, p@.len() as int) =~= p@);
    }
    true
}

/// Whether `v[from .. to]` is exactly the characters of `s`.
pub fn range_eq_str(v: &Vec<char>, from: usize, to: usize, s: &str) -> (b: bool)
    requires
        from <= to <= v@.len(),
    ensures
        b == (v@.subrange(from as int, to as int) == s@),
{
    let n = s.unicode_len();
    if to - from != n {
        proof {
            assert(v@.subrange(from as int, to as int).len() != s@.len());
        }
        return false;
    }
    let mut i: usize = 0;
    while i < n
        invariant
            i <= n,
            n == s@.len(),
            from + n == to,
            from <= to <= v@.len(),
            forall|k: int| 0 <= k < i ==> v@[from + k] == s@[k],
        decreases n - i,
    {
        let c = s.get_char(i);
        if v[from + i] != c {
            proof {
                assert(v@.subrange(from as int, to as int)[i as int] != s@[i as int]);
            }
            return false;
        }
        i = i + 1;
    }
    proof {
        assert(v@.subrange(from as int, to as int) =~= s@);
    }
    true
}

/// Whether `s` starts with the characters of `p`.
pub fn str_starts_with(s: &str, p: &str) -> (b: bool)
    ensures
        b == has_prefix(s@, p@),
{
    let sv = chars_of(s);
    starts_with_str(&sv, p)
}

/// Index of the first newline in `s`, or `s.len()` where there is none.
pub open spec fn first_nl(s: Seq<char>) -> int
    decreases s.len(),
{
    if s.len() == 0 {
        0
    } else if s[0] == '\n' {
        0
    } else {
        1 + first_nl(s.skip(1))
    }
}

pub proof fn lemma_first_nl(s: Seq<char>)
    ensures
        0 <= first_nl(s) <= s.len(),
        first_nl(s) < s.len() ==> s[first_nl(s)] == '\n',
        forall|k: int| 0 <= k < first_nl(s) ==> s[k] != '\n',
    decreases s.len(),
{
    if s.len() > 0 && s[0] != '\n' {
        lemma_first_nl(s.skip(1));
        assert forall|k: int| 0 <= k < first_nl(s) implies s[k] != '\n' by {
            if k > 0 {
                assert(s.skip(1)[k - 1] != '\n');
            }
        }
    }
}

/// Where exactly the first newline stands, `first_nl` finds it.
pub proof fn lemma_first_nl_at(s: Seq<char>, i: int)
    requires
        0 <= i <= s.len(),
        i < s.len() ==> s[i] == '\n',
        forall|k: int| 0 <= k < i ==> s[k] != '\n',
        i == s.len() ==> forall|k: int| 0 <= k < s.len() ==> s[k] != '\n',
    ensures
        first_nl(s) == i,
{
    lemma_first_nl(s);
    if first_nl(s) < i {
        assert(s[first_nl(s)] == '\n');
    } else if i < first_nl(s) {
        assert(i < s.len());
    }
}

/// The lines of `s`: pieces split at `'\n'`, a trailing newline closing the
/// last line rather than opening an empty one.
pub open spec fn lines_of(s: Seq<char>) -> Seq<Seq<char>>
    decreases s.len(),
    via lines_of_dec
{
    if s.len() == 0 {
        Seq::empty()
    } else {
        let i = first_nl(s);
        if i < s.len() {
            seq![s.subrange(0, i)] + lines_of(s.subrange(i + 1, s.len() as int))
        } else {
            seq![s]
        }
    }
}

#[via_fn]
proof fn lines_of_dec(s: Seq<char>) {
    lemma_first_nl(s);
}

/// Splitting starts at the first line: a newline-free piece in front becomes
/// the first line.
pub proof fn lemma_lines_of_prepend(a: Seq<char>, rest: Seq<char>)
    requires
        forall|k: int| 0 <= k < a.len() ==> a[k] != '\n',
    ensures
        lines_of(a + seq!['\n'] + rest) == seq![a] + lines_of(rest),
{
    let s = a + seq!['\n'] + rest;
    assert(s.len() == a.len() + 1 + rest.len());
    assert(s[a.len() as int] == '\n');
    lemma_first_nl_at(s, a.len() as int);
    assert(s.subrange(0, a.len() as int) =~= a);
    assert(s.subrange(a.len() as int + 1, s.len() as int) =~= rest);
    assert(lines_of(s) == seq![a] + lines_of(rest));
}

/// A newline-free, non-empty remainder is one line of its own.
pub proof fn lemma_lines_of_single(a: Seq<char>)
    requires
        a.len() > 0,
        forall|k: int| 0 <= k < a.len() ==> a[k] != '\n',
    ensures
        lines_of(a) == seq![a],
{
    lemma_first_nl_at(a, a.len() as int);
}

/// Text closed by a newline splits off its own lines, whatever follows.
pub proof fn lemma_lines_of_concat(a: Seq<char>, b: Seq<char>)
    requires
        a.len() == 0 || a.last() == '\n',
    ensures
        lines_of(a + b) == lines_of(a) + lines_of(b),
    decreases a.len(),
{
    if a.len() == 0 {
        assert(a + b =~= b);
        assert(lines_of(a) + lines_of(b) =~= lines_of(b));
    } else {
        lemma_first_nl(a);
        let i = first_nl(a);
        assert(a[a.len() - 1] == '\n');
        assert(i < a.len());
        let p = a.subrange(0, i);
        let rest = a.subrange(i + 1, a.len() as int);
        assert(lines_of(a) == seq![p] + lines_of(rest));
        assert(a + b =~= p + seq!['\n'] + (rest + b));
        lemma_lines_of_prepend(p, rest + b);
        if rest.len() == 0 {
            assert(rest + b =~= b);
            assert(lines_of(a + b) == seq![p] + lines_of(b));
            assert(lines_of(rest).len() == 0);
            assert(lines_of(a) =~= seq![p]);
            assert(seq![p] + lines_of(b) =~= lines_of(a) + lines_of(b));
        } else {
            assert(rest.last() == a.last());
            lemma_lines_of_concat(rest, b);
            assert(lines_of(a + b) == seq![p] + (lines_of(rest) + lines_of(b)));
            assert(seq![p] + (lines_of(rest) + lines_of(b)) =~= (seq![p] + lines_of(rest))
                + lines_of(b));
        }
    }
}

/// A single newline-closed line is its own line list.
pub proof fn lemma_lines_of_line(l: Seq<char>)
    requires
        forall|k: int| 0 <= k < l.len() ==> l[k] != '\n',
    ensures
        lines_of(l + seq!['\n']) == seq![l],
{
    assert(l + seq!['\n'] =~= l + seq!['\n'] + Seq::<char>::empty());
    lemma_lines_of_prepend(l, Seq::empty());
    assert(lines_of(l + seq!['\n']) == seq![l] + lines_of(Seq::<char>::empty()));
    assert(seq![l] + lines_of(Seq::<char>::empty()) =~= seq![l]);
}

/// Splits `v` into its lines.
pub fn split_lines(v: &Vec<char>) -> (r: Vec<Vec<char>>)
    ensures
        r.deep_view() == lines_of(v@),
{
    let mut r: Vec<Vec<char>> = Vec::new();
    let mut start: usize = 0;
    let mut i: usize = 0;
    proof {
        assert(v@.skip(0) =~= v@);
        assert(lines_of(v@) =~= r.deep_view() + lines_of(v@.skip(0)));
    }
    while i < v.len()
        invariant
            start <= i <= v@.len(),
            forall|k: int| start <= k < i ==> v@[k] != '\n',
            lines_of(v@) == r.deep_view() + lines_of(v@.skip(start as int)),
        decreases v.len() - i,
    {
        if v[i] == '\n' {
            let line = subvec(v, start, i);
            let ghost old_r = r.deep_view();
            proof {
                let tail = v@.skip(start as int);
                let after = v@.skip(i + 1 as int);
                assert(tail =~= line@ + seq!['\n'] + after);
                lemma_lines_of_prepend(line@, after);
            }
            r.push(line);
            proof {
                let after = v@.skip(i + 1 as int);
                assert(r.deep_view() =~~= old_r.push(line@));
                assert(lines_of(v@) =~= r.deep_view() + lines_of(after));
            }
            start = i + 1;
        }
        i = i + 1;
    }
    if start < v.len() {
        let line = subvec(v, start, v.len());
        let ghost old_r = r.deep_view();
        proof {
            let tail = v@.skip(start as int);
            assert(tail =~= line@);
            lemma_lines_of_single(line@);
        }
        r.push(line);
        proof {
            assert(r.deep_view() =~~= old_r.push(line@));
            assert(lines_of(v@) =~= r.deep_view());
        }
    } else {
        proof {
            assert(v@.skip(start as int).len() == 0);
            assert(lines_of(v@) =~= r.deep_view());
        }
    }
    r
}

/// Index of the first occurrence of `c` in `s`, or `s.len()` where there is
/// none.
pub open spec fn first_ch(s: Seq<char>, c: char) -> int
    decreases s.len(),
{
    if s.len() == 0 {
        0
    } else if s[0] == c {
        0
    } else {
        1 + first_ch(s.skip(1), c)
    }
}

pub proof fn lemma_first_ch(s: Seq<char>, c: char)
    ensures
        0 <= first_ch(s, c) <= s.len(),
        first_ch(s, c) < s.len() ==> s[first_ch(s, c)] == c,
        forall|k: int| 0 <= k < first_ch(s, c) ==> s[k] != c,
    decreases s.len(),
{
    if s.len() > 0 && s[0] != c {
        lemma_first_ch(s.skip(1), c);
        assert forall|k: int| 0 <= k < first_ch(s, c) implies s[k] != c by {
            if k > 0 {
                assert(s.skip(1)[k - 1] != c);
            }
        }
    }
}

/// Where exactly the first occurrence stands, `first_ch` finds it.
pub proof fn lemma_first_ch_at(s: Seq<char>, c: char, i: int)
    requires
        0 <= i <= s.len(),
        i < s.len() ==> s[i] == c,
        forall|k: int| 0 <= k < i ==> s[k] != c,
        i == s.len() ==> forall|k: int| 0 <= k < s.len() ==> s[k] != c,
    ensures
        first_ch(s, c) == i,
{
    lemma_first_ch(s, c);
    if first_ch(s, c) < i {
        assert(s[first_ch(s, c)] == c);
    } else if i < first_ch(s, c) {
        assert(i < s.len());
    }
}

/// Finds the first occurrence of `c` in `v[from ..]`, if any.
pub fn find_char(v: &Vec<char>, from: usize, c: char) -> (r: Option<usize>)
    requires
        from <= v@.len(),
    ensures
        ({
            let j = first_ch(v@.skip(from as int), c);
            match r {
                Some(i) => from + j == i && i < v@.len(),
                None => j == v@.skip(from as int).len(),
            }
        }),
{
    let ghost tail = v@.skip(from as int);
    let mut i: usize = from;
    while i < v.len()
        invariant
            from <= i <= v@.len(),
            tail == v@.skip(from as int),
            forall|k: int| 0 <= k < i - from ==> tail[k] != c,
        decreases v.len() - i,
    {
        if v[i] == c {
            proof {
                lemma_first_ch_at(tail, c, i - from);
            }
            return Some(i);
        }
        i = i + 1;
    }
    proof {
        lemma_first_ch_at(tail, c, tail.len() as int);
    }
    None
}

/// Blank characters a trim removes.
pub open spec fn is_blank(c: char) -> bool {
    c == ' ' || c == '\t' || c == '\r' || c == '\n'
}

/// `s` without its leading blanks.
pub open spec fn trim_start(s: Seq<char>) -> Seq<char>
    decreases s.len(),
{
    if s.len() > 0 && is_blank(s[0]) {
        trim_start(s.skip(1))
    } else {
        s
    }
}

/// `s` without its trailing blanks.
pub open spec fn trim_end(s: Seq<char>) -> Seq<char>
    decreases s.len(),
{
    if s.len() > 0 && is_blank(s.last()) {
        trim_end(s.drop_last())
    } else {
        s
    }
}

/// `s` without blanks on either side.
pub open spec fn trim(s: Seq<char>) -> Seq<char> {
    trim_end(trim_start(s))
}

/// Where the blanks end, the trim starts.
pub proof fn lemma_trim_start_at(s: Seq<char>, a: int)
    requires
        0 <= a <= s.len(),
        forall|k: int| 0 <= k < a ==> is_blank(#[trigger] s[k]),
        a < s.len() ==> !is_blank(s[a]),
    ensures
        trim_start(s) == s.skip(a),
    decreases a,
{
    if a == 0 {
        assert(s.skip(0) =~= s);
    } else {
        assert(is_blank(s[0]));
        assert forall|k: int| 0 <= k < a - 1 implies is_blank(#[trigger] s.skip(1)[k]) by {
            assert(s.skip(1)[k] == s[k + 1]);
        }
        assert(a - 1 < s.skip(1).len() ==> !is_blank(s.skip(1)[a - 1]));
        lemma_trim_start_at(s.skip(1), a - 1);
        assert(s.skip(1).skip(a - 1) =~= s.skip(a));
    }
}

/// Where the blanks begin at the back, the trim ends.
pub proof fn lemma_trim_end_at(s: Seq<char>, b: int)
    requires
        0 <= b <= s.len(),
        forall|k: int| b <= k < s.len() ==> is_blank(#[trigger] s[k]),
        b > 0 ==> !is_blank(s[b - 1]),
    ensures
        trim_end(s) == s.subrange(0, b),
    decreases s.len() - b,
{
    if b == s.len() {
        if s.len() > 0 && is_blank(s.last()) {
            assert(false);
        }
        assert(s.subrange(0, b) =~= s);
    } else {
        assert(is_blank(s.last()));
        assert forall|k: int| b <= k < s.drop_last().len() implies is_blank(
            #[trigger] s.drop_last()[k],
        ) by {
            assert(s.drop_last()[k] == s[k]);
        }
        assert(b > 0 ==> s.drop_last()[b - 1] == s[b - 1]);
        lemma_trim_end_at(s.drop_last(), b);
        assert(s.drop_last().subrange(0, b) =~= s.subrange(0, b));
    }
}

/// A copy of `v` without blanks on either side.
pub fn trim_chars(v: &Vec<char>) -> (r: Vec<char>)
    ensures
        r@ == trim(v@),
{
    let mut a: usize = 0;
    while a < v.len() && (v[a] == ' ' || v[a] == '\t' || v[a] == '\r' || v[a] == '\n')
        invariant
            a <= v@.len(),
            forall|k: int| 0 <= k < a ==> is_blank(#[trigger] v@[k]),
        decreases v.len() - a,
    {
        a = a + 1;
    }
    proof {
        lemma_trim_start_at(v@, a as int);
    }
    let mut b: usize = v.len();
    while b > a && (v[b - 1] == ' ' || v[b - 1] == '\t' || v[b - 1] == '\r' || v[b - 1] == '\n')
        invariant
            a <= b <= v@.len(),
            forall|k: int| b <= k < v@.len() ==> is_blank(#[trigger] v@[k]),
        decreases b,
    {
        b = b - 1;
    }
    let r = subvec(v, a, b);
    proof {
        let t = v@.skip(a as int);
        assert forall|k: int| b - a <= k < t.len() implies is_blank(#[trigger] t[k]) by {
            assert(t[k] == v@[a + k]);
        }
        if b > a {
            assert(t[b - a - 1] == v@[b - 1]);
            assert(!is_blank(t[b - a - 1]));
        }
        lemma_trim_end_at(t, b - a);
        assert(t.subrange(0, b - a) =~= v@.subrange(a as int, b as int));
    }
    r
}

/// Index of the first occurrence of `pat` in `s`, or `s.len()` where there
/// is none.
pub open spec fn find_sub(s: Seq<char>, pat: Seq<char>) -> int
    decreases s.len(),
{
    if s.len() == 0 {
        0
    } else if has_prefix(s, pat) {
        0
    } else {
        1 + find_sub(s.skip(1), pat)
    }
}

pub proof fn lemma_find_sub(s: Seq<char>, pat: Seq<char>)
    ensures
        0 <= find_sub(s, pat) <= s.len(),
        find_sub(s, pat) < s.len() ==> has_prefix(s.skip(find_sub(s, pat)), pat) && find_sub(
            s,
            pat,
        ) + pat.len() <= s.len(),
        forall|k: int| 0 <= k < find_sub(s, pat) ==> !has_prefix(#[trigger] s.skip(k), pat),
    decreases s.len(),
{
    if s.len() > 0 && has_prefix(s, pat) {
        assert(s.skip(0) =~= s);
    }
    if s.len() > 0 && !has_prefix(s, pat) {
        lemma_find_sub(s.skip(1), pat);
        if find_sub(s, pat) < s.len() {
            assert(s.skip(1).skip(find_sub(s.skip(1), pat)) =~= s.skip(find_sub(s, pat)));
        }
        assert forall|k: int| 0 <= k < find_sub(s, pat) implies !has_prefix(
            #[trigger] s.skip(k),
            pat,
        ) by {
            if k > 0 {
                assert(0 <= k - 1 < find_sub(s.skip(1), pat));
                assert(!has_prefix(s.skip(1).skip(k - 1), pat));
                assert(s.skip(1).skip(k - 1) =~= s.skip(k));
            } else {
                assert(s.skip(0) =~= s);
            }
        }
    }
}

/// Where exactly `pat` first occurs, `find_sub` finds it.
pub proof fn lemma_find_sub_at(s: Seq<char>, pat: Seq<char>, i: int)
    requires
        0 <= i <= s.len(),
        i < s.len() ==> has_prefix(s.skip(i), pat),
        forall|k: int| 0 <= k < i ==> !has_prefix(#[trigger] s.skip(k), pat),
        i == s.len() ==> forall|k: int| 0 <= k < s.len() ==> !has_prefix(#[trigger] s.skip(k), pat),
    ensures
        find_sub(s, pat) == i,
    decreases i,
{
    if i == 0 {
        if s.len() > 0 {
            assert(s.skip(0) =~= s);
            if !has_prefix(s, pat) {
                assert(false);
            }
        }
    } else {
        assert(s.skip(0) =~= s);
        assert(!has_prefix(s, pat));
        assert(s.len() > 0);
        assert forall|k: int| 0 <= k < i - 1 implies !has_prefix(
            #[trigger] s.skip(1).skip(k),
            pat,
        ) by {
            assert(s.skip(1).skip(k) =~= s.skip(k + 1));
        }
        if i - 1 < s.skip(1).len() {
            assert(s.skip(1).skip(i - 1) =~= s.skip(i));
        } else {
            assert forall|k: int| 0 <= k < s.skip(1).len() implies !has_prefix(
                #[trigger] s.skip(1).skip(k),
                pat,
            ) by {
                assert(s.skip(1).skip(k) =~= s.skip(k + 1));
            }
        }
        lemma_find_sub_at(s.skip(1), pat, i - 1);
    }
}

/// Finds the first occurrence of `pat` in `v` at or after `from`, if any.
pub fn find_sub_exec(v: &Vec<char>, from: usize, pat: &str) -> (r: Option<usize>)
    requires
        from <= v@.len(),
    ensures
        ({
            let j = find_sub(v@.skip(from as int), pat@);
            match r {
                Some(i) => from <= i && from + j == i && i + pat@.len() <= v@.len()
                    && has_prefix(v@.skip(i as int), pat@),
                None => j == v@.skip(from as int).len(),
            }
        }),
{
    let ghost tail = v@.skip(from as int);
    let n = v.len();
    let pn = pat.unicode_len();
    let mut i: usize = from;
    while i < n
        invariant
            from <= i <= v@.len(),
            n == v@.len(),
            pn == pat@.len(),
            tail == v@.skip(from as int),
            forall|k: int| 0 <= k < i - from ==> !has_prefix(#[trigger] tail.skip(k), pat@),
        decreases n - i,
    {
        if pn <= n - i {
            if range_eq_str(v, i, i + pn, pat) {
                proof {
                    assert(tail.skip(i - from) =~= v@.skip(i as int));
                    assert(v@.skip(i as int).subrange(0, pat@.len() as int) =~= v@.subrange(
                        i as int,
                        i + pat@.len(),
                    ));
                    assert(has_prefix(v@.skip(i as int), pat@));
                    lemma_find_sub_at(tail, pat@, i - from);
                }
                return Some(i);
            }
            proof {
                assert(tail.skip(i - from) =~= v@.skip(i as int));
                if has_prefix(v@.skip(i as int), pat@) {
                    assert(v@.skip(i as int).subrange(0, pat@.len() as int) =~= v@.subrange(
                        i as int,
                        i + pat@.len(),
                    ));
                }
            }
        } else {
            proof {
                assert(tail.skip(i - from) =~= v@.skip(i as int));
                assert(v@.skip(i as int).len() < pat@.len());
                assert(!has_prefix(v@.skip(i as int), pat@));
            }
        }
        i = i + 1;
    }
    proof {
        lemma_find_sub_at(tail, pat@, tail.len() as int);
    }
    None
}

/// Lexicographic order on character sequences, by code point, shorter
/// prefixes first.
pub open spec fn lex_le(a: Seq<char>, b: Seq<char>) -> bool
    decreases a.len(),
{
    if a.len() == 0 {
        true
    } else if b.len() == 0 {
        false
    } else if a[0] != b[0] {
        a[0] < b[0]
    } else {
        lex_le(a.skip(1), b.skip(1))
    }
}

/// Any two texts are ordered one way or the other.
pub proof fn lemma_lex_total(a: Seq<char>, b: Seq<char>)
    ensures
        lex_le(a, b) || lex_le(b, a),
    decreases a.len(),
{
    if a.len() > 0 && b.len() > 0 && a[0] == b[0] {
        lemma_lex_total(a.skip(1), b.skip(1));
    }
}

/// The order chains.
pub proof fn lemma_lex_trans(a: Seq<char>, b: Seq<char>, c: Seq<char>)
    requires
        lex_le(a, b),
        lex_le(b, c),
    ensures
        lex_le(a, c),
    decreases a.len(),
{
    if a.len() > 0 && b.len() > 0 && c.len() > 0 && a[0] == b[0] && b[0] == c[0] {
        lemma_lex_trans(a.skip(1), b.skip(1), c.skip(1));
    }
}

/// Whether `a` comes no later than `b` in lexicographic order.
pub fn lex_le_exec(a: &str, b: &str) -> (r: bool)
    ensures
        r == lex_le(a@, b@),
{
    let av = chars_of(a);
    let bv = chars_of(b);
    let mut i: usize = 0;
    proof {
        assert(a@.skip(0) =~= a@);
        assert(b@.skip(0) =~= b@);
    }
    while i < av.len() && i < bv.len()
        invariant
            i <= av@.len(),
            i <= bv@.len(),
            av@ == a@,
            bv@ == b@,
            forall|k: int| 0 <= k < i ==> a@[k] == b@[k],
            lex_le(a@, b@) == lex_le(a@.skip(i as int), b@.skip(i as int)),
        decreases av@.len() - i,
    {
        let ca = av[i];
        let cb = bv[i];
        proof {
            assert(a@.skip(i as int)[0] == a@[i as int]);
            assert(b@.skip(i as int)[0] == b@[i as int]);
        }
        if ca != cb {
            proof {
                assert(lex_le(a@.skip(i as int), b@.skip(i as int)) == (a@[i as int] < b@[i as int]));
            }
            return ca < cb;
        }
        proof {
            assert(a@.skip(i as int).skip(1) =~= a@.skip(i + 1));
            assert(b@.skip(i as int).skip(1) =~= b@.skip(i + 1));
        }
        i = i + 1;
    }
    proof {
        if i >= av@.len() {
            assert(a@.skip(i as int).len() == 0);
        } else {
            assert(b@.skip(i as int).len() == 0);
            assert(a@.skip(i as int).len() > 0);
        }
    }
    i >= av.len()
}

/// `c` is a decimal digit.
pub open spec fn is_digit(c: char) -> bool {
    '0' <= c && c <= '9'
}

/// The value of the digit `c`.
pub open spec fn digit_val(c: char) -> int {
    c as int - '0' as int
}

/// The digit character for `d`.
pub open spec fn digit_char(d: int) -> char {
    if d == 0 {
        '0'
    } else if d == 1 {
        '1'
    } else if d == 2 {
        '2'
    } else if d == 3 {
        '3'
    } else if d == 4 {
        '4'
    } else if d == 5 {
        '5'
    } else if d == 6 {
        '6'
    } else if d == 7 {
        '7'
    } else if d == 8 {
        '8'
    } else {
        '9'
    }
}

/// The decimal rendering of `n >= 0`, most significant digit first.
pub open spec fn dec_of(n: int) -> Seq<char>
    decreases n,
{
    if n <= 9 {
        seq![digit_char(n)]
    } else {
        dec_of(n / 10).push(digit_char(n % 10))
    }
}

fn digit_to_char(d: u8) -> (c: char)
    requires
        d < 10,
    ensures
        c == digit_char(d as int),
{
    if d == 0 {
        '0'
    } else if d == 1 {
        '1'
    } else if d == 2 {
        '2'
    } else if d == 3 {
        '3'
    } else if d == 4 {
        '4'
    } else if d == 5 {
        '5'
    } else if d == 6 {
        '6'
    } else if d == 7 {
        '7'
    } else if d == 8 {
        '8'
    } else {
        '9'
    }
}

/// Appends the decimal rendering of `n`.
pub fn push_u64_dec(out: &mut Vec<char>, n: u64)
    ensures
        final(out)@ == old(out)@ + dec_of(n as int),
    decreases n,
{
    if n <= 9 {
        let c = digit_to_char(n as u8);
        out.push(c);
        proof {
            assert(out@ =~= old(out)@ + dec_of(n as int));
        }
    } else {
        push_u64_dec(out, n / 10);
        let c = digit_to_char((n % 10) as u8);
        out.push(c);
        proof {
            assert(out@ =~= old(out)@ + dec_of(n as int));
        }
    }
}

/// Every character of `s` is a digit.
pub open spec fn all_digits(s: Seq<char>) -> bool {
    forall|i: int| 0 <= i < s.len() ==> is_digit(s[i])
}

/// The value of the digit string `s`.
pub open spec fn dec_val(s: Seq<char>) -> int
    decreases s.len(),
{
    if s.len() == 0 {
        0
    } else {
        dec_val(s.drop_last()) * 10 + digit_val(s.last())
    }
}

/// What a digit string is worth, or nothing where `s` is not one.
pub open spec fn parse_u8_spec(s: Seq<char>) -> Option<u8> {
    if s.len() > 0 && all_digits(s) && dec_val(s) <= 255 {
        Some(dec_val(s) as u8)
    } else {
        None
    }
}

/// Digit strings are non-negative.
pub proof fn lemma_dec_val_nonneg(s: Seq<char>)
    requires
        all_digits(s),
    ensures
        dec_val(s) >= 0,
    decreases s.len(),
{
    if s.len() > 0 {
        assert(all_digits(s.drop_last()));
        lemma_dec_val_nonneg(s.drop_last());
    }
}

/// A longer digit string is worth at least its leading piece.
pub proof fn lemma_dec_val_prefix(s: Seq<char>, i: int)
    requires
        all_digits(s),
        0 <= i <= s.len(),
    ensures
        dec_val(s.subrange(0, i)) <= dec_val(s),
    decreases s.len() - i,
{
    if i < s.len() {
        lemma_dec_val_prefix(s, i + 1);
        let p = s.subrange(0, i + 1);
        assert(p.drop_last() =~= s.subrange(0, i));
        lemma_dec_val_nonneg(s.subrange(0, i));
        assert(dec_val(s.subrange(0, i)) <= dec_val(p));
    } else {
        assert(s.subrange(0, i) =~= s);
    }
}

/// Rendering then reading a decimal gives the value back.
pub proof fn lemma_dec_round_trip(n: int)
    requires
        0 <= n,
    ensures
        dec_of(n).len() > 0,
        all_digits(dec_of(n)),
        dec_val(dec_of(n)) == n,
    decreases n,
{
    if n <= 9 {
        assert(dec_of(n) =~= seq![digit_char(n)]);
        assert(dec_val(dec_of(n)) == dec_val(seq![digit_char(n)].drop_last()) * 10 + digit_val(
            digit_char(n),
        ));
        assert(seq![digit_char(n)].drop_last() =~= Seq::<char>::empty());
    } else {
        lemma_dec_round_trip(n / 10);
        let s = dec_of(n);
        assert(s == dec_of(n / 10).push(digit_char(n % 10)));
        assert(s.drop_last() =~= dec_of(n / 10));
        assert(s.last() == digit_char(n % 10));
        assert(dec_val(s) == (n / 10) * 10 + n % 10);
        assert forall|i: int| 0 <= i < s.len() implies is_digit(s[i]) by {
            if i < s.len() - 1 {
                assert(s[i] == dec_of(n / 10)[i]);
            }
        }
    }
}

/// Reads `v[from .. to]` as a decimal `u8`.
pub fn parse_u8_range(v: &Vec<char>, from: usize, to: usize) -> (r: Option<u8>)
    requires
        from <= to <= v@.len(),
    ensures
        r == parse_u8_spec(v@.subrange(from as int, to as int)),
{
    let ghost s = v@.subrange(from as int, to as int);
    if from == to {
        return None;
    }
    let mut acc: u32 = 0;
    let mut i: usize = from;
    while i < to
        invariant
            from <= i <= to <= v@.len(),
            s == v@.subrange(from as int, to as int),
            all_digits(s.subrange(0, i - from)),
            acc <= 255,
            acc as int == dec_val(s.subrange(0, i - from)),
        decreases to - i,
    {
        let c = v[i];
        if !(c >= '0' && c <= '9') {
            proof {
                assert(s[i - from] == c);
                assert(!all_digits(s));
            }
            return None;
        }
        let d: u32 = (c as u32) - ('0' as u32);
        proof {
            assert(s.subrange(0, i + 1 - from).drop_last() =~= s.subrange(0, i - from));
            assert(s.subrange(0, i + 1 - from).last() == c);
        }
        acc = acc * 10 + d;
        i = i + 1;
        if acc > 255 {
            proof {
                if all_digits(s) {
                    lemma_dec_val_prefix(s, i - from);
                    assert(dec_val(s) > 255);
                }
            }
            return None;
        }
    }
    proof {
        assert(s.subrange(0, to - from) =~= s);
    }
    Some(acc as u8)
}

} // verus!
