//! Reading the version of an R installation from the output of
//! `R --version`. Running R is I/O and stays outside the library.

use vstd::prelude::*;

use crate::text::{chars_eq, chars_of, is_whitespace, is_ws, slice_of, views};
use crate::version::{opt_version, parse_version_spec, Version};

verus! {

/// Reading `s` left to right: the finished whitespace-separated words, and
/// the word still open.
pub open spec fn words_acc(s: Seq<char>) -> (Seq<Seq<char>>, Seq<char>)
    decreases s.len(),
{
    if s.len() == 0 {
        (seq![], seq![])
    } else {
        let (ws, cur) = words_acc(s.drop_last());
        if is_ws(s.last()) {
            if cur.len() > 0 {
                (ws.push(cur), seq![])
            } else {
                (ws, seq![])
            }
        } else {
            (ws, cur.push(s.last()))
        }
    }
}

/// The words of `s` as `str::split_whitespace` yields them.
pub open spec fn words(s: Seq<char>) -> Seq<Seq<char>> {
    let (ws, cur) = words_acc(s);
    if cur.len() > 0 {
        ws.push(cur)
    } else {
        ws
    }
}

/// `s` without its trailing `,` and `)` characters.
pub open spec fn strip_close(s: Seq<char>) -> Seq<char>
    decreases s.len(),
{
    if s.len() > 0 && (s.last() == ',' || s.last() == ')') {
        strip_close(s.drop_last())
    } else {
        s
    }
}

/// From word `i` on: at the first word `version`, the next word (without a
/// trailing `,` or `)`) read as a version; `None` when there is no such word
/// or nothing follows it.
pub open spec fn version_after(ws: Seq<Seq<char>>, i: int) -> Option<Seq<u64>>
    decreases ws.len() - i,
{
    if i < 0 || i >= ws.len() {
        None
    } else if ws[i] == "version"@ {
        if i + 1 < ws.len() {
            parse_version_spec(strip_close(ws[i + 1]))
        } else {
            None
        }
    } else {
        version_after(ws, i + 1)
    }
}

/// What `parse_r_version` gives for the text `s`.
pub open spec fn r_version_spec(s: Seq<char>) -> Option<Seq<u64>> {
    version_after(words(s), 0)
}

fn words_of(v: &Vec<char>) -> (r: Vec<Vec<char>>)
    ensures
        views(r@) == words(v@),
{
    let mut ws: Vec<Vec<char>> = Vec::new();
    let mut cur: Vec<char> = Vec::new();
    let n = v.len();
    let mut i: usize = 0;
    while i < n
        invariant
            n == v@.len(),
            i <= n,
            (views(ws@), cur@) == words_acc(v@.take(i as int)),
        decreases n - i,
    {
        let c = v[i];
        assert(v@.take(i + 1).drop_last() =~= v@.take(i as int));
        let ghost before = ws@;
        if is_whitespace(c) {
            if cur.len() > 0 {
                let ghost cv = cur@;
                ws.push(cur);
                assert(views(ws@) =~= views(before).push(cv));
            }
            cur = Vec::new();
        } else {
            cur.push(c);
        }
        i = i + 1;
    }
    assert(v@.take(n as int) =~= v@);
    if cur.len() > 0 {
        let ghost before = ws@;
        ws.push(cur);
        assert(views(ws@) =~= views(before).push(cur@));
    }
    ws
}

fn strip_close_chars(v: &Vec<char>) -> (r: Vec<char>)
    ensures
        r@ == strip_close(v@),
{
    let mut j = v.len();
    assert(v@.take(j as int) =~= v@);
    while j > 0 && (v[j - 1] == ',' || v[j - 1] == ')')
        invariant
            j <= v@.len(),
            strip_close(v@) == strip_close(v@.take(j as int)),
        decreases j,
    {
        assert(v@.take(j as int).drop_last() =~= v@.take(j - 1));
        j = j - 1;
    }
    assert(v@.subrange(0, j as int) =~= v@.take(j as int));
    slice_of(v, 0, j)
}

/// Reads the version from `R --version` output such as
/// `R version 4.5.2 (2025-10-31) -- "..."`: the word right after the word
/// `version`, not the date in parentheses.
pub fn parse_r_version(output: &str) -> (r: Option<Version>)
    ensures
        opt_version(r) == r_version_spec(output@),
{
    let text = chars_of(output);
    let ws = words_of(&text);
    let ghost wv = views(ws@);
    let key = chars_of("version");
    let n = ws.len();
    let mut i: usize = 0;
    while i < n
        invariant
            n == ws@.len(),
            wv == views(ws@),
            wv == words(output@),
            key@ == "version"@,
            i <= n,
            r_version_spec(output@) == version_after(wv, i as int),
        decreases n - i,
    {
        if chars_eq(&ws[i], &key) {
            if i + 1 < n {
                let w = strip_close_chars(&ws[i + 1]);
                let m = w.len();
                assert(w@.subrange(0, m as int) =~= w@);
                return Version::parse_chars(&w, 0, m);
            } else {
                return None;
            }
        }
        i = i + 1;
    }
    None
}

} // verus!
