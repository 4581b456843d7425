//! The lockfile: a resolution written as deterministic text, and read back.
//!
//! The format is one `name version` line per package, sorted by name, after
//! a header comment line.

use vstd::prelude::*;

use crate::resolution::{sorted_insert, sorted_names, Resolution, ResolutionView};
use crate::text::{
    chars_of, find_char, find_char_in, is_ws, lines, lines_acc, lines_of, string_of, trim,
    trim_bounds, views,
};
use crate::version::{dotted, parse_version_spec, Version};

verus! {

/// The header line.
pub open spec fn header() -> Seq<char> {
    "# uvr lockfile v1"@
}

/// The line of one package: its name, a space, its version.
pub open spec fn entry_line(e: (Seq<char>, Seq<u64>)) -> Seq<char> {
    e.0.push(' ') + dotted(e.1)
}

/// The package lines of a resolution, each ended by a newline.
pub open spec fn render_body(m: ResolutionView) -> Seq<char>
    decreases m.len(),
{
    if m.len() == 0 {
        seq![]
    } else {
        render_body(m.drop_last()) + entry_line(m.last()).push('\n')
    }
}

/// The lockfile text of a resolution: the header line, then one line per
/// package in the resolution's order (by name).
pub open spec fn render_spec(m: ResolutionView) -> Seq<char> {
    header().push('\n') + render_body(m)
}

fn append_chars(out: &mut Vec<char>, v: &Vec<char>)
    ensures
        final(out)@ == old(out)@ + v@,
{
    let n = v.len();
    let mut i: usize = 0;
    while i < n
        invariant
            n == v@.len(),
            i <= n,
            out@ == old(out)@ + v@.take(i as int),
        decreases n - i,
    {
        out.push(v[i]);
        i = i + 1;
        assert(out@ =~= old(out)@ + v@.take(i as int));
    }
    assert(v@.take(n as int) =~= v@);
}

/// Writes a resolution as lockfile text.
pub fn render(resolution: &Resolution) -> (r: String)
    ensures
        r@ == render_spec(resolution@),
{
    let mut out = chars_of("# uvr lockfile v1");
    out.push('\n');
    let ghost start = out@;
    let entries = resolution.entries();
    let n = entries.len();
    let mut i: usize = 0;
    while i < n
        invariant
            n == entries@.len(),
            crate::resolution::entry_views(entries@) == resolution@,
            i <= n,
            start == header().push('\n'),
            out@ == start + render_body(resolution@.take(i as int)),
        decreases n - i,
    {
        let name = chars_of(entries[i].0.as_str());
        append_chars(&mut out, &name);
        out.push(' ');
        let ver = entries[i].1.dotted_chars();
        append_chars(&mut out, &ver);
        out.push('\n');
        i = i + 1;
        assert(resolution@.take(i as int).drop_last() =~= resolution@.take(i - 1));
        assert(resolution@.take(i as int).last() == resolution@[i - 1]);
        assert(out@ =~= start + render_body(resolution@.take(i as int)));
    }
    assert(resolution@.take(n as int) =~= resolution@);
    string_of(out.as_slice())
}

/// Reading one lockfile line: blank lines and `#` comments are skipped; any
/// other line must be `name version`, split at its first space, with a
/// version that parses; a later line for a name replaces an earlier one.
pub open spec fn lock_step(acc: Option<ResolutionView>, line: Seq<char>) -> Option<ResolutionView> {
    match acc {
        None => None,
        Some(m) => {
            let t = trim(line);
            if t.len() == 0 || t[0] == '#' {
                Some(m)
            } else {
                let i = find_char(t, ' ');
                if i < 0 {
                    None
                } else {
                    match parse_version_spec(t.skip(i + 1)) {
                        None => None,
                        Some(v) => Some(sorted_insert(m, t.take(i), v)),
                    }
                }
            }
        },
    }
}

/// The result after reading the lines `ls` in order.
pub open spec fn lock_fold(ls: Seq<Seq<char>>) -> Option<ResolutionView>
    decreases ls.len(),
{
    if ls.len() == 0 {
        Some(seq![])
    } else {
        lock_step(lock_fold(ls.drop_last()), ls.last())
    }
}

/// What `parse` gives for the lockfile text `s`.
pub open spec fn lock_parse_spec(s: Seq<char>) -> Option<ResolutionView> {
    lock_fold(lines(s))
}

proof fn lemma_lock_fold_none(ls: Seq<Seq<char>>, j: int)
    requires
        0 <= j <= ls.len(),
        lock_fold(ls.take(j)) is None,
    ensures
        lock_fold(ls) is None,
    decreases ls.len() - j,
{
    if j < ls.len() {
        assert(ls.take(j + 1).drop_last() =~= ls.take(j));
        lemma_lock_fold_none(ls, j + 1);
    } else {
        assert(ls.take(j) =~= ls);
    }
}

pub open spec fn opt_resolution(r: Option<Resolution>) -> Option<ResolutionView> {
    match r {
        Some(m) => Some(m@),
        None => None,
    }
}

/// Reads lockfile text back into a resolution; `None` when a line is
/// malformed.
pub fn parse(text: &str) -> (r: Option<Resolution>)
    ensures
        opt_resolution(r) == lock_parse_spec(text@),
{
    let chars = chars_of(text);
    let ls = lines_of(&chars);
    let ghost lv = views(ls@);
    let mut map = Resolution::new();
    let n = ls.len();
    let mut i: usize = 0;
    while i < n
        invariant
            n == ls@.len(),
            lv == views(ls@),
            lv == lines(text@),
            i <= n,
            lock_fold(lv.take(i as int)) == Some(map@),
        decreases n - i,
    {
        let line = &ls[i];
        assert(lv.take(i + 1).drop_last() =~= lv.take(i as int));
        assert(lv.take(i + 1).last() == line@);
        let len = line.len();
        let (lo, hi) = trim_bounds(line, 0, len);
        assert(line@.subrange(0, len as int) =~= line@);
        let ghost t = line@.subrange(lo as int, hi as int);
        if lo == hi || line[lo] == '#' {
            i = i + 1;
            continue ;
        }
        match find_char_in(line, lo, hi, ' ') {
            None => {
                proof {
                    lemma_lock_fold_none(lv, i + 1);
                }
                return None;
            },
            Some(k) => {
                proof {
                    crate::text::lemma_find_char_range(t, ' ');
                }
                assert(t.skip(k + 1) =~= line@.subrange(lo + k + 1, hi as int));
                assert(t.take(k as int) =~= line@.subrange(lo as int, lo + k));
                match Version::parse_chars(line, lo + k + 1, hi) {
                    None => {
                        proof {
                            lemma_lock_fold_none(lv, i + 1);
                        }
                        return None;
                    },
                    Some(v) => {
                        let name = crate::text::slice_of(line, lo, lo + k);
                        map.insert(string_of(name.as_slice()), v);
                    },
                }
            },
        }
        i = i + 1;
    }
    assert(lv.take(n as int) =~= lv);
    Some(map)
}

/// The package lines of a resolution, without their newlines.
pub open spec fn rendered_lines(m: ResolutionView) -> Seq<Seq<char>>
    decreases m.len(),
{
    if m.len() == 0 {
        seq![]
    } else {
        rendered_lines(m.drop_last()).push(entry_line(m.last()))
    }
}

/// A name that a lockfile line keeps intact: not empty, without whitespace,
/// not starting with `#`.
pub open spec fn lockable_name(n: Seq<char>) -> bool {
    &&& n.len() > 0
    &&& n[0] != '#'
    &&& forall|i: int| 0 <= i < n.len() ==> !is_ws(#[trigger] n[i])
}

/// A resolution that the lockfile format can carry: sorted names that are
/// all lockable, and versions with at least one component.
pub open spec fn lockable(m: ResolutionView) -> bool {
    &&& sorted_names(m)
    &&& forall|j: int|
        0 <= j < m.len() ==> lockable_name(#[trigger] m[j].0) && m[j].1.len() >= 1
}

proof fn lemma_header()
    ensures
        header().len() > 0,
        header()[0] == '#',
        !is_ws(header().last()),
        header().last() != '\r',
        forall|i: int| 0 <= i < header().len() ==> #[trigger] header()[i] != '\n',
{
    reveal_strlit("# uvr lockfile v1");
}

proof fn lemma_entry_line(e: (Seq<char>, Seq<u64>))
    requires
        lockable_name(e.0),
        e.1.len() >= 1,
    ensures
        entry_line(e).len() > 0,
        entry_line(e)[0] == e.0[0],
        !is_ws(entry_line(e)[0]),
        !is_ws(entry_line(e).last()),
        entry_line(e).last() != '\r',
        forall|i: int| 0 <= i < entry_line(e).len() ==> #[trigger] entry_line(e)[i] != '\n',
        find_char(entry_line(e), ' ') == e.0.len(),
        entry_line(e).take(e.0.len() as int) == e.0,
        entry_line(e).skip(e.0.len() as int + 1) == dotted(e.1),
{
    let l = entry_line(e);
    let n = e.0;
    crate::version::lemma_dotted_chars(e.1);
    assert(l.take(n.len() as int) =~= n);
    assert(l.skip(n.len() as int + 1) =~= dotted(e.1));
    assert(l[n.len() as int] == ' ');
    assert forall|j: int| 0 <= j < n.len() implies l[j] != ' ' by {
        assert(l[j] == n[j]);
        assert(!is_ws(n[j]));
    }
    crate::text::lemma_find_char_at(l, ' ', n.len() as int);
    assert(l.last() == dotted(e.1).last());
    assert forall|i: int| 0 <= i < l.len() implies #[trigger] l[i] != '\n' by {
        if i < n.len() {
            assert(l[i] == n[i]);
            assert(!is_ws(n[i]));
        } else if i > n.len() {
            assert(l[i] == dotted(e.1)[i - n.len() - 1]);
        }
    }
    assert(l[0] == n[0]);
}

proof fn lemma_trim_plain(t: Seq<char>)
    requires
        t.len() > 0,
        !is_ws(t[0]),
        !is_ws(t.last()),
    ensures
        trim(t) == t,
{
}

proof fn lemma_lines_of_render(m: ResolutionView)
    requires
        lockable(m),
    ensures
        lines_acc(render_spec(m)) == (seq![header()] + rendered_lines(m), Seq::<char>::empty()),
    decreases m.len(),
{
    lemma_header();
    if m.len() == 0 {
        let e: Seq<char> = seq![];
        crate::text::lemma_lines_acc_line(e, header());
        assert(e + header().push('\n') =~= render_spec(m));
        assert(lines_acc(e) == (Seq::<Seq<char>>::empty(), e));
        assert(crate::text::strip_cr(header()) == header());
        assert(Seq::<Seq<char>>::empty().push(header()) =~= seq![header()] + rendered_lines(m));
    } else {
        let d = m.drop_last();
        assert(lockable(d)) by {
            assert forall|a: int, b: int| 0 <= a < b < d.len() implies crate::resolution::str_lt(
                #[trigger] d[a].0,
                #[trigger] d[b].0,
            ) by {
                assert(d[a] == m[a] && d[b] == m[b]);
            }
            assert forall|j: int| 0 <= j < d.len() implies lockable_name(#[trigger] d[j].0)
                && d[j].1.len() >= 1 by {
                assert(d[j] == m[j]);
            }
        }
        lemma_lines_of_render(d);
        assert(lockable_name(m[m.len() - 1].0) && m[m.len() - 1].1.len() >= 1);
        lemma_entry_line(m.last());
        crate::text::lemma_lines_acc_line(render_spec(d), entry_line(m.last()));
        assert(render_spec(d) + entry_line(m.last()).push('\n') =~= render_spec(m));
        assert(crate::text::strip_cr(entry_line(m.last())) == entry_line(m.last()));
        assert((seq![header()] + rendered_lines(d)).push(entry_line(m.last())) =~= seq![header()]
            + rendered_lines(m));
    }
}

proof fn lemma_lock_fold_render(m: ResolutionView)
    requires
        lockable(m),
    ensures
        lock_fold(seq![header()] + rendered_lines(m)) == Some(m),
    decreases m.len(),
{
    lemma_header();
    let ls = seq![header()] + rendered_lines(m);
    if m.len() == 0 {
        assert(ls.drop_last() =~= Seq::<Seq<char>>::empty());
        assert(ls.last() == header());
        lemma_trim_plain(header());
        assert(lock_fold(ls.drop_last()) == Some(Seq::<(Seq<char>, Seq<u64>)>::empty()));
        assert(trim(header())[0] == '#');
        assert(m =~= Seq::<(Seq<char>, Seq<u64>)>::empty());
    } else {
        let d = m.drop_last();
        let e = m.last();
        assert(lockable(d)) by {
            assert forall|a: int, b: int| 0 <= a < b < d.len() implies crate::resolution::str_lt(
                #[trigger] d[a].0,
                #[trigger] d[b].0,
            ) by {
                assert(d[a] == m[a] && d[b] == m[b]);
            }
            assert forall|j: int| 0 <= j < d.len() implies lockable_name(#[trigger] d[j].0)
                && d[j].1.len() >= 1 by {
                assert(d[j] == m[j]);
            }
        }
        lemma_lock_fold_render(d);
        assert(ls.drop_last() =~= seq![header()] + rendered_lines(d));
        assert(ls.last() == entry_line(e));
        assert(lockable_name(m[m.len() - 1].0) && m[m.len() - 1].1.len() >= 1);
        lemma_entry_line(e);
        lemma_trim_plain(entry_line(e));
        crate::version::lemma_version_round_trip(e.1);
        assert forall|j: int| 0 <= j < d.len() implies crate::resolution::str_lt(
            #[trigger] d[j].0,
            e.0,
        ) by {
            assert(d[j] == m[j]);
            assert(m[m.len() - 1] == e);
        }
        crate::resolution::lemma_sorted_insert_at(d, e.0, e.1, d.len() as int);
        assert(d.insert(d.len() as int, (e.0, e.1)) =~= m);
        let t = trim(entry_line(e));
        assert(t == entry_line(e));
        assert(t.len() > 0 && t[0] != '#');
        assert(find_char(t, ' ') == e.0.len());
        assert(parse_version_spec(t.skip(e.0.len() as int + 1)) == Some(e.1));
        assert(t.take(e.0.len() as int) == e.0);
        assert(sorted_insert(d, e.0, e.1) == m);
        assert(lock_step(Some(d), entry_line(e)) == Some(m));
    }
}

/// Writing a resolution and reading it back gives the same resolution,
/// for every resolution whose names the format can carry.
pub proof fn lemma_lockfile_round_trip(m: ResolutionView)
    requires
        lockable(m),
    ensures
        lock_parse_spec(render_spec(m)) == Some(m),
{
    lemma_lines_of_render(m);
    lemma_lock_fold_render(m);
}

} // verus!
