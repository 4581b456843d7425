//! R's DCF format (the layout of `PACKAGES` and `DESCRIPTION` files), the
//! dependency fields in it, and the package index built from it.
//!
//! A DCF document is a list of records separated by blank lines; each record
//! is a list of `Field: value` lines, and a line that starts with a space or a
//! tab continues the value of the field before it.

use vstd::prelude::*;

use crate::assoc::{
    assoc_find, assoc_get, assoc_insert, lemma_assoc_find_prefix, lemma_assoc_find_range,
    lemma_assoc_get_insert, lemma_assoc_insert_keys, assoc_keys,
};
use crate::text::{
    chars_eq, chars_of, find_char, find_char_in, is_ws, lemma_find_char_at,
    lemma_find_char_range, lemma_lines_acc_plain, lines, lines_acc, lines_of, rfind_char,
    rfind_char_in, slice_of, split2, split_on, string_of, trim, trim_bounds, trim_end, trim_start,
    trimmed, views,
};
use crate::version::{
    opt_constraint, parse_constraint_spec, parse_version_spec, Constraint, Op, Version,
};

verus! {

/// The fields of a record as character sequences, in the order they first
/// appeared.
pub type Fields = Seq<(Seq<char>, Seq<char>)>;

/// One DCF record: field name to value.
#[derive(Debug)]
pub struct Record {
    fields: Vec<(String, String)>,
}

pub open spec fn string_pairs(s: Seq<(String, String)>) -> Fields {
    s.map_values(|p: (String, String)| (p.0@, p.1@))
}

pub open spec fn char_pairs(s: Seq<(Vec<char>, Vec<char>)>) -> Fields {
    s.map_values(|p: (Vec<char>, Vec<char>)| (p.0@, p.1@))
}

impl View for Record {
    type V = Fields;

    closed spec fn view(&self) -> Fields {
        string_pairs(self.fields@)
    }
}

impl Record {
    /// The value of the field `key`.
    pub fn get(&self, key: &str) -> (r: Option<&String>)
        ensures
            match r {
                Some(v) => assoc_get(self@, key@) == Some(v@),
                None => assoc_get(self@, key@) is None,
            },
    {
        let k = key.to_owned();
        let n = self.fields.len();
        let mut i: usize = 0;
        while i < n
            invariant
                n == self.fields@.len(),
                i <= n,
                k@ == key@,
                assoc_find(self@.take(i as int), key@) == -1,
            decreases n - i,
        {
            assert(self@.take(i + 1).drop_last() =~= self@.take(i as int));
            if self.fields[i].0 == k {
                proof {
                    lemma_assoc_find_prefix(self@, key@, i + 1);
                }
                return Some(&self.fields[i].1);
            }
            i = i + 1;
        }
        assert(self@.take(n as int) =~= self@);
        None
    }

    /// The number of fields.
    pub fn len(&self) -> (r: usize)
        ensures
            r == self@.len(),
    {
        self.fields.len()
    }

    /// Whether the record has no field.
    pub fn is_empty(&self) -> (r: bool)
        ensures
            r == (self@.len() == 0),
    {
        self.fields.len() == 0
    }
}

/// The state of a left-to-right reading of a DCF document.
pub struct DcfState {
    pub records: Seq<Fields>,
    pub current: Fields,
    pub last_key: Option<Seq<char>>,
}

pub open spec fn dcf_start() -> DcfState {
    DcfState { records: seq![], current: seq![], last_key: None }
}

/// Reading one line: a blank line closes the current record; a line that
/// starts with a space or a tab continues the last field (joined by one
/// space); a `key: value` line sets a field; any other line is skipped.
pub open spec fn dcf_step(st: DcfState, line: Seq<char>) -> DcfState {
    if trim(line).len() == 0 {
        DcfState {
            records: if st.current.len() > 0 {
                st.records.push(st.current)
            } else {
                st.records
            },
            current: seq![],
            last_key: None,
        }
    } else if line[0] == ' ' || line[0] == '\t' {
        match st.last_key {
            Some(k) => match assoc_get(st.current, k) {
                Some(val) => DcfState {
                    records: st.records,
                    current: assoc_insert(st.current, k, val.push(' ') + trim(line)),
                    last_key: st.last_key,
                },
                None => st,
            },
            None => st,
        }
    } else {
        let i = find_char(line, ':');
        if i >= 0 {
            let key = trim(line.take(i));
            DcfState {
                records: st.records,
                current: assoc_insert(st.current, key, trim(line.skip(i + 1))),
                last_key: Some(key),
            }
        } else {
            st
        }
    }
}

/// The state after reading the lines `ls` in order.
pub open spec fn dcf_fold(ls: Seq<Seq<char>>) -> DcfState
    decreases ls.len(),
{
    if ls.len() == 0 {
        dcf_start()
    } else {
        dcf_step(dcf_fold(ls.drop_last()), ls.last())
    }
}

/// The records of the DCF text `s`.
pub open spec fn dcf_records(s: Seq<char>) -> Seq<Fields> {
    let st = dcf_fold(lines(s));
    if st.current.len() > 0 {
        st.records.push(st.current)
    } else {
        st.records
    }
}

pub open spec fn record_views(s: Seq<Record>) -> Seq<Fields> {
    s.map_values(|r: Record| r@)
}

fn find_field(cur: &Vec<(Vec<char>, Vec<char>)>, key: &Vec<char>) -> (r: Option<usize>)
    ensures
        match r {
            Some(i) => assoc_find(char_pairs(cur@), key@) == i,
            None => assoc_find(char_pairs(cur@), key@) == -1,
        },
        r matches Some(i) ==> i < cur@.len(),
{
    let ghost s = char_pairs(cur@);
    proof {
        lemma_assoc_find_range(s, key@);
    }
    let n = cur.len();
    let mut i: usize = 0;
    while i < n
        invariant
            n == cur@.len(),
            s == char_pairs(cur@),
            i <= n,
            assoc_find(s.take(i as int), key@) == -1,
        decreases n - i,
    {
        assert(s.take(i + 1).drop_last() =~= s.take(i as int));
        if chars_eq(&cur[i].0, key) {
            proof {
                lemma_assoc_find_prefix(s, key@, i + 1);
            }
            return Some(i);
        }
        i = i + 1;
    }
    assert(s.take(n as int) =~= s);
    None
}

fn insert_field(cur: &mut Vec<(Vec<char>, Vec<char>)>, key: Vec<char>, value: Vec<char>)
    ensures
        char_pairs(final(cur)@) == assoc_insert(char_pairs(old(cur)@), key@, value@),
{
    let ghost s = char_pairs(cur@);
    match find_field(cur, &key) {
        Some(i) => {
            cur[i] = (key, value);
            assert(char_pairs(cur@) =~= s.update(i as int, (key@, value@)));
        },
        None => {
            cur.push((key, value));
            assert(char_pairs(cur@) =~= s.push((key@, value@)));
        },
    }
}

fn to_record(cur: &Vec<(Vec<char>, Vec<char>)>) -> (r: Record)
    ensures
        r@ == char_pairs(cur@),
{
    let mut fields: Vec<(String, String)> = Vec::new();
    let n = cur.len();
    let mut i: usize = 0;
    while i < n
        invariant
            n == cur@.len(),
            i <= n,
            string_pairs(fields@) == char_pairs(cur@).take(i as int),
        decreases n - i,
    {
        let k = string_of(cur[i].0.as_slice());
        let v = string_of(cur[i].1.as_slice());
        let ghost before = fields@;
        fields.push((k, v));
        assert(string_pairs(fields@) =~= string_pairs(before).push((k@, v@)));
        assert(char_pairs(cur@)[i as int] == (k@, v@));
        i = i + 1;
        assert(string_pairs(fields@) =~= char_pairs(cur@).take(i as int));
    }
    assert(char_pairs(cur@).take(n as int) =~= char_pairs(cur@));
    Record { fields }
}

/// Parses DCF text into its records. Lines without `:` that do not
/// continue a field are skipped.
pub fn parse(input: &str) -> (r: Vec<Record>)
    ensures
        record_views(r@) == dcf_records(input@),
{
    let text = chars_of(input);
    parse_chars(&text)
}

/// [`parse`] on characters.
pub fn parse_chars(text: &Vec<char>) -> (r: Vec<Record>)
    ensures
        record_views(r@) == dcf_records(text@),
{
    let ls = lines_of(text);
    let ghost lv = views(ls@);
    let mut records: Vec<Record> = Vec::new();
    let mut cur: Vec<(Vec<char>, Vec<char>)> = Vec::new();
    let mut last_key: Option<Vec<char>> = None;
    let nl = ls.len();
    let mut li: usize = 0;
    while li < nl
        invariant
            nl == ls@.len(),
            lv == views(ls@),
            lv == lines(text@),
            li <= nl,
            ({
                let st = dcf_fold(lv.take(li as int));
                &&& st.records == record_views(records@)
                &&& st.current == char_pairs(cur@)
                &&& st.last_key == match last_key {
                    Some(k) => Some(k@),
                    None => None::<Seq<char>>,
                }
            }),
        decreases nl - li,
    {
        let line = &ls[li];
        let ghost lsq = line@;
        assert(lv.take(li + 1).drop_last() =~= lv.take(li as int));
        assert(lv.take(li + 1).last() == lsq);
        let ghost st = dcf_fold(lv.take(li as int));
        let len = line.len();
        let (lo, hi) = trim_bounds(line, 0, len);
        assert(line@.subrange(0, len as int) =~= lsq);
        if lo == hi {
            if cur.len() > 0 {
                let rec = to_record(&cur);
                let ghost before = records@;
                records.push(rec);
                assert(record_views(records@) =~= record_views(before).push(rec@));
            }
            cur = Vec::new();
            last_key = None;
            assert(char_pairs(cur@) =~= Seq::<(Seq<char>, Seq<char>)>::empty());
        } else if line[0] == ' ' || line[0] == '\t' {
            match &last_key {
                Some(k) => {
                    match find_field(&cur, k) {
                        Some(i) => {
                            let mut val = slice_of(&cur[i].1, 0, cur[i].1.len());
                            assert(cur[i as int].1@.subrange(0, cur[i as int].1@.len() as int)
                                =~= cur[i as int].1@);
                            val.push(' ');
                            let t = trimmed(line, 0, len);
                            let mut j: usize = 0;
                            let ghost val0 = val@;
                            while j < t.len()
                                invariant
                                    j <= t@.len(),
                                    val@ == val0 + t@.take(j as int),
                                decreases t@.len() - j,
                            {
                                val.push(t[j]);
                                j = j + 1;
                                assert(val@ =~= val0 + t@.take(j as int));
                            }
                            assert(t@.take(t@.len() as int) =~= t@);
                            let kc = slice_of(k, 0, k.len());
                            assert(k@.subrange(0, k@.len() as int) =~= k@);
                            insert_field(&mut cur, kc, val);
                        },
                        None => {},
                    }
                },
                None => {},
            }
        } else {
            match find_char_in(line, 0, len, ':') {
                Some(i) => {
                    proof {
                        lemma_find_char_range(lsq, ':');
                    }
                    let key = trimmed(line, 0, i);
                    let value = trimmed(line, i + 1, len);
                    assert(lsq.take(i as int) =~= line@.subrange(0, i as int));
                    assert(lsq.skip(i + 1) =~= line@.subrange(i + 1, len as int));
                    let kc = slice_of(&key, 0, key.len());
                    assert(key@.subrange(0, key@.len() as int) =~= key@);
                    insert_field(&mut cur, kc, value);
                    last_key = Some(key);
                },
                None => {},
            }
        }
        li = li + 1;
    }
    assert(lv.take(nl as int) =~= lv);
    if cur.len() > 0 {
        let rec = to_record(&cur);
        let ghost before = records@;
        records.push(rec);
        assert(record_views(records@) =~= record_views(before).push(rec@));
    }
    records
}

/// A dependency: a package name and, optionally, a version constraint.
#[derive(Debug)]
pub struct Dependency {
    pub name: String,
    pub constraint: Option<Constraint>,
}

/// A dependency as plain values.
pub type DepView = (Seq<char>, Option<(Op, Seq<u64>)>);

impl View for Dependency {
    type V = DepView;

    open spec fn view(&self) -> DepView {
        (self.name@, opt_constraint(self.constraint))
    }
}

pub open spec fn dep_views(s: Seq<Dependency>) -> Seq<DepView> {
    s.map_values(|d: Dependency| d@)
}

/// One entry such as `pbapply (>= 1.3-2)`: with a `(` before the last `)`,
/// the name is what precedes the `(` and the constraint what stands between
/// the parentheses (`None` when it does not parse); otherwise the whole entry
/// is the name.
pub open spec fn parse_dependency_spec(e: Seq<char>) -> DepView {
    let open = find_char(e, '(');
    let close = rfind_char(e, ')');
    if open >= 0 && close >= 0 && close > open {
        (trim(e.take(open)), parse_constraint_spec(e.subrange(open + 1, close)))
    } else {
        (trim(e), None)
    }
}

/// The dependencies named by comma-separated pieces; pieces that are blank
/// after trimming are skipped.
pub open spec fn deps_of_pieces(ps: Seq<Seq<char>>) -> Seq<DepView>
    decreases ps.len(),
{
    if ps.len() == 0 {
        seq![]
    } else {
        let rest = deps_of_pieces(ps.drop_last());
        let t = trim(ps.last());
        if t.len() == 0 {
            rest
        } else {
            rest.push(parse_dependency_spec(t))
        }
    }
}

/// The dependencies listed in a field such as
/// `R (>= 2.15.0), xtable, pbapply (>= 1.3-2)`.
pub open spec fn parse_dependencies_spec(field: Seq<char>) -> Seq<DepView> {
    deps_of_pieces(split2(field, ',', ','))
}

/// Parses one trimmed dependency entry `v[from..to]`.
fn parse_dependency(v: &Vec<char>, from: usize, to: usize) -> (r: Dependency)
    requires
        from <= to <= v@.len(),
    ensures
        r@ == parse_dependency_spec(v@.subrange(from as int, to as int)),
{
    let ghost e = v@.subrange(from as int, to as int);
    proof {
        lemma_find_char_range(e, '(');
        lemma_find_char_range(e, ')');
    }
    let open = find_char_in(v, from, to, '(');
    let close = rfind_char_in(v, from, to, ')');
    match (open, close) {
        (Some(o), Some(c)) => {
            if c > o {
                let name = trimmed(v, from, from + o);
                assert(e.take(o as int) =~= v@.subrange(from as int, from + o));
                assert(e.subrange(o + 1, c as int) =~= v@.subrange(from + o + 1, from + c));
                let constraint = Constraint::parse_chars(v, from + o + 1, from + c);
                return Dependency { name: string_of(name.as_slice()), constraint };
            }
        },
        _ => {},
    }
    let name = trimmed(v, from, to);
    Dependency { name: string_of(name.as_slice()), constraint: None }
}

/// Parses a dependency field such as `R (>= 2.15.0), xtable, pbapply`.
pub fn parse_dependencies(field: &str) -> (r: Vec<Dependency>)
    ensures
        dep_views(r@) == parse_dependencies_spec(field@),
{
    let v = chars_of(field);
    parse_dependencies_chars(&v)
}

/// [`parse_dependencies`] on characters.
pub fn parse_dependencies_chars(v: &Vec<char>) -> (r: Vec<Dependency>)
    ensures
        dep_views(r@) == parse_dependencies_spec(v@),
{
    let pieces = split_on(v, ',', ',');
    let ghost ps = views(pieces@);
    let mut out: Vec<Dependency> = Vec::new();
    let n = pieces.len();
    let mut i: usize = 0;
    while i < n
        invariant
            n == pieces@.len(),
            ps == views(pieces@),
            ps == split2(v@, ',', ','),
            i <= n,
            dep_views(out@) == deps_of_pieces(ps.take(i as int)),
        decreases n - i,
    {
        let piece = &pieces[i];
        assert(ps.take(i + 1).drop_last() =~= ps.take(i as int));
        assert(ps.take(i + 1).last() == piece@);
        let (lo, hi) = trim_bounds(piece, 0, piece.len());
        assert(piece@.subrange(0, piece@.len() as int) =~= piece@);
        if lo < hi {
            let d = parse_dependency(piece, lo, hi);
            let ghost before = out@;
            out.push(d);
            assert(dep_views(out@) =~= dep_views(before).push(d@));
        }
        i = i + 1;
    }
    assert(ps.take(n as int) =~= ps);
    out
}

/// A package of the index: its name, version and install-time dependencies.
#[derive(Debug)]
pub struct Package {
    pub name: String,
    pub version: Version,
    pub depends: Vec<Dependency>,
}

/// A package as plain values: name, version components, dependencies.
pub type PackageView = (Seq<char>, Seq<u64>, Seq<DepView>);

impl View for Package {
    type V = PackageView;

    open spec fn view(&self) -> PackageView {
        (self.name@, self.version@, dep_views(self.depends@))
    }
}

pub open spec fn package_views(s: Seq<Package>) -> Seq<PackageView> {
    s.map_values(|p: Package| p@)
}

/// The dependencies listed in field `f` of a record, none when it is absent.
pub open spec fn field_deps(r: Fields, f: Seq<char>) -> Seq<DepView> {
    match assoc_get(r, f) {
        Some(v) => parse_dependencies_spec(v),
        None => seq![],
    }
}

/// The package a record describes: it needs a `Package` field and a
/// `Version` that parses; its dependencies are those of `Depends`, `Imports`
/// and `LinkingTo`, in that order.
pub open spec fn package_of_record(r: Fields) -> Option<PackageView> {
    match (assoc_get(r, "Package"@), assoc_get(r, "Version"@)) {
        (Some(name), Some(ver)) => match parse_version_spec(ver) {
            Some(p) => Some(
                (
                    name,
                    p,
                    field_deps(r, "Depends"@) + field_deps(r, "Imports"@) + field_deps(
                        r,
                        "LinkingTo"@,
                    ),
                ),
            ),
            None => None,
        },
        _ => None,
    }
}

fn append_field_deps(rec: &Record, field: &str, out: &mut Vec<Dependency>)
    ensures
        dep_views(final(out)@) == dep_views(old(out)@) + field_deps(rec@, field@),
{
    match rec.get(field) {
        Some(value) => {
            let mut ds = parse_dependencies(value.as_str());
            let ghost before = out@;
            let ghost added = ds@;
            out.append(&mut ds);
            assert(dep_views(out@) =~= dep_views(before) + dep_views(added));
        },
        None => {
            assert(dep_views(out@) =~= dep_views(old(out)@) + Seq::<DepView>::empty());
        },
    }
}

impl Package {
    /// The package a record describes, if it names one with a valid version.
    pub fn from_record(rec: &Record) -> (r: Option<Package>)
        ensures
            match r {
                Some(p) => package_of_record(rec@) == Some(p@),
                None => package_of_record(rec@) is None,
            },
    {
        let name = match rec.get("Package") {
            Some(n) => n.clone(),
            None => {
                return None;
            },
        };
        let version = match rec.get("Version") {
            Some(v) => match Version::parse(v.as_str()) {
                Some(x) => x,
                None => {
                    return None;
                },
            },
            None => {
                return None;
            },
        };
        let mut depends: Vec<Dependency> = Vec::new();
        append_field_deps(rec, "Depends", &mut depends);
        append_field_deps(rec, "Imports", &mut depends);
        append_field_deps(rec, "LinkingTo", &mut depends);
        assert(dep_views(depends@) =~= Seq::<DepView>::empty() + field_deps(rec@, "Depends"@)
            + field_deps(rec@, "Imports"@) + field_deps(rec@, "LinkingTo"@));
        Some(Package { name, version, depends })
    }
}

/// The packages that the records describe, in order; records that describe
/// none are skipped.
pub open spec fn packages_of(rs: Seq<Fields>) -> Seq<PackageView>
    decreases rs.len(),
{
    if rs.len() == 0 {
        seq![]
    } else {
        let rest = packages_of(rs.drop_last());
        match package_of_record(rs.last()) {
            Some(p) => rest.push(p),
            None => rest,
        }
    }
}

/// The index as plain values: package name to its versions, in file order.
pub type IndexView = Seq<(Seq<char>, Seq<PackageView>)>;

/// The index with one more package, appended to the versions of its name.
pub open spec fn index_add(idx: IndexView, p: PackageView) -> IndexView {
    match assoc_get(idx, p.0) {
        Some(ps) => assoc_insert(idx, p.0, ps.push(p)),
        None => assoc_insert(idx, p.0, seq![p]),
    }
}

/// The index of the packages `ps`, added in order.
pub open spec fn index_of(ps: Seq<PackageView>) -> IndexView
    decreases ps.len(),
{
    if ps.len() == 0 {
        seq![]
    } else {
        index_add(index_of(ps.drop_last()), ps.last())
    }
}

/// The versions of `name` in an index.
pub open spec fn versions_in(idx: IndexView, name: Seq<char>) -> Seq<PackageView> {
    match assoc_get(idx, name) {
        Some(ps) => ps,
        None => seq![],
    }
}

/// The packages of `ps` called `name`, in order.
pub open spec fn named(ps: Seq<PackageView>, name: Seq<char>) -> Seq<PackageView>
    decreases ps.len(),
{
    if ps.len() == 0 {
        seq![]
    } else {
        let rest = named(ps.drop_last(), name);
        if ps.last().0 == name {
            rest.push(ps.last())
        } else {
            rest
        }
    }
}

/// The index of a `PACKAGES` file: every package name with its versions.
#[derive(Debug)]
pub struct PackageIndex {
    groups: Vec<(String, Vec<Package>)>,
}

pub open spec fn group_views(s: Seq<(String, Vec<Package>)>) -> IndexView {
    s.map_values(|g: (String, Vec<Package>)| (g.0@, package_views(g.1@)))
}

impl View for PackageIndex {
    type V = IndexView;

    closed spec fn view(&self) -> IndexView {
        group_views(self.groups@)
    }
}

fn find_group(groups: &Vec<(String, Vec<Package>)>, name: &String) -> (r: Option<usize>)
    ensures
        match r {
            Some(i) => assoc_find(group_views(groups@), name@) == i && i < group_views(groups@).len(),
            None => assoc_find(group_views(groups@), name@) == -1,
        },
{
    let ghost s = group_views(groups@);
    proof {
        lemma_assoc_find_range(s, name@);
    }
    let n = groups.len();
    let mut i: usize = 0;
    while i < n
        invariant
            n == groups@.len(),
            s == group_views(groups@),
            i <= n,
            assoc_find(s.take(i as int), name@) == -1,
        decreases n - i,
    {
        assert(s.take(i + 1).drop_last() =~= s.take(i as int));
        if groups[i].0 == *name {
            proof {
                lemma_assoc_find_prefix(s, name@, i + 1);
            }
            return Some(i);
        }
        i = i + 1;
    }
    assert(s.take(n as int) =~= s);
    None
}

fn add_package(groups: &mut Vec<(String, Vec<Package>)>, p: Package)
    ensures
        group_views(final(groups)@) == index_add(group_views(old(groups)@), p@),
{
    let ghost s = group_views(groups@);
    let ghost pv = p@;
    let ghost pg = p;
    let ghost gs = groups@;
    match find_group(groups, &p.name) {
        Some(i) => {
            let ghost ps = s[i as int].1;
            assert(assoc_get(s, pv.0) == Some(ps));
            groups[i].1.push(p);
            assert(groups@[i as int].1@ == gs[i as int].1@.push(pg));
            assert(groups@[i as int].0 == gs[i as int].0);
            assert(groups@.len() == gs.len());
            assert(forall|j: int| 0 <= j < gs.len() && j != i ==> groups@[j] == gs[j]);
            assert(package_views(groups@[i as int].1@) =~= ps.push(pv));
            assert forall|j: int| 0 <= j < gs.len() implies #[trigger] group_views(groups@)[j] == s.update(
                i as int,
                (pv.0, ps.push(pv)),
            )[j] by {
                if j != i {
                    assert(groups@[j] == gs[j]);
                } else {
                    lemma_assoc_find_range(s, pv.0);
                    assert(s[i as int].0 == pv.0);
                    assert(group_views(groups@)[j] == (gs[i as int].0@, package_views(
                        groups@[i as int].1@,
                    )));
                }
            }
            assert(group_views(groups@) =~= s.update(i as int, (pv.0, ps.push(pv))));
        },
        None => {
            let name = p.name.clone();
            let mut v: Vec<Package> = Vec::new();
            v.push(p);
            groups.push((name, v));
            assert(package_views(v@) =~= seq![pv]);
            assert(group_views(groups@) =~= s.push((pv.0, seq![pv])));
        },
    }
}

impl PackageIndex {
    /// Every package name appears once.
    #[verifier::type_invariant]
    pub open spec fn wf(&self) -> bool {
        assoc_keys(self@).no_duplicates()
    }

    /// Builds the index of the DCF text of a `PACKAGES` file.
    pub fn from_packages_file(input: &str) -> (r: PackageIndex)
        ensures
            r@ == index_of(packages_of(dcf_records(input@))),
            r.wf(),
    {
        proof {
            lemma_index_keys_distinct(packages_of(dcf_records(input@)));
        }
        let records = parse(input);
        let ghost rs = record_views(records@);
        let mut groups: Vec<(String, Vec<Package>)> = Vec::new();
        let n = records.len();
        let mut i: usize = 0;
        assert(group_views(groups@) =~= index_of(packages_of(rs.take(0))));
        while i < n
            invariant
                n == records@.len(),
                rs == record_views(records@),
                i <= n,
                group_views(groups@) == index_of(packages_of(rs.take(i as int))),
            decreases n - i,
        {
            assert(rs.take(i + 1).drop_last() =~= rs.take(i as int));
            assert(rs.take(i + 1).last() == records@[i as int]@);
            match Package::from_record(&records[i]) {
                Some(p) => {
                    let ghost before = packages_of(rs.take(i as int));
                    assert(before.push(p@).drop_last() =~= before);
                    add_package(&mut groups, p);
                },
                None => {},
            }
            i = i + 1;
        }
        assert(rs.take(n as int) =~= rs);
        PackageIndex { groups }
    }

    /// The versions of the package `name`, in file order; empty when the
    /// index does not know it.
    pub fn versions_of(&self, name: &str) -> (r: &[Package])
        ensures
            package_views(r@) == versions_in(self@, name@),
    {
        let k = name.to_owned();
        match find_group(&self.groups, &k) {
            Some(i) => self.groups[i].1.as_slice(),
            None => &[],
        }
    }

    /// The number of package names.
    pub fn len(&self) -> (r: usize)
        ensures
            r == self@.len(),
    {
        self.groups.len()
    }

    /// Whether the index knows no package.
    pub fn is_empty(&self) -> (r: bool)
        ensures
            r == (self@.len() == 0),
    {
        self.groups.len() == 0
    }
}

/// Every name appears once in an index built from packages.
pub proof fn lemma_index_keys_distinct(ps: Seq<PackageView>)
    ensures
        assoc_keys(index_of(ps)).no_duplicates(),
    decreases ps.len(),
{
    if ps.len() > 0 {
        lemma_index_keys_distinct(ps.drop_last());
        let idx = index_of(ps.drop_last());
        let p = ps.last();
        match assoc_get(idx, p.0) {
            Some(old) => lemma_assoc_insert_keys(idx, p.0, old.push(p)),
            None => lemma_assoc_insert_keys(idx, p.0, seq![p]),
        }
    } else {
        assert(assoc_keys(index_of(ps)) =~= Seq::<Seq<char>>::empty());
    }
}

/// The index lists, for every name, exactly the packages of that name in the
/// order the file gives them.
pub proof fn lemma_index_versions(ps: Seq<PackageView>, name: Seq<char>)
    ensures
        versions_in(index_of(ps), name) == named(ps, name),
    decreases ps.len(),
{
    if ps.len() > 0 {
        let prev = ps.drop_last();
        let p = ps.last();
        lemma_index_versions(prev, name);
        let idx = index_of(prev);
        match assoc_get(idx, p.0) {
            Some(old) => {
                lemma_assoc_get_insert(idx, p.0, old.push(p), name);
            },
            None => {
                lemma_assoc_get_insert(idx, p.0, seq![p], name);
                if p.0 == name {
                    assert(named(prev, name) =~= Seq::<PackageView>::empty());
                    assert(seq![p] =~= Seq::<PackageView>::empty().push(p));
                }
            },
        }
    }
}

/// Trimming keeps at least the first character when it is not whitespace.
proof fn lemma_trim_keeps_first(s: Seq<char>)
    requires
        s.len() > 0,
        !is_ws(s[0]),
    ensures
        trim_start(s) == s,
        trim(s).len() > 0,
    decreases s.len(),
{
    lemma_trim_end_keeps_first(s);
}

proof fn lemma_trim_end_keeps_first(s: Seq<char>)
    requires
        s.len() > 0,
        !is_ws(s[0]),
    ensures
        trim_end(s).len() > 0,
    decreases s.len(),
{
    if s.len() > 1 && is_ws(s.last()) {
        lemma_trim_end_keeps_first(s.drop_last());
    }
}

/// A field line is split at its first `:`. For a line `k:v` whose name part
/// `k` holds no `:` and does not start with whitespace, reading the line sets
/// the field `trim(k)` to `trim(v)`, whatever `:` the value holds (as in
/// `URL: https://host/path`), and makes `trim(k)` the field that continuation
/// lines extend; the records already closed stay as they were.
pub proof fn lemma_field_line_first_colon(st: DcfState, k: Seq<char>, v: Seq<char>)
    requires
        k.len() > 0,
        !is_ws(k[0]),
        !k.contains(':'),
    ensures
        dcf_step(st, k + seq![':'] + v) == (DcfState {
            records: st.records,
            current: assoc_insert(st.current, trim(k), trim(v)),
            last_key: Some(trim(k)),
        }),
{
    let line = k + seq![':'] + v;
    let i = k.len() as int;
    assert(line[0] == k[0]);
    lemma_trim_keeps_first(line);
    assert(is_ws(' ') && is_ws('\t'));
    assert(line[i] == ':');
    assert forall|j: int| 0 <= j < i implies line[j] != ':' by {
        assert(line[j] == k[j]);
        if k[j] == ':' {
            assert(k.contains(':'));
        }
    }
    lemma_find_char_at(line, ':', i);
    assert(line.take(i) =~= k);
    assert(line.skip(i + 1) =~= v);
}

/// A document of one line `k:v` (no newline in it), whose name part `k` holds
/// no `:` and does not start with whitespace, is one record holding the one
/// field `trim(k)` set to `trim(v)`, however many `:` the value holds.
pub proof fn lemma_one_field_document(k: Seq<char>, v: Seq<char>)
    requires
        k.len() > 0,
        !is_ws(k[0]),
        !k.contains(':'),
        !k.contains('\n'),
        !v.contains('\n'),
    ensures
        dcf_records(k + seq![':'] + v) == seq![seq![(trim(k), trim(v))]],
{
    let line = k + seq![':'] + v;
    let e = Seq::<char>::empty();
    assert forall|j: int| 0 <= j < line.len() implies line[j] != '\n' by {
        if j < k.len() {
            assert(line[j] == k[j]);
            if k[j] == '\n' {
                assert(k.contains('\n'));
            }
        } else if j > k.len() {
            assert(line[j] == v[j - k.len() - 1]);
            if v[j - k.len() - 1] == '\n' {
                assert(v.contains('\n'));
            }
        }
    }
    lemma_lines_acc_plain(e, line);
    assert(e + line =~= line);
    assert(lines_acc(e) == (Seq::<Seq<char>>::empty(), e));
    assert(e + line =~= line);
    assert(lines(line) =~= seq![line]);
    assert(seq![line].drop_last() =~= Seq::<Seq<char>>::empty());
    lemma_field_line_first_colon(dcf_start(), k, v);
    let cur = assoc_insert(Seq::<(Seq<char>, Seq<char>)>::empty(), trim(k), trim(v));
    assert(cur =~= seq![(trim(k), trim(v))]);
    let st = dcf_fold(seq![line]);
    assert(dcf_fold(Seq::<Seq<char>>::empty()) == dcf_start());
    assert(st == dcf_step(dcf_start(), line));
    assert(st.records =~= Seq::<Fields>::empty());
    assert(st.current.len() > 0);
    assert(dcf_records(line) == st.records.push(st.current));
    assert(st.records.push(st.current) =~= seq![seq![(trim(k), trim(v))]]);
}

/// A field other than `Package`, `Version`, `Depends`, `Imports` and
/// `LinkingTo` (such as `Suggests`, `Enhances`, `License` or `URL`) has no
/// bearing on the package a record describes: setting it, to any value, gives
/// the same package, with the same dependencies, or again none.
pub proof fn lemma_other_fields_ignored(r: Fields, f: Seq<char>, x: Seq<char>)
    requires
        f != "Package"@,
        f != "Version"@,
        f != "Depends"@,
        f != "Imports"@,
        f != "LinkingTo"@,
    ensures
        package_of_record(assoc_insert(r, f, x)) == package_of_record(r),
{
    lemma_assoc_get_insert(r, f, x, "Package"@);
    lemma_assoc_get_insert(r, f, x, "Version"@);
    lemma_assoc_get_insert(r, f, x, "Depends"@);
    lemma_assoc_get_insert(r, f, x, "Imports"@);
    lemma_assoc_get_insert(r, f, x, "LinkingTo"@);
}

/// `Suggests` is optional and is not an install dependency: whatever a record
/// suggests, the package it describes, and so its dependencies, are those of
/// the record without it.
pub proof fn lemma_suggests_not_dependencies(r: Fields, x: Seq<char>)
    ensures
        package_of_record(assoc_insert(r, "Suggests"@, x)) == package_of_record(r),
{
    reveal_strlit("Suggests");
    reveal_strlit("Package");
    reveal_strlit("Version");
    reveal_strlit("Depends");
    reveal_strlit("Imports");
    reveal_strlit("LinkingTo");
    assert("Suggests"@ != "Package"@ && "Suggests"@ != "Version"@ && "Suggests"@ != "Depends"@
        && "Suggests"@ != "Imports"@) by {
        assert("Suggests"@[0] != "Package"@[0]);
        assert("Suggests"@[0] != "Version"@[0]);
        assert("Suggests"@[0] != "Depends"@[0]);
        assert("Suggests"@[0] != "Imports"@[0]);
    }
    assert("Suggests"@ != "LinkingTo"@) by {
        assert("Suggests"@[0] != "LinkingTo"@[0]);
    }
    lemma_other_fields_ignored(r, "Suggests"@, x);
}

} // verus!
