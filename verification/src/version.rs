//! Version numbers: parsing, zero-padded comparison, and constraints such as
//! `>= 1.2.0`.

use std::cmp::Ordering;
use vstd::prelude::*;
use vstd::std_specs::cmp::PartialEqSpecImpl;
use vstd::std_specs::cmp::PartialOrdSpecImpl;

use crate::text::{
    chars_of, decimal, lemma_decimal_digits, lemma_parse_decimal, lemma_split2_nonempty,
    parse_u64, parse_u64_spec, push_decimal, slice_of, split2, split_on, trim, trim_bounds, views,
};

verus! {

/// A version such as `1.2.3` or `3.4-1`: its numeric components in order.
#[derive(Debug)]
pub struct Version {
    parts: Vec<u64>,
}

impl View for Version {
    type V = Seq<u64>;

    closed spec fn view(&self) -> Seq<u64> {
        self.parts@
    }
}

/// Component `i` of `p`, where missing components count as `0`.
pub open spec fn part(p: Seq<u64>, i: int) -> u64 {
    if 0 <= i < p.len() {
        p[i]
    } else {
        0
    }
}

pub open spec fn max_len(a: Seq<u64>, b: Seq<u64>) -> int {
    if a.len() > b.len() {
        a.len() as int
    } else {
        b.len() as int
    }
}

/// Comparison of `a` and `b` from component `i` on: `-1`, `0` or `1`.
pub open spec fn order_from(a: Seq<u64>, b: Seq<u64>, i: int) -> int
    decreases max_len(a, b) - i,
{
    if i >= max_len(a, b) || i < 0 {
        0
    } else if part(a, i) < part(b, i) {
        -1
    } else if part(a, i) > part(b, i) {
        1
    } else {
        order_from(a, b, i + 1)
    }
}

/// Component-wise numeric comparison, the shorter side padded with zeros:
/// `-1` when `a < b`, `0` when they are equal, `1` when `a > b`.
pub open spec fn version_order(a: Seq<u64>, b: Seq<u64>) -> int {
    order_from(a, b, 0)
}

/// The pieces of a version string, separated by `.` or `-`, each read as a
/// `u64`; `None` when some piece is not a number.
pub open spec fn parse_parts(ps: Seq<Seq<char>>) -> Option<Seq<u64>>
    decreases ps.len(),
{
    if ps.len() == 0 {
        Some(seq![])
    } else {
        match (parse_parts(ps.drop_last()), parse_u64_spec(ps.last())) {
            (Some(a), Some(x)) => Some(a.push(x)),
            _ => None,
        }
    }
}

/// What `Version::parse` gives for the characters `s`.
pub open spec fn parse_version_spec(s: Seq<char>) -> Option<Seq<u64>> {
    parse_parts(split2(s, '.', '-'))
}

/// The components joined by `.`, each in decimal.
pub open spec fn dotted(p: Seq<u64>) -> Seq<char>
    decreases p.len(),
{
    if p.len() == 0 {
        seq![]
    } else if p.len() == 1 {
        decimal(p[0] as nat)
    } else {
        dotted(p.drop_last()).push('.') + decimal(p.last() as nat)
    }
}

pub proof fn lemma_order_step(a: Seq<u64>, b: Seq<u64>, i: int)
    requires
        i >= 0,
    ensures
        order_from(a, b, i) == (if part(a, i) < part(b, i) {
            -1
        } else if part(a, i) > part(b, i) {
            1
        } else {
            order_from(a, b, i + 1)
        }),
{
}

pub proof fn lemma_order_range(a: Seq<u64>, b: Seq<u64>, i: int)
    ensures
        -1 <= order_from(a, b, i) <= 1,
    decreases max_len(a, b) - i,
{
    if 0 <= i < max_len(a, b) {
        lemma_order_range(a, b, i + 1);
    }
}

proof fn lemma_order_from_antisym(a: Seq<u64>, b: Seq<u64>, i: int)
    ensures
        order_from(a, b, i) == -order_from(b, a, i),
    decreases max_len(a, b) - i,
{
    if 0 <= i < max_len(a, b) {
        lemma_order_from_antisym(a, b, i + 1);
    }
}

proof fn lemma_order_from_trans(a: Seq<u64>, b: Seq<u64>, c: Seq<u64>, i: int)
    requires
        i >= 0,
    ensures
        order_from(a, b, i) <= 0 && order_from(b, c, i) <= 0 ==> order_from(a, c, i) <= 0,
        order_from(a, b, i) < 0 && order_from(b, c, i) <= 0 ==> order_from(a, c, i) < 0,
        order_from(a, b, i) <= 0 && order_from(b, c, i) < 0 ==> order_from(a, c, i) < 0,
    decreases (if max_len(a, b) > max_len(b, c) {
        max_len(a, b)
    } else {
        max_len(b, c)
    }) - i,
{
    lemma_order_step(a, b, i);
    lemma_order_step(b, c, i);
    lemma_order_step(a, c, i);
    if i < max_len(a, b) || i < max_len(b, c) {
        lemma_order_from_trans(a, b, c, i + 1);
    } else {
        assert(order_from(a, c, i) == 0);
    }
}

proof fn lemma_order_from_padded_equal(a: Seq<u64>, b: Seq<u64>, i: int)
    requires
        forall|j: int| #![trigger part(a, j)] #![trigger part(b, j)] part(a, j) == part(b, j),
    ensures
        order_from(a, b, i) == 0,
    decreases max_len(a, b) - i,
{
    if 0 <= i < max_len(a, b) {
        assert(part(a, i) == part(b, i));
        lemma_order_from_padded_equal(a, b, i + 1);
    }
}

/// The comparison is a total order: every answer is `-1`, `0` or `1`,
/// swapping the sides negates it, and a version equals itself.
pub proof fn lemma_version_order_basics(a: Seq<u64>, b: Seq<u64>)
    ensures
        -1 <= version_order(a, b) <= 1,
        version_order(a, b) == -version_order(b, a),
        version_order(a, a) == 0,
{
    lemma_order_range(a, b, 0);
    lemma_order_from_antisym(a, b, 0);
    lemma_order_from_padded_equal(a, a, 0);
}

/// The comparison is transitive, strictly where either step is strict.
pub proof fn lemma_version_order_transitive(a: Seq<u64>, b: Seq<u64>, c: Seq<u64>)
    ensures
        version_order(a, b) <= 0 && version_order(b, c) <= 0 ==> version_order(a, c) <= 0,
        version_order(a, b) < 0 && version_order(b, c) <= 0 ==> version_order(a, c) < 0,
        version_order(a, b) <= 0 && version_order(b, c) < 0 ==> version_order(a, c) < 0,
{
    lemma_order_from_trans(a, b, c, 0);
}

/// Trailing zeros do not matter: `1.0` equals `1.0.0`.
pub proof fn lemma_trailing_zero_equal(a: Seq<u64>)
    ensures
        version_order(a, a.push(0)) == 0,
{
    assert forall|j: int| part(a, j) == part(a.push(0), j) by {}
    lemma_order_from_padded_equal(a, a.push(0), 0);
}

pub proof fn lemma_parse_parts_len(ps: Seq<Seq<char>>)
    ensures
        parse_parts(ps) matches Some(p) ==> p.len() == ps.len(),
    decreases ps.len(),
{
    if ps.len() > 0 {
        lemma_parse_parts_len(ps.drop_last());
    }
}

/// The view of an optional version.
pub open spec fn opt_version(r: Option<Version>) -> Option<Seq<u64>> {
    match r {
        Some(v) => Some(v@),
        None => None,
    }
}

impl Version {
    /// A version has at least one component.
    #[verifier::type_invariant]
    pub open spec fn wf(&self) -> bool {
        self@.len() >= 1
    }

    /// Parses a string such as `1.2.3` or `3.4-1`; `None` when some piece
    /// between the `.` and `-` separators is not a number.
    pub fn parse(s: &str) -> (r: Option<Version>)
        ensures
            opt_version(r) == parse_version_spec(s@),
            r matches Some(v) ==> v@.len() >= 1,
    {
        let v = chars_of(s);
        let n = v.len();
        let r = Version::parse_chars(&v, 0, n);
        assert(v@.subrange(0, n as int) =~= s@);
        r
    }

    /// [`Version::parse`] on the characters `v[from..to]`.
    pub fn parse_chars(v: &Vec<char>, from: usize, to: usize) -> (r: Option<Version>)
        requires
            from <= to <= v@.len(),
        ensures
            opt_version(r) == parse_version_spec(v@.subrange(from as int, to as int)),
            r matches Some(x) ==> x@.len() >= 1,
    {
        let src = slice_of(v, from, to);
        let pieces = split_on(&src, '.', '-');
        let ghost ps = views(pieces@);
        let mut parts: Vec<u64> = Vec::new();
        let mut ok = true;
        let np = pieces.len();
        let mut i: usize = 0;
        while i < np
            invariant
                np == pieces@.len(),
                ps == views(pieces@),
                i <= np,
                ok ==> parse_parts(ps.take(i as int)) == Some(parts@),
                !ok ==> parse_parts(ps.take(i as int)) is None,
            decreases np - i,
        {
            assert(ps.take(i + 1).drop_last() =~= ps.take(i as int));
            assert(ps.take(i + 1).last() == pieces@[i as int]@);
            if ok {
                let piece = &pieces[i];
                let x = parse_u64(piece, 0, piece.len());
                assert(piece@.subrange(0, piece@.len() as int) =~= piece@);
                match x {
                    Some(x) => {
                        parts.push(x);
                    },
                    None => {
                        ok = false;
                    },
                }
            }
            i = i + 1;
        }
        assert(ps.take(np as int) =~= ps);
        proof {
            lemma_split2_nonempty(src@, '.', '-');
            lemma_parse_parts_len(ps);
        }
        if ok {
            Some(Version { parts })
        } else {
            None
        }
    }

    /// The numeric components, in order.
    pub fn parts(&self) -> (r: &Vec<u64>)
        ensures
            r@ == self@,
    {
        &self.parts
    }

    /// [`version_order`] of the two versions.
    pub fn order_value(&self, other: &Version) -> (r: i8)
        ensures
            r as int == version_order(self@, other@),
    {
        let a = &self.parts;
        let b = &other.parts;
        let n = if a.len() > b.len() {
            a.len()
        } else {
            b.len()
        };
        let mut i: usize = 0;
        while i < n
            invariant
                a@ == self@,
                b@ == other@,
                n == max_len(a@, b@),
                i <= n,
                version_order(a@, b@) == order_from(a@, b@, i as int),
            decreases n - i,
        {
            let x = if i < a.len() {
                a[i]
            } else {
                0
            };
            let y = if i < b.len() {
                b[i]
            } else {
                0
            };
            if x < y {
                return -1;
            }
            if x > y {
                return 1;
            }
            i = i + 1;
        }
        0
    }

    /// A copy of this version.
    pub fn copy(&self) -> (r: Version)
        ensures
            r@ == self@,
    {
        proof {
            use_type_invariant(self);
        }
        let mut parts: Vec<u64> = Vec::new();
        let n = self.parts.len();
        let mut i: usize = 0;
        while i < n
            invariant
                n == self.parts@.len(),
                i <= n,
                parts@ == self.parts@.take(i as int),
            decreases n - i,
        {
            parts.push(self.parts[i]);
            i = i + 1;
            assert(parts@ =~= self.parts@.take(i as int));
        }
        assert(self.parts@.take(n as int) =~= self.parts@);
        Version { parts }
    }

    /// The components joined by `.` in decimal, as the lockfile writes them.
    pub fn to_string(&self) -> (r: String)
        ensures
            r@ == dotted(self@),
    {
        let out = self.dotted_chars();
        crate::text::string_of(out.as_slice())
    }

    /// [`Version::to_string`] as characters.
    pub fn dotted_chars(&self) -> (r: Vec<char>)
        ensures
            r@ == dotted(self@),
    {
        let mut out: Vec<char> = Vec::new();
        let n = self.parts.len();
        let mut i: usize = 0;
        while i < n
            invariant
                n == self.parts@.len(),
                i <= n,
                out@ == dotted(self.parts@.take(i as int)),
            decreases n - i,
        {
            let ghost before = out@;
            if i > 0 {
                out.push('.');
            }
            push_decimal(self.parts[i], &mut out);
            i = i + 1;
            assert(self.parts@.take(i as int).drop_last() =~= self.parts@.take(i - 1));
            assert(out@ =~= dotted(self.parts@.take(i as int)));
        }
        assert(self.parts@.take(n as int) =~= self.parts@);
        out
    }
}

/// The `Ordering` that an answer of [`version_order`] stands for.
pub open spec fn ordering_of(c: int) -> Ordering {
    if c < 0 {
        Ordering::Less
    } else if c == 0 {
        Ordering::Equal
    } else {
        Ordering::Greater
    }
}

impl Version {
    /// Compares component by component, the shorter side padded with zeros.
    pub fn compare(&self, other: &Version) -> (r: Ordering)
        ensures
            r == ordering_of(version_order(self@, other@)),
    {
        let c = self.order_value(other);
        if c < 0 {
            Ordering::Less
        } else if c == 0 {
            Ordering::Equal
        } else {
            Ordering::Greater
        }
    }
}

impl Clone for Version {
    fn clone(&self) -> (r: Self)
        ensures
            r@ == self@,
    {
        self.copy()
    }
}

impl PartialEq for Version {
    fn eq(&self, other: &Self) -> (r: bool) {
        self.order_value(other) == 0
    }
}

impl PartialEqSpecImpl for Version {
    open spec fn obeys_eq_spec() -> bool {
        true
    }

    open spec fn eq_spec(&self, other: &Self) -> bool {
        version_order(self@, other@) == 0
    }
}

impl Eq for Version {

}

impl PartialOrd for Version {
    fn partial_cmp(&self, other: &Self) -> (r: Option<Ordering>) {
        Some(self.compare(other))
    }
}

impl PartialOrdSpecImpl for Version {
    open spec fn obeys_partial_cmp_spec() -> bool {
        true
    }

    open spec fn partial_cmp_spec(&self, other: &Self) -> Option<Ordering> {
        Some(ordering_of(version_order(self@, other@)))
    }
}

/// A comparison operator.
#[derive(Debug, Clone, Copy, PartialEq, Eq, Structural)]
pub enum Op {
    Lt,
    Le,
    Eq,
    Ge,
    Gt,
}

/// A version constraint such as `>= 1.2.0`.
#[derive(Debug)]
pub struct Constraint {
    op: Op,
    version: Version,
}

impl View for Constraint {
    type V = (Op, Seq<u64>);

    closed spec fn view(&self) -> (Op, Seq<u64>) {
        (self.op, self.version@)
    }
}

/// Whether the version `v` meets the constraint `c`.
pub open spec fn admits(c: (Op, Seq<u64>), v: Seq<u64>) -> bool {
    let o = version_order(v, c.1);
    match c.0 {
        Op::Lt => o < 0,
        Op::Le => o <= 0,
        Op::Eq => o == 0,
        Op::Ge => o >= 0,
        Op::Gt => o > 0,
    }
}

/// The operator at the start of `t` and its length; two-character
/// operators are tried first, so `>=` is never read as `>`.
pub open spec fn op_prefix(t: Seq<char>) -> Option<(Op, int)> {
    if t.len() >= 2 && t[0] == '>' && t[1] == '=' {
        Some((Op::Ge, 2))
    } else if t.len() >= 2 && t[0] == '<' && t[1] == '=' {
        Some((Op::Le, 2))
    } else if t.len() >= 2 && t[0] == '=' && t[1] == '=' {
        Some((Op::Eq, 2))
    } else if t.len() >= 1 && t[0] == '>' {
        Some((Op::Gt, 1))
    } else if t.len() >= 1 && t[0] == '<' {
        Some((Op::Lt, 1))
    } else if t.len() >= 1 && t[0] == '=' {
        Some((Op::Eq, 1))
    } else {
        None
    }
}

/// What `Constraint::parse` gives for the characters `s`: after trimming,
/// an operator, then a version (trimmed again).
pub open spec fn parse_constraint_spec(s: Seq<char>) -> Option<(Op, Seq<u64>)> {
    let t = trim(s);
    match op_prefix(t) {
        None => None,
        Some((op, k)) => match parse_version_spec(trim(t.skip(k))) {
            None => None,
            Some(p) => Some((op, p)),
        },
    }
}

/// The view of an optional constraint.
pub open spec fn opt_constraint(r: Option<Constraint>) -> Option<(Op, Seq<u64>)> {
    match r {
        Some(c) => Some(c@),
        None => None,
    }
}

impl Clone for Constraint {
    fn clone(&self) -> (r: Self)
        ensures
            r@ == self@,
    {
        Constraint { op: self.op, version: self.version.copy() }
    }
}

impl Constraint {
    /// Parses a constraint such as `>= 1.2.0`.
    pub fn parse(s: &str) -> (r: Option<Constraint>)
        ensures
            opt_constraint(r) == parse_constraint_spec(s@),
    {
        let v = chars_of(s);
        let n = v.len();
        assert(v@.subrange(0, n as int) =~= s@);
        Constraint::parse_chars(&v, 0, n)
    }

    /// [`Constraint::parse`] on the characters `v[from..to]`.
    pub fn parse_chars(v: &Vec<char>, from: usize, to: usize) -> (r: Option<Constraint>)
        requires
            from <= to <= v@.len(),
        ensures
            opt_constraint(r) == parse_constraint_spec(v@.subrange(from as int, to as int)),
    {
        let (lo, hi) = trim_bounds(v, from, to);
        let ghost t = v@.subrange(lo as int, hi as int);
        let len = hi - lo;
        let c0 = if len >= 1 {
            v[lo]
        } else {
            ' '
        };
        let c1 = if len >= 2 {
            v[lo + 1]
        } else {
            ' '
        };
        let (op, k): (Op, usize) = if len >= 2 && c0 == '>' && c1 == '=' {
            (Op::Ge, 2)
        } else if len >= 2 && c0 == '<' && c1 == '=' {
            (Op::Le, 2)
        } else if len >= 2 && c0 == '=' && c1 == '=' {
            (Op::Eq, 2)
        } else if len >= 1 && c0 == '>' {
            (Op::Gt, 1)
        } else if len >= 1 && c0 == '<' {
            (Op::Lt, 1)
        } else if len >= 1 && c0 == '=' {
            (Op::Eq, 1)
        } else {
            return None;
        };
        assert(op_prefix(t) == Some((op, k as int)));
        let (vlo, vhi) = trim_bounds(v, lo + k, hi);
        assert(t.skip(k as int) =~= v@.subrange(lo + k, hi as int));
        match Version::parse_chars(v, vlo, vhi) {
            Some(version) => Some(Constraint { op, version }),
            None => None,
        }
    }

    /// Whether `v` meets this constraint.
    pub fn matches(&self, v: &Version) -> (r: bool)
        ensures
            r == admits(self@, v@),
    {
        let o = v.order_value(&self.version);
        match self.op {
            Op::Lt => o < 0,
            Op::Le => o <= 0,
            Op::Eq => o == 0,
            Op::Ge => o >= 0,
            Op::Gt => o > 0,
        }
    }
}

proof fn lemma_split2_append_plain(x: Seq<char>, y: Seq<char>, a: char, b: char)
    requires
        forall|i: int| 0 <= i < y.len() ==> #[trigger] y[i] != a && y[i] != b,
    ensures
        split2(x + y, a, b) == split2(x, a, b).update(
            split2(x, a, b).len() - 1,
            split2(x, a, b).last() + y,
        ),
    decreases y.len(),
{
    lemma_split2_nonempty(x, a, b);
    if y.len() == 0 {
        assert(x + y =~= x);
        assert(split2(x, a, b).last() + y =~= split2(x, a, b).last());
        assert(split2(x, a, b).update(split2(x, a, b).len() - 1, split2(x, a, b).last())
            =~= split2(x, a, b));
    } else {
        let y0 = y.drop_last();
        assert forall|i: int| 0 <= i < y0.len() implies #[trigger] y0[i] != a && y0[i] != b by {
            assert(y0[i] == y[i]);
        }
        lemma_split2_append_plain(x, y0, a, b);
        assert((x + y).drop_last() =~= x + y0);
        assert((x + y).last() == y.last());
        lemma_split2_nonempty(x + y0, a, b);
        let pp = split2(x, a, b);
        let q = split2(x + y0, a, b);
        assert(y.last() != a && y.last() != b);
        assert(split2(x + y, a, b) == q.update(q.len() - 1, q.last().push(y.last())));
        assert(q.len() == pp.len());
        assert(q.last() == pp.last() + y0);
        assert((pp.last() + y0).push(y.last()) =~= pp.last() + y);
        assert(split2(x + y, a, b) =~= split2(x, a, b).update(
            split2(x, a, b).len() - 1,
            split2(x, a, b).last() + y,
        ));
    }
}

proof fn lemma_decimal_plain(n: nat)
    ensures
        forall|i: int|
            0 <= i < decimal(n).len() ==> #[trigger] decimal(n)[i] != '.' && decimal(n)[i] != '-',
{
    lemma_decimal_digits(n);
    assert forall|i: int| 0 <= i < decimal(n).len() implies #[trigger] decimal(n)[i] != '.'
        && decimal(n)[i] != '-' by {
        assert(crate::text::is_digit(decimal(n)[i]));
    }
}

/// The decimal renderings of the components.
pub open spec fn decimals(p: Seq<u64>) -> Seq<Seq<char>> {
    p.map_values(|x: u64| decimal(x as nat))
}

proof fn lemma_split_dotted(p: Seq<u64>)
    requires
        p.len() >= 1,
    ensures
        split2(dotted(p), '.', '-') == decimals(p),
    decreases p.len(),
{
    let e: Seq<char> = seq![];
    lemma_decimal_plain(p.last() as nat);
    if p.len() == 1 {
        lemma_split2_append_plain(e, decimal(p[0] as nat), '.', '-');
        assert(e + decimal(p[0] as nat) =~= decimal(p[0] as nat));
        assert(split2(e, '.', '-') =~= seq![e]);
        assert(split2(dotted(p), '.', '-') =~= decimals(p));
    } else {
        let d = p.drop_last();
        lemma_split_dotted(d);
        let x = dotted(d).push('.');
        assert(x.drop_last() =~= dotted(d));
        assert(split2(x, '.', '-') == split2(dotted(d), '.', '-').push(e));
        lemma_split2_append_plain(x, decimal(p.last() as nat), '.', '-');
        assert(decimals(p) =~= decimals(d).push(decimal(p.last() as nat)));
        assert(split2(dotted(p), '.', '-') =~= decimals(p));
    }
}

proof fn lemma_parse_decimals(p: Seq<u64>)
    ensures
        parse_parts(decimals(p)) == Some(p),
    decreases p.len(),
{
    if p.len() > 0 {
        lemma_parse_decimals(p.drop_last());
        assert(decimals(p).drop_last() =~= decimals(p.drop_last()));
        lemma_parse_decimal(p.last());
        assert(p.drop_last().push(p.last()) =~= p);
    }
}

/// Writing a version and reading it back gives the same components.
pub proof fn lemma_version_round_trip(p: Seq<u64>)
    requires
        p.len() >= 1,
    ensures
        parse_version_spec(dotted(p)) == Some(p),
{
    lemma_split_dotted(p);
    lemma_parse_decimals(p);
}

/// A rendered version is made of digits and dots and ends with a digit.
pub proof fn lemma_dotted_chars(p: Seq<u64>)
    requires
        p.len() >= 1,
    ensures
        dotted(p).len() > 0,
        crate::text::is_digit(dotted(p).last()),
        forall|i: int|
            0 <= i < dotted(p).len() ==> crate::text::is_digit(#[trigger] dotted(p)[i])
                || dotted(p)[i] == '.',
    decreases p.len(),
{
    lemma_decimal_digits(p.last() as nat);
    let d = decimal(p.last() as nat);
    assert(crate::text::is_digit(d[d.len() - 1]));
    if p.len() > 1 {
        lemma_dotted_chars(p.drop_last());
        let a = dotted(p.drop_last()).push('.');
        assert forall|i: int| 0 <= i < dotted(p).len() implies crate::text::is_digit(
            #[trigger] dotted(p)[i],
        ) || dotted(p)[i] == '.' by {
            if i < a.len() {
                assert(dotted(p)[i] == a[i]);
                if i < a.len() - 1 {
                    assert(a[i] == dotted(p.drop_last())[i]);
                }
            } else {
                assert(dotted(p)[i] == d[i - a.len()]);
            }
        }
    } else {
        assert(dotted(p) == d);
    }
}

/// How the operators of a constraint relate, for all versions `v` and `w`:
/// `== w` admits exactly the versions equal to `w`, which are those both
/// `<= w` and `>= w`; `< w` admits exactly what `>= w` refuses and `> w`
/// exactly what `<= w` refuses; `<= w` is `< w` or `== w`, and `>= w` is
/// `> w` or `== w`; `v == w` holds exactly when `w == v` does; `v < w` exactly
/// when `w > v`; and every version meets `==` itself.
pub proof fn lemma_constraint_operators(v: Seq<u64>, w: Seq<u64>)
    ensures
        admits((Op::Eq, w), v) <==> version_order(v, w) == 0,
        admits((Op::Eq, w), v) <==> admits((Op::Le, w), v) && admits((Op::Ge, w), v),
        admits((Op::Lt, w), v) <==> !admits((Op::Ge, w), v),
        admits((Op::Gt, w), v) <==> !admits((Op::Le, w), v),
        admits((Op::Le, w), v) <==> admits((Op::Lt, w), v) || admits((Op::Eq, w), v),
        admits((Op::Ge, w), v) <==> admits((Op::Gt, w), v) || admits((Op::Eq, w), v),
        admits((Op::Eq, w), v) <==> admits((Op::Eq, v), w),
        admits((Op::Lt, w), v) <==> admits((Op::Gt, v), w),
        admits((Op::Le, w), v) <==> admits((Op::Ge, v), w),
        admits((Op::Eq, w), w),
{
    lemma_version_order_basics(v, w);
    lemma_version_order_basics(w, w);
}

} // verus!
