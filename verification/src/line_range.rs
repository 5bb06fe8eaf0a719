use vstd::prelude::*;

use crate::levels::LogLevel;
use crate::text::{decimal, decimal_text};

verus! {

/// The markers of the beginning of a file and of its end.
pub enum LineRangeBound {
    /// Beginning of the file.
    BOF,
    /// End of the file.
    EOF,
}

/// The line that a bound stands for.
pub open spec fn bound_line(b: LineRangeBound) -> u32 {
    match b {
        LineRangeBound::BOF => 0,
        LineRangeBound::EOF => u32::MAX,
    }
}

impl From<LineRangeBound> for u32 {
    fn from(orig: LineRangeBound) -> (r: u32) {
        match orig {
            LineRangeBound::BOF => 0,
            LineRangeBound::EOF => u32::MAX,
        }
    }
}

impl vstd::std_specs::convert::FromSpecImpl<LineRangeBound> for u32 {
    open spec fn obeys_from_spec() -> bool {
        true
    }

    open spec fn from_spec(v: LineRangeBound) -> u32 {
        bound_line(v)
    }
}

/// An inclusive range of lines.
#[derive(Clone, Copy, Debug, PartialEq, Eq, Structural, PartialOrd)]
pub struct Range {
    /// The first line of the range.
    pub from: u32,
    /// The last line of the range.
    pub to: u32,
}

/// The failure to build a range.
#[derive(Clone, Copy, Debug, PartialEq, Eq, Structural, PartialOrd)]
pub enum RangeError {
    /// The first line comes after the last one.
    InvalidRange(u32, u32),
}

/// The range holds at least one line.
pub open spec fn valid_range(r: Range) -> bool {
    r.from <= r.to
}

/// The range holds the line `x`.
pub open spec fn in_range(r: Range, x: int) -> bool {
    r.from <= x <= r.to
}

/// One of the ranges of `s` holds the line `x`.
pub open spec fn covers(s: Seq<Range>, x: int) -> bool {
    exists|i: int| 0 <= i < s.len() && #[trigger] in_range(s[i], x)
}

/// What `Range::intersects` computes.
pub open spec fn spec_intersects(a: Range, b: Range) -> bool {
    in_range(a, b.from as int) || in_range(a, b.to as int) || in_range(b, a.from as int)
}

impl RangeError {
    /// The text of the error: `Invalid range: <first> > <last>`.
    pub fn message(&self) -> (r: String)
        ensures
            match *self {
                RangeError::InvalidRange(from, to) => r@ == "Invalid range: "@ + decimal(from as nat)
                    + " > "@ + decimal(to as nat),
            },
    {
        match *self {
            RangeError::InvalidRange(from, to) => {
                let mut out = String::from_str("Invalid range: ");
                let f = decimal_text(from as u64);
                out.append(f.as_str());
                out.append(" > ");
                let t = decimal_text(to as u64);
                out.append(t.as_str());
                out
            },
        }
    }
}

impl Range {
    /// Builds the range `[from, to]`; fails when `from` comes after `to`.
    pub fn new(from: u32, to: u32) -> (r: Result<Range, RangeError>)
        ensures
            from > to ==> r == Err::<Range, RangeError>(RangeError::InvalidRange(from, to)),
            from <= to ==> r == Ok::<Range, RangeError>(Range { from, to }),
    {
        if from > to {
            Err(RangeError::InvalidRange(from, to))
        } else {
            Ok(Range { from: from, to: to })
        }
    }

    /// The range holds the line `point`.
    pub fn contains_point(&self, point: u32) -> (r: bool)
        ensures
            r == in_range(*self, point as int),
    {
        point >= self.from && point <= self.to
    }

    /// The two ranges share a line (for valid ranges; see `lemma_intersects`).
    pub fn intersects(&self, other: &Range) -> (r: bool)
        ensures
            r == spec_intersects(*self, *other),
    {
        self.contains_point(other.from) || self.contains_point(other.to) || other.contains_point(
            self.from,
        )
    }
}

/// Two valid ranges intersect exactly when some line lies in both, so
/// intersection is symmetric.
pub proof fn lemma_intersects(a: Range, b: Range)
    requires
        valid_range(a),
        valid_range(b),
    ensures
        spec_intersects(a, b) <==> (exists|x: int| in_range(a, x) && in_range(b, x)),
        spec_intersects(a, b) == spec_intersects(b, a),
{
    if spec_intersects(a, b) {
        if in_range(a, b.from as int) {
            assert(in_range(b, b.from as int));
        } else if in_range(a, b.to as int) {
            assert(in_range(b, b.to as int));
        } else {
            assert(in_range(a, a.from as int));
        }
    }
}

/// A log level given to a range of lines.
#[derive(Clone, Copy, Debug, PartialEq, Eq, Structural, PartialOrd)]
pub struct LineRangeSpec {
    /// The level of the lines.
    pub level: LogLevel,
    /// The lines.
    pub range: Range,
}

impl LineRangeSpec {
    /// Gives `level` to the lines of `range`.
    pub fn new(level: LogLevel, range: Range) -> (r: LineRangeSpec)
        ensures
            r == (LineRangeSpec { level, range }),
    {
        LineRangeSpec { level: level, range: range }
    }

    /// The spec holds the line `line`.
    pub fn contains(&self, line: u32) -> (r: bool)
        ensures
            r == in_range(self.range, line as int),
    {
        self.range.contains_point(line)
    }
}


/// Every range of `s` is valid.
pub open spec fn all_valid(s: Seq<Range>) -> bool {
    forall|i: int| 0 <= i < s.len() ==> valid_range(#[trigger] s[i])
}

/// The ranges of `s` come in the order of their first lines.
pub open spec fn sorted_by_from(s: Seq<Range>) -> bool {
    forall|i: int, j: int| 0 <= i < j < s.len() ==> (#[trigger] s[i]).from <= (#[trigger] s[j]).from
}

/// The ranges of `s` come in order, each ending before the next one starts.
pub open spec fn separated(s: Seq<Range>) -> bool {
    forall|i: int, j: int| 0 <= i < j < s.len() ==> (#[trigger] s[i]).to < (#[trigger] s[j]).from
}

/// `x` put into `s` after the last range whose first line is not after `x`'s.
pub open spec fn insert_by_from(s: Seq<Range>, x: Range) -> Seq<Range>
    decreases s.len(),
{
    if s.len() == 0 {
        seq![x]
    } else if s.last().from <= x.from {
        s.push(x)
    } else {
        insert_by_from(s.drop_last(), x).push(s.last())
    }
}

/// The stable sort of `s` by first line.
pub open spec fn sort_by_from(s: Seq<Range>) -> Seq<Range>
    decreases s.len(),
{
    if s.len() == 0 {
        s
    } else {
        insert_by_from(sort_by_from(s.drop_last()), s.last())
    }
}

/// The larger of two lines.
pub open spec fn max_line(a: u32, b: u32) -> u32 {
    if a < b {
        b
    } else {
        a
    }
}

/// Joins `prev` with the following sorted ranges as long as they share a line
/// with it, and goes on from the first one that does not.
pub open spec fn merge_from(prev: Range, rest: Seq<Range>) -> Seq<Range>
    decreases rest.len(),
{
    if rest.len() == 0 {
        seq![prev]
    } else if prev.to >= rest[0].from {
        merge_from(Range { from: prev.from, to: max_line(prev.to, rest[0].to) }, rest.drop_first())
    } else {
        seq![prev] + merge_from(rest[0], rest.drop_first())
    }
}

/// Joins the ranges of a sorted sequence that share lines.
pub open spec fn merge_sorted(s: Seq<Range>) -> Seq<Range> {
    if s.len() == 0 {
        Seq::empty()
    } else {
        merge_from(s[0], s.drop_first())
    }
}

/// The range of every line of a file.
pub open spec fn whole_file(r: Range) -> bool {
    r.from == 0 && r.to == u32::MAX
}

/// What `merge_ranges` gives: the ranges sorted by first line and joined where
/// they share lines; with `squash`, a single range of the whole file becomes
/// no range at all.
pub open spec fn spec_merge_ranges(s: Seq<Range>, squash: bool) -> Seq<Range> {
    let m = merge_sorted(sort_by_from(s));
    if squash && m.len() == 1 && whole_file(m[0]) {
        Seq::empty()
    } else {
        m
    }
}

proof fn lemma_insert_prefix(s: Seq<Range>, x: Range, j: int)
    requires
        0 <= j <= s.len(),
        forall|k: int| j <= k < s.len() ==> (#[trigger] s[k]).from > x.from,
    ensures
        insert_by_from(s, x) == insert_by_from(s.take(j), x) + s.skip(j),
    decreases s.len() - j,
{
    if j == s.len() {
        assert(s.take(j) =~= s);
        assert(s.skip(j) =~= Seq::<Range>::empty());
        assert(insert_by_from(s.take(j), x) + s.skip(j) =~= insert_by_from(s.take(j), x));
    } else {
        let d = s.drop_last();
        lemma_insert_prefix(d, x, j);
        assert(d.take(j) =~= s.take(j));
        assert(d.skip(j).push(s.last()) =~= s.skip(j));
        assert(insert_by_from(s, x) == insert_by_from(d, x).push(s.last()));
        assert((insert_by_from(d.take(j), x) + d.skip(j)).push(s.last()) =~= insert_by_from(
            d.take(j),
            x,
        ) + d.skip(j).push(s.last()));
    }
}

/// Inserting keeps the elements and the order by first line.
proof fn lemma_insert_props(s: Seq<Range>, x: Range)
    ensures
        insert_by_from(s, x).len() == s.len() + 1,
        forall|r: Range| #[trigger] insert_by_from(s, x).contains(r) <==> (s.contains(r) || r == x),
        sorted_by_from(s) ==> sorted_by_from(insert_by_from(s, x)),
    decreases s.len(),
{
    let t = insert_by_from(s, x);
    if s.len() == 0 {
        assert forall|r: Range| t.contains(r) <==> (s.contains(r) || r == x) by {
            if t.contains(r) {
                assert(t[0] == x);
            }
            if r == x {
                assert(t[0] == x);
            }
        }
    } else if s.last().from <= x.from {
        assert forall|r: Range| t.contains(r) <==> (s.contains(r) || r == x) by {
            if t.contains(r) {
                let k = choose|k: int| 0 <= k < t.len() && t[k] == r;
                if k < s.len() {
                    assert(s[k] == r);
                }
            }
            if s.contains(r) {
                let k = choose|k: int| 0 <= k < s.len() && s[k] == r;
                assert(t[k] == r);
            }
            if r == x {
                assert(t[s.len() as int] == x);
            }
        }
    } else {
        let d = s.drop_last();
        let u = insert_by_from(d, x);
        lemma_insert_props(d, x);
        assert(t == u.push(s.last()));
        assert forall|r: Range| t.contains(r) <==> (s.contains(r) || r == x) by {
            if t.contains(r) {
                let k = choose|k: int| 0 <= k < t.len() && t[k] == r;
                if k < u.len() {
                    assert(u[k] == r);
                    assert(u.contains(r));
                    if d.contains(r) {
                        let m = choose|m: int| 0 <= m < d.len() && d[m] == r;
                        assert(s[m] == r);
                    }
                } else {
                    assert(s[s.len() - 1] == r);
                }
            }
            if s.contains(r) {
                let k = choose|k: int| 0 <= k < s.len() && s[k] == r;
                if k < s.len() - 1 {
                    assert(d[k] == r);
                    assert(d.contains(r));
                    assert(u.contains(r));
                    let m = choose|m: int| 0 <= m < u.len() && u[m] == r;
                    assert(t[m] == r);
                } else {
                    assert(t[t.len() - 1] == r);
                }
            }
            if r == x {
                assert(u.contains(x));
                let m = choose|m: int| 0 <= m < u.len() && u[m] == x;
                assert(t[m] == x);
            }
        }
        if sorted_by_from(s) {
            assert(sorted_by_from(d));
            assert forall|i: int, j: int| 0 <= i < j < t.len() implies (#[trigger] t[i]).from <= (
            #[trigger] t[j]).from by {
                if j == t.len() - 1 {
                    assert(u.contains(u[i]));
                    if d.contains(u[i]) {
                        let m = choose|m: int| 0 <= m < d.len() && d[m] == u[i];
                        assert(s[m] == d[m]);
                    }
                } else {
                    assert(t[i] == u[i] && t[j] == u[j]);
                }
            }
        }
    }
}

/// Sorting keeps the elements and orders them by first line.
proof fn lemma_sort_props(s: Seq<Range>)
    ensures
        sort_by_from(s).len() == s.len(),
        forall|r: Range| #[trigger] sort_by_from(s).contains(r) <==> s.contains(r),
        sorted_by_from(sort_by_from(s)),
    decreases s.len(),
{
    if s.len() > 0 {
        let d = s.drop_last();
        lemma_sort_props(d);
        lemma_insert_props(sort_by_from(d), s.last());
        assert forall|r: Range| sort_by_from(s).contains(r) <==> s.contains(r) by {
            if d.contains(r) {
                let m = choose|m: int| 0 <= m < d.len() && d[m] == r;
                assert(s[m] == r);
            }
            if s.contains(r) {
                let k = choose|k: int| 0 <= k < s.len() && s[k] == r;
                if k < s.len() - 1 {
                    assert(d[k] == r);
                }
            }
        }
    }
}

proof fn lemma_contains_covers(s: Seq<Range>, t: Seq<Range>)
    requires
        forall|r: Range| s.contains(r) <==> t.contains(r),
    ensures
        forall|x: int| covers(s, x) <==> covers(t, x),
        all_valid(s) <==> all_valid(t),
{
    assert forall|x: int| covers(s, x) implies covers(t, x) by {
        let i = choose|i: int| 0 <= i < s.len() && #[trigger] in_range(s[i], x);
        assert(s.contains(s[i]));
        let k = choose|k: int| 0 <= k < t.len() && t[k] == s[i];
        assert(in_range(t[k], x));
    }
    assert forall|x: int| covers(t, x) implies covers(s, x) by {
        let i = choose|i: int| 0 <= i < t.len() && #[trigger] in_range(t[i], x);
        assert(t.contains(t[i]));
        let k = choose|k: int| 0 <= k < s.len() && s[k] == t[i];
        assert(in_range(s[k], x));
    }
    if all_valid(s) {
        assert forall|i: int| 0 <= i < t.len() implies valid_range(#[trigger] t[i]) by {
            assert(t.contains(t[i]));
            let k = choose|k: int| 0 <= k < s.len() && s[k] == t[i];
        }
    }
    if all_valid(t) {
        assert forall|i: int| 0 <= i < s.len() implies valid_range(#[trigger] s[i]) by {
            assert(s.contains(s[i]));
            let k = choose|k: int| 0 <= k < t.len() && t[k] == s[i];
        }
    }
}

/// Joining keeps the lines covered, and leaves valid ranges, each ending before
/// the next one starts.
proof fn lemma_merge_from(prev: Range, rest: Seq<Range>)
    requires
        valid_range(prev),
        all_valid(rest),
        sorted_by_from(rest),
        rest.len() > 0 ==> prev.from <= rest[0].from,
    ensures
        merge_from(prev, rest).len() > 0,
        merge_from(prev, rest)[0].from == prev.from,
        all_valid(merge_from(prev, rest)),
        separated(merge_from(prev, rest)),
        forall|x: int| covers(merge_from(prev, rest), x) <==> (in_range(prev, x) || covers(rest, x)),
    decreases rest.len(),
{
    let out = merge_from(prev, rest);
    if rest.len() == 0 {
        assert forall|x: int| covers(out, x) <==> (in_range(prev, x) || covers(rest, x)) by {
            if in_range(prev, x) {
                assert(in_range(out[0], x));
            }
        }
    } else {
        let r0 = rest[0];
        let tail = rest.drop_first();
        assert(sorted_by_from(tail));
        assert(all_valid(tail));
        if prev.to >= r0.from {
            let p2 = Range { from: prev.from, to: max_line(prev.to, r0.to) };
            if tail.len() > 0 {
                assert(rest[1] == tail[0]);
            }
            lemma_merge_from(p2, tail);
            assert forall|x: int| covers(out, x) <==> (in_range(prev, x) || covers(rest, x)) by {
                assert(in_range(p2, x) <==> (in_range(prev, x) || in_range(r0, x)));
                if in_range(r0, x) {
                    assert(in_range(rest[0], x));
                }
                if covers(tail, x) {
                    let i = choose|i: int| 0 <= i < tail.len() && #[trigger] in_range(tail[i], x);
                    assert(in_range(rest[i + 1], x));
                }
                if covers(rest, x) {
                    let i = choose|i: int| 0 <= i < rest.len() && #[trigger] in_range(rest[i], x);
                    if i > 0 {
                        assert(in_range(tail[i - 1], x));
                    }
                }
            }
        } else {
            let m = merge_from(r0, tail);
            if tail.len() > 0 {
                assert(rest[1] == tail[0]);
            }
            lemma_merge_from(r0, tail);
            assert(out == seq![prev] + m);
            assert forall|i: int, j: int| 0 <= i < j < out.len() implies (#[trigger] out[i]).to < (
            #[trigger] out[j]).from by {
                if i == 0 {
                    assert(out[j] == m[j - 1]);
                    if j > 1 {
                        assert(m[0].to < m[j - 1].from);
                    }
                } else {
                    assert(out[i] == m[i - 1] && out[j] == m[j - 1]);
                }
            }
            assert forall|i: int| 0 <= i < out.len() implies valid_range(#[trigger] out[i]) by {
                if i > 0 {
                    assert(out[i] == m[i - 1]);
                }
            }
            assert forall|x: int| covers(out, x) <==> (in_range(prev, x) || covers(rest, x)) by {
                if covers(out, x) {
                    let i = choose|i: int| 0 <= i < out.len() && #[trigger] in_range(out[i], x);
                    if i > 0 {
                        assert(in_range(m[i - 1], x));
                    }
                }
                if in_range(prev, x) {
                    assert(in_range(out[0], x));
                }
                if covers(m, x) {
                    let i = choose|i: int| 0 <= i < m.len() && #[trigger] in_range(m[i], x);
                    assert(in_range(out[i + 1], x));
                }
                if covers(tail, x) {
                    let i = choose|i: int| 0 <= i < tail.len() && #[trigger] in_range(tail[i], x);
                    assert(in_range(rest[i + 1], x));
                }
                if covers(rest, x) {
                    let i = choose|i: int| 0 <= i < rest.len() && #[trigger] in_range(rest[i], x);
                    if i > 0 {
                        assert(in_range(tail[i - 1], x));
                    }
                }
            }
        }
    }
}

/// Merging valid ranges gives valid ranges in order, each ending before the
/// next one starts, that cover exactly the lines of the given ones; with
/// `squash`, no range at all stands for ranges that cover the whole file.
pub proof fn lemma_merge_ranges(s: Seq<Range>, squash: bool)
    requires
        all_valid(s),
    ensures
        all_valid(spec_merge_ranges(s, squash)),
        separated(spec_merge_ranges(s, squash)),
        spec_merge_ranges(s, squash).len() == 0 && s.len() > 0 ==> squash && forall|x: int|
            0 <= x <= u32::MAX ==> covers(s, x),
        spec_merge_ranges(s, squash).len() > 0 || s.len() == 0 ==> forall|x: int|
            covers(spec_merge_ranges(s, squash), x) <==> covers(s, x),
{
    let t = sort_by_from(s);
    lemma_sort_props(s);
    lemma_contains_covers(s, t);
    let m = merge_sorted(t);
    if t.len() > 0 {
        let tail = t.drop_first();
        assert(sorted_by_from(tail));
        assert(all_valid(tail));
        assert(valid_range(t[0]));
        if tail.len() > 0 {
            assert(t[1] == tail[0]);
        }
        lemma_merge_from(t[0], tail);
        assert forall|x: int| covers(m, x) <==> covers(t, x) by {
            if covers(tail, x) {
                let i = choose|i: int| 0 <= i < tail.len() && #[trigger] in_range(tail[i], x);
                assert(in_range(t[i + 1], x));
            }
            if covers(t, x) {
                let i = choose|i: int| 0 <= i < t.len() && #[trigger] in_range(t[i], x);
                if i > 0 {
                    assert(in_range(tail[i - 1], x));
                }
            }
        }
        if squash && m.len() == 1 && whole_file(m[0]) {
            assert forall|x: int| 0 <= x <= u32::MAX implies covers(s, x) by {
                assert(in_range(m[0], x));
            }
        }
    } else {
        assert(s.len() == 0);
        assert forall|x: int| covers(spec_merge_ranges(s, squash), x) <==> covers(s, x) by {}
    }
}


/// Puts `x` into `v`, after the last range whose first line is not after `x`'s.
fn insert_by_first_line(v: &mut Vec<Range>, x: Range)
    ensures
        final(v)@ == insert_by_from(old(v)@, x),
{
    let ghost s = v@;
    v.push(x);
    let mut j: usize = v.len() - 1;
    while j > 0 && v[j - 1].from > x.from
        invariant
            j <= s.len(),
            v@ == s.take(j as int) + seq![x] + s.skip(j as int),
            forall|k: int| j <= k < s.len() ==> (#[trigger] s[k]).from > x.from,
        decreases j,
    {
        let a = v[j - 1];
        assert(a == s[j - 1]);
        v.set(j - 1, x);
        v.set(j, a);
        assert(v@ =~= s.take(j - 1) + seq![x] + s.skip(j - 1));
        j = j - 1;
    }
    proof {
        lemma_insert_prefix(s, x, j as int);
        let p = s.take(j as int);
        if j > 0 {
            assert(p.last() == s[j - 1]);
            assert(p.drop_last().push(p.last()) =~= p);
        }
        assert(insert_by_from(p, x) =~= p.push(x));
        assert(v@ =~= p.push(x) + s.skip(j as int));
    }
}

/// The stable sort of the ranges by first line.
fn sort_ranges(lranges: &[Range]) -> (r: Vec<Range>)
    ensures
        r@ == sort_by_from(lranges@),
{
    let mut out: Vec<Range> = Vec::new();
    let mut i: usize = 0;
    while i < lranges.len()
        invariant
            i <= lranges@.len(),
            out@ == sort_by_from(lranges@.take(i as int)),
        decreases lranges@.len() - i,
    {
        insert_by_first_line(&mut out, lranges[i]);
        proof {
            let t = lranges@.take(i + 1);
            assert(t.drop_last() =~= lranges@.take(i as int));
            assert(t.last() == lranges@[i as int]);
        }
        i = i + 1;
    }
    assert(lranges@.take(lranges@.len() as int) =~= lranges@);
    out
}

/// Sorts the ranges by first line and joins those that share lines; with
/// `squash`, a single range of the whole file becomes no range at all.
pub fn merge_ranges(lranges: &[Range], squash: bool) -> (r: Vec<Range>)
    ensures
        r@ == spec_merge_ranges(lranges@, squash),
{
    if lranges.len() == 0 {
        assert(sort_by_from(lranges@) =~= lranges@);
        return Vec::new();
    }
    let sorted = sort_ranges(lranges);
    proof {
        lemma_sort_props(lranges@);
    }
    let mut merged: Vec<Range> = Vec::new();
    let mut prev = sorted[0];
    let mut i: usize = 1;
    while i < sorted.len()
        invariant
            1 <= i <= sorted@.len(),
            merged@ + merge_from(prev, sorted@.skip(i as int)) == merge_sorted(sorted@),
        decreases sorted@.len() - i,
    {
        let item = sorted[i];
        let ghost rest = sorted@.skip(i as int);
        assert(rest[0] == item);
        assert(rest.drop_first() =~= sorted@.skip(i + 1));
        if prev.to >= item.from {
            if prev.to < item.to {
                prev.to = item.to;
            }
        } else {
            assert(merged@ + merge_from(prev, rest) =~= merged@.push(prev) + merge_from(
                item,
                sorted@.skip(i + 1),
            ));
            merged.push(prev);
            prev = item;
        }
        i = i + 1;
    }
    assert(sorted@.skip(i as int) =~= Seq::<Range>::empty());
    assert(sorted@.skip(1) =~= sorted@.drop_first());
    merged.push(prev);
    if squash && merged.len() == 1 {
        let first = merged[0];
        if first.from == 0 && first.to == u32::MAX {
            merged.clear();
        }
    }
    merged
}

/// The specs that give `level` to each of the ranges.
pub open spec fn with_level(level: LogLevel, rs: Seq<Range>) -> Seq<LineRangeSpec> {
    Seq::new(rs.len(), |i: int| LineRangeSpec { level, range: rs[i] })
}

/// Gives `level` to the merged ranges; no range at all stands for the whole file.
pub fn spec(level: LogLevel, lranges: &[Range]) -> (r: Result<Vec<LineRangeSpec>, RangeError>)
    ensures
        r matches Ok(v) && v@ == with_level(level, spec_merge_ranges(lranges@, true)),
{
    if lranges.len() == 0 {
        let v: Vec<LineRangeSpec> = Vec::new();
        assert(sort_by_from(lranges@) =~= lranges@);
        assert(v@ =~= with_level(level, spec_merge_ranges(lranges@, true)));
        return Ok(v);
    }
    let merged = merge_ranges(lranges, true);
    let v = specs_with_level(level, &merged);
    Ok(v)
}

fn specs_with_level(level: LogLevel, rs: &Vec<Range>) -> (r: Vec<LineRangeSpec>)
    ensures
        r@ == with_level(level, rs@),
{
    let mut out: Vec<LineRangeSpec> = Vec::new();
    let mut i: usize = 0;
    while i < rs.len()
        invariant
            i <= rs@.len(),
            out@ == with_level(level, rs@.take(i as int)),
        decreases rs@.len() - i,
    {
        out.push(LineRangeSpec::new(level, rs[i]));
        i = i + 1;
        assert(out@ =~= with_level(level, rs@.take(i as int)));
    }
    assert(rs@.take(rs@.len() as int) =~= rs@);
    out
}


/// What `__push` leaves: the ranges merged and given `level`, joined with the
/// last spec when that spec has the same level.
pub open spec fn spec_push(merged: Seq<LineRangeSpec>, level: LogLevel, ranges: Seq<Range>) -> Seq<
    LineRangeSpec,
> {
    if merged.len() > 0 && merged.last().level == level {
        merged.drop_last() + with_level(
            level,
            spec_merge_ranges(ranges.push(merged.last().range), false),
        )
    } else {
        merged + with_level(level, spec_merge_ranges(ranges, false))
    }
}

/// Appends the ranges with `level` to `merged`, joining them with the last
/// spec when that spec has the same level.
fn __push(merged: &mut Vec<LineRangeSpec>, level: LogLevel, ranges: Vec<Range>)
    ensures
        final(merged)@ == spec_push(old(merged)@, level, ranges@),
{
    let mut ranges = ranges;
    if merged.len() > 0 && merged[merged.len() - 1].level == level {
        let last = merged.pop().unwrap();
        ranges.push(last.range);
    }
    let rs = merge_ranges(&ranges, false);
    let ghost start = merged@;
    let mut i: usize = 0;
    while i < rs.len()
        invariant
            i <= rs@.len(),
            merged@ == start + with_level(level, rs@.take(i as int)),
        decreases rs@.len() - i,
    {
        merged.push(LineRangeSpec::new(level, rs[i]));
        i = i + 1;
        assert(merged@ =~= start + with_level(level, rs@.take(i as int)));
    }
    assert(rs@.take(rs@.len() as int) =~= rs@);
}

/// The part of `r` after the line `x`.
pub open spec fn after(l: LineRangeSpec, x: u32) -> LineRangeSpec {
    LineRangeSpec { level: l.level, range: Range { from: (x + 1) as u32, to: l.range.to } }
}

/// The part of `r` before the line `x`.
pub open spec fn before(r: Range, x: u32) -> Range {
    Range { from: r.from, to: (x - 1) as u32 }
}

/// The walk of `merge_spec` over the specs left of `o` (whose head may have
/// been cut) and of `n`, with `merged` built so far.
pub open spec fn overlay_from(
    merged: Seq<LineRangeSpec>,
    o: Seq<LineRangeSpec>,
    n: Seq<LineRangeSpec>,
) -> Seq<LineRangeSpec>
    decreases o.len() + n.len(),
{
    if o.len() == 0 && n.len() == 0 {
        merged
    } else if o.len() == 0 {
        overlay_from(spec_push(merged, n[0].level, seq![n[0].range]), o, n.drop_first())
    } else if n.len() == 0 {
        overlay_from(spec_push(merged, o[0].level, seq![o[0].range]), o.drop_first(), n)
    } else {
        let oi = o[0];
        let ni = n[0];
        let oir = oi.range;
        let nir = ni.range;
        if oi.level == ni.level {
            overlay_from(
                spec_push(merged, oi.level, seq![oir, nir]),
                o.drop_first(),
                n.drop_first(),
            )
        } else if spec_intersects(oir, nir) {
            if nir.from <= oir.from && nir.to >= oir.to {
                overlay_from(merged, o.drop_first(), n)
            } else if nir.from >= oir.from && nir.to <= oir.to {
                let m1 = if nir.from > oir.from {
                    spec_push(merged, oi.level, seq![before(oir, nir.from)])
                } else {
                    merged
                };
                let m2 = spec_push(m1, ni.level, seq![nir]);
                if nir.to < oir.to {
                    overlay_from(m2, o.update(0, after(oi, nir.to)), n.drop_first())
                } else {
                    overlay_from(m2, o.drop_first(), n.drop_first())
                }
            } else if nir.from <= oir.from {
                overlay_from(
                    spec_push(merged, ni.level, seq![nir]),
                    o.update(0, after(oi, nir.to)),
                    n.drop_first(),
                )
            } else {
                overlay_from(
                    spec_push(merged, oi.level, seq![before(oir, nir.from)]),
                    o.drop_first(),
                    n,
                )
            }
        } else if oir.from < nir.from {
            overlay_from(spec_push(merged, oi.level, seq![oir]), o.drop_first(), n)
        } else {
            overlay_from(spec_push(merged, ni.level, seq![nir]), o, n.drop_first())
        }
    }
}

/// What is left of `orig` from index `i`, with its head replaced by `cur`.
pub open spec fn orig_rest(cur: LineRangeSpec, orig: Seq<LineRangeSpec>, i: int) -> Seq<
    LineRangeSpec,
> {
    if i < orig.len() {
        seq![cur] + orig.skip(i + 1)
    } else {
        Seq::empty()
    }
}

fn one(a: Range) -> (r: Vec<Range>)
    ensures
        r@ == seq![a],
{
    let mut v: Vec<Range> = Vec::new();
    v.push(a);
    assert(v@ =~= seq![a]);
    v
}

fn two(a: Range, b: Range) -> (r: Vec<Range>)
    ensures
        r@ == seq![a, b],
{
    let mut v: Vec<Range> = Vec::new();
    v.push(a);
    v.push(b);
    assert(v@ =~= seq![a, b]);
    v
}

proof fn lemma_sort_sorted_is_same(x: Seq<Range>)
    requires
        sorted_by_from(x),
    ensures
        sort_by_from(x) == x,
    decreases x.len(),
{
    if x.len() > 0 {
        let d = x.drop_last();
        assert(sorted_by_from(d));
        lemma_sort_sorted_is_same(d);
        if d.len() > 0 {
            assert(d.last() == x[x.len() - 2]);
        }
        assert(d.push(x.last()) =~= x);
    }
}

proof fn lemma_merge_from_apart(p: Range, r: Seq<Range>)
    requires
        separated(seq![p] + r),
    ensures
        merge_from(p, r) == seq![p] + r,
    decreases r.len(),
{
    if r.len() > 0 {
        let x = seq![p] + r;
        assert(x[0] == p && x[1] == r[0]);
        let t = r.drop_first();
        assert forall|i: int, j: int| 0 <= i < j < (seq![r[0]] + t).len() implies (#[trigger] (seq![r[0]] + t)[i]).to
            < (#[trigger] (seq![r[0]] + t)[j]).from by {
            assert((seq![r[0]] + t)[i] == x[i + 1] && (seq![r[0]] + t)[j] == x[j + 1]);
        }
        lemma_merge_from_apart(r[0], t);
        assert(seq![p] + (seq![r[0]] + t) =~= seq![p] + r);
    } else {
        assert(seq![p] + r =~= seq![p]);
    }
}

/// Some range of `s` holds both the line `y` and the next one.
pub open spec fn bridges(s: Seq<Range>, y: int) -> bool {
    exists|j: int| 0 <= j < s.len() && (#[trigger] s[j]).from <= y && y < s[j].to
}

proof fn lemma_merge_from_bridges(src: Seq<Range>, prev: Range, rest: Seq<Range>)
    requires
        forall|y: int| prev.from <= y < prev.to ==> #[trigger] bridges(src, y),
        forall|k: int| 0 <= k < rest.len() ==> src.contains(#[trigger] rest[k]),
    ensures
        forall|i: int, y: int|
            #![trigger bridges(src, y), merge_from(prev, rest)[i]]
            0 <= i < merge_from(prev, rest).len() && merge_from(prev, rest)[i].from <= y
                < merge_from(prev, rest)[i].to ==> bridges(src, y),
    decreases rest.len(),
{
    if rest.len() > 0 {
        let tail = rest.drop_first();
        assert forall|k: int| 0 <= k < tail.len() implies src.contains(#[trigger] tail[k]) by {
            assert(tail[k] == rest[k + 1]);
        }
        assert(src.contains(rest[0]));
        let j0 = choose|j: int| 0 <= j < src.len() && src[j] == rest[0];
        if prev.to >= rest[0].from {
            let np = Range { from: prev.from, to: max_line(prev.to, rest[0].to) };
            assert forall|y: int| np.from <= y < np.to implies #[trigger] bridges(src, y) by {
                if y >= prev.to {
                    assert(src[j0].from <= y && y < src[j0].to);
                }
            }
            lemma_merge_from_bridges(src, np, tail);
            assert(merge_from(prev, rest) == merge_from(np, tail));
        } else {
            assert forall|y: int| rest[0].from <= y < rest[0].to implies #[trigger] bridges(src, y) by {
                assert(src[j0].from <= y && y < src[j0].to);
            }
            lemma_merge_from_bridges(src, rest[0], tail);
            let g = merge_from(rest[0], tail);
            assert(merge_from(prev, rest) == seq![prev] + g);
            assert forall|i: int, y: int|
                #![trigger bridges(src, y), merge_from(prev, rest)[i]]
                0 <= i < merge_from(prev, rest).len() && merge_from(prev, rest)[i].from <= y
                    < merge_from(prev, rest)[i].to implies bridges(src, y) by {
                if i > 0 {
                    assert(merge_from(prev, rest)[i] == g[i - 1]);
                } else {
                    assert(merge_from(prev, rest)[i] == prev);
                }
            }
        }
    } else {
        assert(merge_from(prev, rest) == seq![prev]);
        assert forall|i: int, y: int|
            #![trigger bridges(src, y), merge_from(prev, rest)[i]]
            0 <= i < merge_from(prev, rest).len() && merge_from(prev, rest)[i].from <= y
                < merge_from(prev, rest)[i].to implies bridges(src, y) by {
            assert(merge_from(prev, rest)[i] == prev);
        }
    }
}

/// Merging joins only ranges that share lines: two lines next to each other
/// end up in one merged range only where a given range holds both, so ranges
/// that merely touch, such as 10..20 and 21..30, stay apart.
pub proof fn lemma_merge_ranges_bridges(s: Seq<Range>, squash: bool)
    ensures
        forall|i: int, y: int|
            #![trigger bridges(s, y), spec_merge_ranges(s, squash)[i]]
            0 <= i < spec_merge_ranges(s, squash).len() && spec_merge_ranges(s, squash)[i].from <= y
                < spec_merge_ranges(s, squash)[i].to ==> bridges(s, y),
{
    let t = sort_by_from(s);
    lemma_sort_props(s);
    if t.len() > 0 {
        let rest = t.drop_first();
        assert forall|k: int| 0 <= k < rest.len() implies s.contains(#[trigger] rest[k]) by {
            assert(rest[k] == t[k + 1]);
            assert(t.contains(t[k + 1]));
        }
        assert(t.contains(t[0]));
        let j0 = choose|j: int| 0 <= j < s.len() && s[j] == t[0];
        assert forall|y: int| t[0].from <= y < t[0].to implies #[trigger] bridges(s, y) by {
            assert(s[j0].from <= y && y < s[j0].to);
        }
        lemma_merge_from_bridges(s, t[0], rest);
    }
}

proof fn lemma_merge_from_holds(prev: Range, rest: Seq<Range>)
    requires
        forall|k: int| 0 <= k < rest.len() ==> prev.from <= (#[trigger] rest[k]).from,
        sorted_by_from(rest),
    ensures
        exists|i: int|
            0 <= i < merge_from(prev, rest).len() && (#[trigger] merge_from(prev, rest)[i]).from <= prev.from
                && prev.to <= merge_from(prev, rest)[i].to,
        forall|k: int|
            0 <= k < rest.len() ==> exists|i: int|
                0 <= i < merge_from(prev, rest).len() && merge_from(prev, rest)[i].from <= (
                #[trigger] rest[k]).from && rest[k].to <= merge_from(prev, rest)[i].to,
    decreases rest.len(),
{
    if rest.len() == 0 {
        assert(merge_from(prev, rest)[0] == prev);
    } else {
        let tail = rest.drop_first();
        assert(sorted_by_from(tail));
        if prev.to >= rest[0].from {
            let np = Range { from: prev.from, to: max_line(prev.to, rest[0].to) };
            assert forall|k: int| 0 <= k < tail.len() implies np.from <= (#[trigger] tail[k]).from by {
                assert(tail[k] == rest[k + 1]);
            }
            lemma_merge_from_holds(np, tail);
            let g = merge_from(np, tail);
            assert(merge_from(prev, rest) == g);
            let i0 = choose|i: int| 0 <= i < g.len() && (#[trigger] g[i]).from <= np.from && np.to <= g[i].to;
            assert forall|k: int| 0 <= k < rest.len() implies exists|i: int|
                0 <= i < g.len() && g[i].from <= (#[trigger] rest[k]).from && rest[k].to <= g[i].to by {
                if k == 0 {
                    assert(g[i0].from <= rest[0].from && rest[0].to <= g[i0].to);
                } else {
                    assert(rest[k] == tail[k - 1]);
                }
            }
        } else {
            assert forall|k: int| 0 <= k < tail.len() implies rest[0].from <= (#[trigger] tail[k]).from by {
                assert(tail[k] == rest[k + 1]);
            }
            lemma_merge_from_holds(rest[0], tail);
            let g = merge_from(rest[0], tail);
            let r = merge_from(prev, rest);
            assert(r == seq![prev] + g);
            assert(r[0] == prev);
            assert forall|k: int| 0 <= k < rest.len() implies exists|i: int|
                0 <= i < r.len() && r[i].from <= (#[trigger] rest[k]).from && rest[k].to <= r[i].to by {
                if k == 0 {
                    let i = choose|i: int| 0 <= i < g.len() && (#[trigger] g[i]).from <= rest[0].from && rest[0].to <= g[i].to;
                    assert(r[i + 1] == g[i]);
                } else {
                    assert(rest[k] == tail[k - 1]);
                    let i = choose|i: int| 0 <= i < g.len() && g[i].from <= (#[trigger] tail[k - 1]).from && tail[k - 1].to <= g[i].to;
                    assert(r[i + 1] == g[i]);
                }
            }
        }
    }
}

/// Without squashing, the merged ranges hold two lines next to each other
/// exactly where a given range holds both.
proof fn lemma_merge_bridges_exactly(s: Seq<Range>)
    ensures
        forall|y: int| #[trigger] bridges(spec_merge_ranges(s, false), y) == bridges(s, y),
{
    let m = spec_merge_ranges(s, false);
    lemma_merge_ranges_bridges(s, false);
    let t = sort_by_from(s);
    lemma_sort_props(s);
    assert forall|y: int| #[trigger] bridges(m, y) == bridges(s, y) by {
        if bridges(m, y) {
            let i = choose|i: int| 0 <= i < m.len() && (#[trigger] m[i]).from <= y && y < m[i].to;
        }
        if bridges(s, y) {
            let j = choose|j: int| 0 <= j < s.len() && (#[trigger] s[j]).from <= y && y < s[j].to;
            assert(s.contains(s[j]));
            assert(t.contains(s[j]));
            let k = choose|k: int| 0 <= k < t.len() && t[k] == s[j];
            let rest = t.drop_first();
            assert forall|q: int| 0 <= q < rest.len() implies t[0].from <= (#[trigger] rest[q]).from by {
                assert(rest[q] == t[q + 1]);
            }
            assert(sorted_by_from(rest));
            lemma_merge_from_holds(t[0], rest);
            assert(m == merge_from(t[0], rest));
            if k == 0 {
                let i = choose|i: int| 0 <= i < m.len() && (#[trigger] m[i]).from <= t[0].from && t[0].to <= m[i].to;
                assert(m[i].from <= y && y < m[i].to);
            } else {
                assert(t[k] == rest[k - 1]);
                let i = choose|i: int| 0 <= i < m.len() && m[i].from <= (#[trigger] rest[k - 1]).from && rest[k - 1].to <= m[i].to;
                assert(m[i].from <= y && y < m[i].to);
            }
        }
    }
}

/// Ranges in order and apart are fixed by the lines they hold and by which
/// neighbouring lines they hold together.
proof fn lemma_separated_unique(a: Seq<Range>, b: Seq<Range>)
    requires
        all_valid(a),
        all_valid(b),
        separated(a),
        separated(b),
        forall|x: int| #[trigger] covers(a, x) == covers(b, x),
        forall|y: int| #[trigger] bridges(a, y) == bridges(b, y),
    ensures
        a == b,
    decreases a.len() + b.len(),
{
    if a.len() == 0 || b.len() == 0 {
        if a.len() > 0 {
            assert(in_range(a[0], a[0].from as int));
            assert(covers(a, a[0].from as int));
            assert(!covers(b, a[0].from as int));
        }
        if b.len() > 0 {
            assert(in_range(b[0], b[0].from as int));
            assert(covers(b, b[0].from as int));
            assert(!covers(a, b[0].from as int));
        }
        assert(a =~= b);
    } else {
        let a0 = a[0];
        let b0 = b[0];
        assert(in_range(a0, a0.from as int) && covers(a, a0.from as int));
        let j = choose|j: int| 0 <= j < b.len() && #[trigger] in_range(b[j], a0.from as int);
        if j > 0 {
            assert(b0.to < b[j].from);
        }
        assert(in_range(b0, b0.from as int) && covers(b, b0.from as int));
        assert(covers(a, b0.from as int));
        let i = choose|i: int| 0 <= i < a.len() && #[trigger] in_range(a[i], b0.from as int);
        if i > 0 {
            assert(a0.to < a[i].from);
        }
        assert(a0.from == b0.from);
        if a0.to < b0.to {
            let y = a0.to as int;
            assert(bridges(b, y)) by {
                assert(b[0].from <= y && y < b[0].to);
            }
            assert(bridges(a, y));
            let k = choose|k: int| 0 <= k < a.len() && (#[trigger] a[k]).from <= y && y < a[k].to;
            if k > 0 {
                assert(a0.to < a[k].from);
            }
        }
        if b0.to < a0.to {
            let y = b0.to as int;
            assert(bridges(a, y)) by {
                assert(a[0].from <= y && y < a[0].to);
            }
            assert(bridges(b, y));
            let k = choose|k: int| 0 <= k < b.len() && (#[trigger] b[k]).from <= y && y < b[k].to;
            if k > 0 {
                assert(b0.to < b[k].from);
            }
        }
        assert(a0 == b0);
        let at = a.drop_first();
        let bt = b.drop_first();
        assert forall|x: int| #[trigger] covers(at, x) == covers(bt, x) by {
            assert(covers(at, x) == (covers(a, x) && x > a0.to)) by {
                if covers(at, x) {
                    let q = choose|q: int| 0 <= q < at.len() && #[trigger] in_range(at[q], x);
                    assert(at[q] == a[q + 1]);
                    assert(a0.to < a[q + 1].from);
                    assert(in_range(a[q + 1], x));
                }
                if covers(a, x) && x > a0.to {
                    let q = choose|q: int| 0 <= q < a.len() && #[trigger] in_range(a[q], x);
                    assert(q > 0);
                    assert(in_range(at[q - 1], x));
                }
            }
            assert(covers(bt, x) == (covers(b, x) && x > b0.to)) by {
                if covers(bt, x) {
                    let q = choose|q: int| 0 <= q < bt.len() && #[trigger] in_range(bt[q], x);
                    assert(bt[q] == b[q + 1]);
                    assert(b0.to < b[q + 1].from);
                    assert(in_range(b[q + 1], x));
                }
                if covers(b, x) && x > b0.to {
                    let q = choose|q: int| 0 <= q < b.len() && #[trigger] in_range(b[q], x);
                    assert(q > 0);
                    assert(in_range(bt[q - 1], x));
                }
            }
        }
        assert forall|y: int| #[trigger] bridges(at, y) == bridges(bt, y) by {
            assert(bridges(at, y) == (bridges(a, y) && y > a0.to)) by {
                if bridges(at, y) {
                    let q = choose|q: int| 0 <= q < at.len() && (#[trigger] at[q]).from <= y && y < at[q].to;
                    assert(at[q] == a[q + 1]);
                    assert(a0.to < a[q + 1].from);
                    assert(a[q + 1].from <= y && y < a[q + 1].to);
                }
                if bridges(a, y) && y > a0.to {
                    let q = choose|q: int| 0 <= q < a.len() && (#[trigger] a[q]).from <= y && y < a[q].to;
                    assert(q > 0);
                    assert(at[q - 1].from <= y && y < at[q - 1].to);
                }
            }
            assert(bridges(bt, y) == (bridges(b, y) && y > b0.to)) by {
                if bridges(bt, y) {
                    let q = choose|q: int| 0 <= q < bt.len() && (#[trigger] bt[q]).from <= y && y < bt[q].to;
                    assert(bt[q] == b[q + 1]);
                    assert(b0.to < b[q + 1].from);
                    assert(b[q + 1].from <= y && y < b[q + 1].to);
                }
                if bridges(b, y) && y > b0.to {
                    let q = choose|q: int| 0 <= q < b.len() && (#[trigger] b[q]).from <= y && y < b[q].to;
                    assert(q > 0);
                    assert(bt[q - 1].from <= y && y < bt[q - 1].to);
                }
            }
        }
        lemma_separated_unique(at, bt);
        assert(a =~= seq![a0] + at);
        assert(b =~= seq![b0] + bt);
    }
}

/// The merge of ranges depends only on which ranges are given, not on their
/// order or on how often each one comes.
pub proof fn lemma_merge_ranges_order_free(s: Seq<Range>, p: Seq<Range>, squash: bool)
    requires
        all_valid(s),
        forall|r: Range| #[trigger] s.contains(r) <==> p.contains(r),
    ensures
        spec_merge_ranges(s, squash) == spec_merge_ranges(p, squash),
{
    lemma_contains_covers(s, p);
    lemma_merge_ranges(s, false);
    lemma_merge_ranges(p, false);
    let ms = spec_merge_ranges(s, false);
    let mp = spec_merge_ranges(p, false);
    lemma_merge_bridges_exactly(s);
    lemma_merge_bridges_exactly(p);
    assert forall|y: int| #[trigger] bridges(s, y) == bridges(p, y) by {
        if bridges(s, y) {
            let j = choose|j: int| 0 <= j < s.len() && (#[trigger] s[j]).from <= y && y < s[j].to;
            assert(s.contains(s[j]));
            let k = choose|k: int| 0 <= k < p.len() && p[k] == s[j];
        }
        if bridges(p, y) {
            let j = choose|j: int| 0 <= j < p.len() && (#[trigger] p[j]).from <= y && y < p[j].to;
            assert(p.contains(p[j]));
            assert(s.contains(p[j]));
            let k = choose|k: int| 0 <= k < s.len() && s[k] == p[j];
        }
    }
    if s.len() == 0 || p.len() == 0 {
        if s.len() > 0 {
            assert(s.contains(s[0]));
            assert(p.contains(s[0]));
        }
        if p.len() > 0 {
            assert(p.contains(p[0]));
            assert(s.contains(p[0]));
        }
        lemma_sort_props(s);
        lemma_sort_props(p);
        assert(sort_by_from(s).len() == 0 && sort_by_from(p).len() == 0);
    } else {
        assert(ms.len() > 0 && mp.len() > 0);
        assert forall|x: int| #[trigger] covers(ms, x) == covers(mp, x) by {
            assert(covers(ms, x) == covers(s, x));
            assert(covers(mp, x) == covers(p, x));
            assert(covers(s, x) == covers(p, x));
        }
        assert forall|y: int| #[trigger] bridges(ms, y) == bridges(mp, y) by {
            assert(bridges(ms, y) == bridges(s, y));
            assert(bridges(mp, y) == bridges(p, y));
            assert(bridges(s, y) == bridges(p, y));
        }
        lemma_separated_unique(ms, mp);
        assert(merge_sorted(sort_by_from(s)) == merge_sorted(sort_by_from(p)));
    }
}

/// Merging ranges that are already merged changes nothing.
pub proof fn lemma_merge_ranges_idempotent(s: Seq<Range>, squash: bool)
    requires
        all_valid(s),
    ensures
        spec_merge_ranges(spec_merge_ranges(s, squash), squash) == spec_merge_ranges(s, squash),
{
    lemma_merge_ranges(s, squash);
    let m = spec_merge_ranges(s, squash);
    assert(sorted_by_from(m));
    lemma_sort_sorted_is_same(m);
    if m.len() > 0 {
        assert(separated(seq![m[0]] + m.drop_first())) by {
            assert(seq![m[0]] + m.drop_first() =~= m);
        }
        lemma_merge_from_apart(m[0], m.drop_first());
        assert(seq![m[0]] + m.drop_first() =~= m);
        assert(merge_sorted(m) == m);
    } else {
        assert(sort_by_from(m).len() == 0);
    }
}

/// Lays the line specs of `new` over those of `orig`, walking both in order.
pub fn merge_spec(orig: &[LineRangeSpec], new: &[LineRangeSpec]) -> (r: Vec<LineRangeSpec>)
    ensures
        r@ == overlay_from(Seq::empty(), orig@, new@),
{
    let mut merged: Vec<LineRangeSpec> = Vec::new();
    let mut oi: usize = 0;
    let mut ni: usize = 0;
    let mut cur = if orig.len() > 0 {
        orig[0]
    } else {
        // never read: there is no spec of `orig` to walk
        LineRangeSpec::new(LogLevel::UNSUPPORTED, Range { from: 0, to: 0 })
    };
    proof {
        if orig@.len() > 0 {
            assert(orig_rest(cur, orig@, 0) =~= orig@);
        } else {
            assert(orig_rest(cur, orig@, 0) =~= orig@);
        }
        assert(new@.skip(0) =~= new@);
    }
    loop
        invariant
            oi <= orig@.len(),
            ni <= new@.len(),
            oi < orig@.len() ==> cur.level == orig@[oi as int].level,
            overlay_from(merged@, orig_rest(cur, orig@, oi as int), new@.skip(ni as int))
                == overlay_from(Seq::empty(), orig@, new@),
        ensures
            oi == orig@.len(),
            ni == new@.len(),
            overlay_from(merged@, orig_rest(cur, orig@, oi as int), new@.skip(ni as int))
                == overlay_from(Seq::empty(), orig@, new@),
        decreases (orig@.len() - oi) + (new@.len() - ni),
    {
        let ghost o = orig_rest(cur, orig@, oi as int);
        let ghost n = new@.skip(ni as int);
        let ghost o_next = orig_rest(
            if oi + 1 < orig@.len() {
                orig@[oi + 1]
            } else {
                cur
            },
            orig@,
            oi + 1,
        );
        proof {
            if oi < orig@.len() {
                assert(o[0] == cur);
                assert(o.drop_first() =~= o_next);
            }
            if ni < new@.len() {
                assert(n[0] == new@[ni as int]);
                assert(n.drop_first() =~= new@.skip(ni + 1));
            }
        }
        if oi >= orig.len() && ni >= new.len() {
            break;
        }
        if oi >= orig.len() {
            let n0 = new[ni];
            __push(&mut merged, n0.level, one(n0.range));
            ni = ni + 1;
            continue;
        }
        if ni >= new.len() {
            __push(&mut merged, cur.level, one(cur.range));
            oi = oi + 1;
            if oi < orig.len() {
                cur = orig[oi];
            }
            continue;
        }
        let n0 = new[ni];
        let oir = cur.range;
        let nir = n0.range;
        if cur.level == n0.level {
            __push(&mut merged, cur.level, two(oir, nir));
            oi = oi + 1;
            if oi < orig.len() {
                cur = orig[oi];
            }
            ni = ni + 1;
        } else if oir.intersects(&nir) {
            if nir.from <= oir.from && nir.to >= oir.to {
                oi = oi + 1;
                if oi < orig.len() {
                    cur = orig[oi];
                }
            } else if nir.from >= oir.from && nir.to <= oir.to {
                if nir.from > oir.from {
                    __push(&mut merged, cur.level, one(Range { from: oir.from, to: nir.from - 1 }));
                }
                __push(&mut merged, n0.level, one(nir));
                if nir.to < oir.to {
                    proof {
                        assert(o.update(0, after(cur, nir.to)) =~= orig_rest(
                            after(cur, nir.to),
                            orig@,
                            oi as int,
                        ));
                    }
                    cur = LineRangeSpec::new(cur.level, Range { from: nir.to + 1, to: oir.to });
                } else {
                    oi = oi + 1;
                    if oi < orig.len() {
                        cur = orig[oi];
                    }
                }
                ni = ni + 1;
            } else if nir.from <= oir.from {
                __push(&mut merged, n0.level, one(nir));
                proof {
                    assert(o.update(0, after(cur, nir.to)) =~= orig_rest(
                        after(cur, nir.to),
                        orig@,
                        oi as int,
                    ));
                }
                cur = LineRangeSpec::new(cur.level, Range { from: nir.to + 1, to: oir.to });
                ni = ni + 1;
            } else {
                __push(&mut merged, cur.level, one(Range { from: oir.from, to: nir.from - 1 }));
                oi = oi + 1;
                if oi < orig.len() {
                    cur = orig[oi];
                }
            }
        } else if oir.from < nir.from {
            __push(&mut merged, cur.level, one(oir));
            oi = oi + 1;
            if oi < orig.len() {
                cur = orig[oi];
            }
        } else {
            __push(&mut merged, n0.level, one(nir));
            ni = ni + 1;
        }
    }
    proof {
        assert(orig_rest(cur, orig@, oi as int) =~= Seq::<LineRangeSpec>::empty());
        assert(new@.skip(ni as int) =~= Seq::<LineRangeSpec>::empty());
    }
    merged
}


/// The level that the first spec of `s` holding the line `x` gives it.
pub open spec fn lookup(s: Seq<LineRangeSpec>, x: int) -> Option<LogLevel>
    decreases s.len(),
{
    if s.len() == 0 {
        None
    } else if in_range(s[0].range, x) {
        Some(s[0].level)
    } else {
        lookup(s.drop_first(), x)
    }
}

/// The specs hold valid ranges, in order, each ending before the next starts.
pub open spec fn specs_wf(s: Seq<LineRangeSpec>) -> bool {
    &&& forall|i: int| 0 <= i < s.len() ==> valid_range(#[trigger] s[i].range)
    &&& forall|i: int, j: int|
        0 <= i < j < s.len() ==> (#[trigger] s[i]).range.to < (#[trigger] s[j]).range.from
}

/// The level of a line once `n` is laid over `o`: that of `n` where `n` has
/// one, else that of `o`.
pub open spec fn overlay_at(o: Seq<LineRangeSpec>, n: Seq<LineRangeSpec>, x: int) -> Option<LogLevel> {
    match lookup(n, x) {
        Some(l) => Some(l),
        None => lookup(o, x),
    }
}

/// No level of `o` is a level of `n`.
pub open spec fn levels_apart(o: Seq<LineRangeSpec>, n: Seq<LineRangeSpec>) -> bool {
    forall|i: int, j: int| 0 <= i < o.len() && 0 <= j < n.len() ==> (#[trigger] o[i]).level != (
    #[trigger] n[j]).level
}

/// Every range of `m` ends before every range of `s` starts.
pub open spec fn ends_before(m: Seq<LineRangeSpec>, s: Seq<LineRangeSpec>) -> bool {
    forall|i: int, j: int|
        0 <= i < m.len() && 0 <= j < s.len() ==> (#[trigger] m[i]).range.to < (#[trigger] s[j]).range.from
}

proof fn lemma_lookup_none(s: Seq<LineRangeSpec>, x: int)
    requires
        forall|k: int| 0 <= k < s.len() ==> !in_range(#[trigger] s[k].range, x),
    ensures
        lookup(s, x) is None,
    decreases s.len(),
{
    if s.len() > 0 {
        assert(!in_range(s[0].range, x));
        assert forall|k: int| 0 <= k < s.drop_first().len() implies !in_range(
            #[trigger] s.drop_first()[k].range,
            x,
        ) by {
            assert(s.drop_first()[k] == s[k + 1]);
        }
        lemma_lookup_none(s.drop_first(), x);
    }
}

proof fn lemma_lookup_at(s: Seq<LineRangeSpec>, x: int, k: int)
    requires
        specs_wf(s),
        0 <= k < s.len(),
        in_range(s[k].range, x),
    ensures
        lookup(s, x) == Some(s[k].level),
    decreases s.len(),
{
    if k > 0 {
        assert(s[0].range.to < s[k].range.from);
        let d = s.drop_first();
        assert(specs_wf(d)) by {
            assert forall|i: int| 0 <= i < d.len() implies valid_range(#[trigger] d[i].range) by {
                assert(d[i] == s[i + 1]);
            }
            assert forall|i: int, j: int| 0 <= i < j < d.len() implies (#[trigger] d[i]).range.to < (
            #[trigger] d[j]).range.from by {
                assert(d[i] == s[i + 1] && d[j] == s[j + 1]);
            }
        }
        assert(d[k - 1] == s[k]);
        lemma_lookup_at(d, x, k - 1);
    }
}

proof fn lemma_lookup_push(s: Seq<LineRangeSpec>, e: LineRangeSpec, x: int)
    ensures
        lookup(s.push(e), x) == (match lookup(s, x) {
            Some(l) => Some(l),
            None => if in_range(e.range, x) {
                Some(e.level)
            } else {
                None
            },
        }),
    decreases s.len(),
{
    if s.len() > 0 {
        assert(s.push(e)[0] == s[0]);
        assert(s.push(e).drop_first() =~= s.drop_first().push(e));
        lemma_lookup_push(s.drop_first(), e, x);
    } else {
        assert(s.push(e)[0] == e);
        assert(s.push(e).drop_first() =~= Seq::<LineRangeSpec>::empty());
        assert(lookup(Seq::<LineRangeSpec>::empty(), x) is None);
    }
}

/// Appending a spec that starts after every range already there.
proof fn lemma_push_after(m: Seq<LineRangeSpec>, l: LogLevel, r: Range)
    requires
        valid_range(r),
        specs_wf(m),
        forall|i: int| 0 <= i < m.len() ==> (#[trigger] m[i]).range.to < r.from,
    ensures
        spec_push(m, l, seq![r]) == m.push(LineRangeSpec { level: l, range: r }),
{
    let e = LineRangeSpec { level: l, range: r };
    let e0 = Seq::<Range>::empty();
    assert(seq![r].drop_last() =~= e0);
    assert(sort_by_from(e0) == e0);
    assert(insert_by_from(e0, r) == seq![r]);
    assert(sort_by_from(seq![r]) =~= seq![r]);
    assert(seq![r].drop_first() =~= Seq::<Range>::empty());
    assert(merge_sorted(seq![r]) =~= seq![r]);
    assert(spec_merge_ranges(seq![r], false) == seq![r]);
    if m.len() > 0 && m.last().level == l {
        let last = m.last().range;
        assert(m[m.len() - 1].range.to < r.from);
        let t = seq![r].push(last);
        assert(t.drop_last() =~= seq![r]);
        assert(seq![r].last() == r);
        assert(sort_by_from(t) == insert_by_from(seq![r], last));
        assert(seq![r].drop_last() =~= Seq::<Range>::empty());
        assert(valid_range(m[m.len() - 1].range));
        assert(insert_by_from(e0, last) == seq![last]);
        assert(insert_by_from(seq![r], last) =~= seq![last, r]);
        let u = seq![last, r];
        assert(u.drop_first() =~= seq![r]);
        assert(seq![r].drop_first() =~= Seq::<Range>::empty());
        assert(merge_sorted(u) =~= seq![last, r]);
        assert(m.drop_last() + with_level(l, seq![last, r]) =~= m.push(e));
    } else {
        assert(m + with_level(l, seq![r]) =~= m.push(e));
    }
}


/// The level of a line as laid down so far: by `m` where it has one, else by
/// `n` laid over `o`.
pub open spec fn overlaid(m: Seq<LineRangeSpec>, o: Seq<LineRangeSpec>, n: Seq<LineRangeSpec>, x: int) -> Option<LogLevel> {
    match lookup(m, x) {
        Some(l) => Some(l),
        None => overlay_at(o, n, x),
    }
}

proof fn lemma_wf_drop_first(s: Seq<LineRangeSpec>)
    requires
        specs_wf(s),
        s.len() > 0,
    ensures
        specs_wf(s.drop_first()),
        forall|j: int| 0 <= j < s.drop_first().len() ==> s[0].range.to < (#[trigger] s.drop_first()[j]).range.from,
{
    let d = s.drop_first();
    assert forall|i: int| 0 <= i < d.len() implies valid_range(#[trigger] d[i].range) by {
        assert(d[i] == s[i + 1]);
    }
    assert forall|i: int, j: int| 0 <= i < j < d.len() implies (#[trigger] d[i]).range.to < (
    #[trigger] d[j]).range.from by {
        assert(d[i] == s[i + 1] && d[j] == s[j + 1]);
    }
    assert forall|j: int| 0 <= j < d.len() implies s[0].range.to < (#[trigger] d[j]).range.from by {
        assert(d[j] == s[j + 1]);
    }
}

proof fn lemma_wf_push(m: Seq<LineRangeSpec>, e: LineRangeSpec)
    requires
        specs_wf(m),
        valid_range(e.range),
        forall|i: int| 0 <= i < m.len() ==> (#[trigger] m[i]).range.to < e.range.from,
    ensures
        specs_wf(m.push(e)),
{
    let t = m.push(e);
    assert forall|i: int| 0 <= i < t.len() implies valid_range(#[trigger] t[i].range) by {
        if i < m.len() {
            assert(t[i] == m[i]);
        }
    }
    assert forall|i: int, j: int| 0 <= i < j < t.len() implies (#[trigger] t[i]).range.to < (
    #[trigger] t[j]).range.from by {
        assert(t[i] == m[i]);
        if j < m.len() {
            assert(t[j] == m[j]);
        }
    }
}

proof fn lemma_wf_cut_head(o: Seq<LineRangeSpec>, e: LineRangeSpec)
    requires
        specs_wf(o),
        o.len() > 0,
        valid_range(e.range),
        e.range.to == o[0].range.to,
    ensures
        specs_wf(o.update(0, e)),
        o.update(0, e).drop_first() == o.drop_first(),
{
    let t = o.update(0, e);
    assert forall|i: int| 0 <= i < t.len() implies valid_range(#[trigger] t[i].range) by {
        if i > 0 {
            assert(t[i] == o[i]);
        }
    }
    assert forall|i: int, j: int| 0 <= i < j < t.len() implies (#[trigger] t[i]).range.to < (
    #[trigger] t[j]).range.from by {
        assert(t[j] == o[j]);
        if i > 0 {
            assert(t[i] == o[i]);
        } else {
            assert(o[0].range.to < o[j].range.from);
        }
    }
    assert(t.drop_first() =~= o.drop_first());
}

/// No range of the well-formed `s` after its head holds a line before the
/// head's last line plus one.
proof fn lemma_tail_after(s: Seq<LineRangeSpec>, x: int)
    requires
        specs_wf(s),
        s.len() > 0,
        x <= s[0].range.to,
    ensures
        lookup(s.drop_first(), x) is None,
{
    lemma_wf_drop_first(s);
    let d = s.drop_first();
    assert forall|k: int| 0 <= k < d.len() implies !in_range(#[trigger] d[k].range, x) by {}
    lemma_lookup_none(d, x);
}

proof fn lemma_lookup_m_push(m: Seq<LineRangeSpec>, e: LineRangeSpec, x: int)
    ensures
        lookup(m.push(e), x) == (match lookup(m, x) {
            Some(l) => Some(l),
            None => if in_range(e.range, x) {
                Some(e.level)
            } else {
                None
            },
        }),
{
    lemma_lookup_push(m, e, x);
}

/// Laying `n` over `o` with the walk of `merge_spec`, when no level of one is
/// a level of the other, gives well-formed specs that give each line the level
/// of `n` where `n` has one, else that of `o`.
proof fn lemma_overlay_from(m: Seq<LineRangeSpec>, o: Seq<LineRangeSpec>, n: Seq<LineRangeSpec>)
    requires
        specs_wf(m),
        specs_wf(o),
        specs_wf(n),
        ends_before(m, o),
        ends_before(m, n),
        levels_apart(o, n),
    ensures
        specs_wf(overlay_from(m, o, n)),
        forall|x: int| lookup(overlay_from(m, o, n), x) == overlaid(m, o, n, x),
    decreases o.len() + n.len(),
{
    let r = overlay_from(m, o, n);
    if o.len() == 0 && n.len() == 0 {
        assert forall|x: int| lookup(r, x) == overlaid(m, o, n, x) by {}
    } else if o.len() == 0 {
        let n0 = n[0];
        let n2 = n.drop_first();
        assert(forall|i: int| 0 <= i < m.len() ==> (#[trigger] m[i]).range.to < n0.range.from);
        lemma_push_after(m, n0.level, n0.range);
        assert(LineRangeSpec { level: n0.level, range: n0.range } == n0);
        let m2 = m.push(n0);
        lemma_wf_push(m, n0);
        lemma_wf_drop_first(n);
        assert(ends_before(m2, n2)) by {
            assert forall|i: int, j: int| 0 <= i < m2.len() && 0 <= j < n2.len() implies (
            #[trigger] m2[i]).range.to < (#[trigger] n2[j]).range.from by {
                assert(n2[j] == n[j + 1]);
                if i < m.len() {
                    assert(m2[i] == m[i]);
                }
            }
        }
        assert(levels_apart(o, n2));
        lemma_overlay_from(m2, o, n2);
        assert forall|x: int| overlaid(m2, o, n2, x) == overlaid(m, o, n, x) by {
            lemma_lookup_m_push(m, n0, x);
        }
    } else if n.len() == 0 {
        let o0 = o[0];
        let o2 = o.drop_first();
        assert(forall|i: int| 0 <= i < m.len() ==> (#[trigger] m[i]).range.to < o0.range.from);
        lemma_push_after(m, o0.level, o0.range);
        assert(LineRangeSpec { level: o0.level, range: o0.range } == o0);
        let m2 = m.push(o0);
        lemma_wf_push(m, o0);
        lemma_wf_drop_first(o);
        assert(ends_before(m2, o2)) by {
            assert forall|i: int, j: int| 0 <= i < m2.len() && 0 <= j < o2.len() implies (
            #[trigger] m2[i]).range.to < (#[trigger] o2[j]).range.from by {
                assert(o2[j] == o[j + 1]);
                if i < m.len() {
                    assert(m2[i] == m[i]);
                }
            }
        }
        assert(levels_apart(o2, n));
        lemma_overlay_from(m2, o2, n);
        assert forall|x: int| overlaid(m2, o2, n, x) == overlaid(m, o, n, x) by {
            lemma_lookup_m_push(m, o0, x);
        }
    } else {
        lemma_overlay_step(m, o, n);
    }
}

/// Every range of `m` ends before the line `x`.
pub open spec fn all_end_before(m: Seq<LineRangeSpec>, x: int) -> bool {
    forall|i: int| 0 <= i < m.len() ==> (#[trigger] m[i]).range.to < x
}

proof fn lemma_ends_before_push(m: Seq<LineRangeSpec>, e: LineRangeSpec, s: Seq<LineRangeSpec>)
    requires
        ends_before(m, s),
        forall|j: int| 0 <= j < s.len() ==> e.range.to < (#[trigger] s[j]).range.from,
    ensures
        ends_before(m.push(e), s),
{
    assert forall|i: int, j: int| 0 <= i < m.push(e).len() && 0 <= j < s.len() implies (
    #[trigger] m.push(e)[i]).range.to < (#[trigger] s[j]).range.from by {
        if i < m.len() {
            assert(m.push(e)[i] == m[i]);
        }
    }
}

proof fn lemma_overlay_step(m: Seq<LineRangeSpec>, o: Seq<LineRangeSpec>, n: Seq<LineRangeSpec>)
    requires
        specs_wf(m),
        specs_wf(o),
        specs_wf(n),
        ends_before(m, o),
        ends_before(m, n),
        levels_apart(o, n),
        o.len() > 0,
        n.len() > 0,
    ensures
        specs_wf(overlay_from(m, o, n)),
        forall|x: int| lookup(overlay_from(m, o, n), x) == overlaid(m, o, n, x),
    decreases o.len() + n.len(), 0nat,
{
    let oi = o[0];
    let ni = n[0];
    let a = oi.range;
    let b = ni.range;
    let od = o.drop_first();
    let nd = n.drop_first();
    assert(oi.level != ni.level);
    lemma_wf_drop_first(o);
    lemma_wf_drop_first(n);
    assert(all_end_before(m, a.from as int));
    assert(all_end_before(m, b.from as int));
    assert(ends_before(m, od)) by {
        assert forall|i: int, j: int| 0 <= i < m.len() && 0 <= j < od.len() implies (#[trigger] m[i]).range.to < (#[trigger] od[j]).range.from by {
            assert(od[j] == o[j + 1]);
        }
    }
    assert(ends_before(m, nd)) by {
        assert forall|i: int, j: int| 0 <= i < m.len() && 0 <= j < nd.len() implies (#[trigger] m[i]).range.to < (#[trigger] nd[j]).range.from by {
            assert(nd[j] == n[j + 1]);
        }
    }
    assert(levels_apart(od, n)) by {
        assert forall|i: int, j: int| 0 <= i < od.len() && 0 <= j < n.len() implies (#[trigger] od[i]).level != (#[trigger] n[j]).level by {
            assert(od[i] == o[i + 1]);
        }
    }
    assert(levels_apart(o, nd)) by {
        assert forall|i: int, j: int| 0 <= i < o.len() && 0 <= j < nd.len() implies (#[trigger] o[i]).level != (#[trigger] nd[j]).level by {
            assert(nd[j] == n[j + 1]);
        }
    }
    assert(levels_apart(od, nd)) by {
        assert forall|i: int, j: int| 0 <= i < od.len() && 0 <= j < nd.len() implies (#[trigger] od[i]).level != (#[trigger] nd[j]).level by {
            assert(od[i] == o[i + 1]);
            assert(nd[j] == n[j + 1]);
        }
    }
    if spec_intersects(a, b) {
        if b.from <= a.from && b.to >= a.to {
            lemma_overlay_from(m, od, n);
            assert forall|x: int| overlaid(m, od, n, x) == overlaid(m, o, n, x) by {
                if in_range(a, x) {
                    assert(in_range(b, x));
                }
            }
        } else if b.from >= a.from && b.to <= a.to {
            let e1 = LineRangeSpec { level: oi.level, range: before(a, b.from) };
            let m1 = if b.from > a.from {
                spec_push(m, oi.level, seq![before(a, b.from)])
            } else {
                m
            };
            if b.from > a.from {
                lemma_push_after(m, oi.level, before(a, b.from));
                lemma_wf_push(m, e1);
                assert(m1 == m.push(e1));
            }
            assert(specs_wf(m1));
            assert(all_end_before(m1, b.from as int)) by {
                if b.from > a.from {
                    assert forall|i: int| 0 <= i < m1.len() implies (#[trigger] m1[i]).range.to < b.from by {
                        if i < m.len() {
                            assert(m1[i] == m[i]);
                        }
                    }
                }
            }
            lemma_push_after(m1, ni.level, b);
            assert(LineRangeSpec { level: ni.level, range: b } == ni);
            let m2 = m1.push(ni);
            lemma_wf_push(m1, ni);
            assert(all_end_before(m2, b.to + 1)) by {
                assert forall|i: int| 0 <= i < m2.len() implies (#[trigger] m2[i]).range.to < b.to + 1 by {
                    if i < m1.len() {
                        assert(m2[i] == m1[i]);
                    }
                }
            }
            assert(ends_before(m2, nd)) by {
                assert forall|i: int, j: int| 0 <= i < m2.len() && 0 <= j < nd.len() implies (#[trigger] m2[i]).range.to < (#[trigger] nd[j]).range.from by {}
            }
            if b.to < a.to {
                let e2 = after(oi, b.to);
                let o2 = o.update(0, e2);
                lemma_wf_cut_head(o, e2);
                assert(ends_before(m2, o2)) by {
                    assert forall|i: int, j: int| 0 <= i < m2.len() && 0 <= j < o2.len() implies (#[trigger] m2[i]).range.to < (#[trigger] o2[j]).range.from by {
                        if j > 0 {
                            assert(o2[j] == o[j]);
                            assert(o[0].range.to < o[j].range.from);
                        }
                    }
                }
                assert(levels_apart(o2, nd)) by {
                    assert forall|i: int, j: int| 0 <= i < o2.len() && 0 <= j < nd.len() implies (#[trigger] o2[i]).level != (#[trigger] nd[j]).level by {
                        assert(nd[j] == n[j + 1]);
                        if i > 0 {
                            assert(o2[i] == o[i]);
                        }
                    }
                }
                lemma_overlay_from(m2, o2, nd);
                assert forall|x: int| overlaid(m2, o2, nd, x) == overlaid(m, o, n, x) by {
                    lemma_lookup_m_push(m1, ni, x);
                    if b.from > a.from {
                        lemma_lookup_m_push(m, e1, x);
                    }
                    if x <= b.to {
                        lemma_tail_after(n, x);
                    }
                    if x <= a.to {
                        lemma_tail_after(o, x);
                    }
                    assert(o2[0] == e2);
                }
            } else {
                assert(ends_before(m2, od)) by {
                    assert forall|i: int, j: int| 0 <= i < m2.len() && 0 <= j < od.len() implies (#[trigger] m2[i]).range.to < (#[trigger] od[j]).range.from by {}
                }
                lemma_overlay_from(m2, od, nd);
                assert forall|x: int| overlaid(m2, od, nd, x) == overlaid(m, o, n, x) by {
                    lemma_lookup_m_push(m1, ni, x);
                    if b.from > a.from {
                        lemma_lookup_m_push(m, e1, x);
                    }
                    if x <= b.to {
                        lemma_tail_after(n, x);
                    }
                }
            }
        } else if b.from <= a.from {
            lemma_push_after(m, ni.level, b);
            assert(LineRangeSpec { level: ni.level, range: b } == ni);
            let m2 = m.push(ni);
            lemma_wf_push(m, ni);
            let e2 = after(oi, b.to);
            let o2 = o.update(0, e2);
            lemma_wf_cut_head(o, e2);
            lemma_ends_before_push(m, ni, nd);
            assert(ends_before(m2, o2)) by {
                assert forall|i: int, j: int| 0 <= i < m2.len() && 0 <= j < o2.len() implies (#[trigger] m2[i]).range.to < (#[trigger] o2[j]).range.from by {
                    if j > 0 {
                        assert(o2[j] == o[j]);
                        assert(o[0].range.to < o[j].range.from);
                    }
                    if i < m.len() {
                        assert(m2[i] == m[i]);
                    }
                }
            }
            assert(levels_apart(o2, nd)) by {
                assert forall|i: int, j: int| 0 <= i < o2.len() && 0 <= j < nd.len() implies (#[trigger] o2[i]).level != (#[trigger] nd[j]).level by {
                    assert(nd[j] == n[j + 1]);
                    if i > 0 {
                        assert(o2[i] == o[i]);
                    }
                }
            }
            lemma_overlay_from(m2, o2, nd);
            assert forall|x: int| overlaid(m2, o2, nd, x) == overlaid(m, o, n, x) by {
                lemma_lookup_m_push(m, ni, x);
                if x <= b.to {
                    lemma_tail_after(n, x);
                }
                assert(o2[0] == e2);
            }
        } else {
            let e1 = LineRangeSpec { level: oi.level, range: before(a, b.from) };
            lemma_push_after(m, oi.level, before(a, b.from));
            let m2 = m.push(e1);
            lemma_wf_push(m, e1);
            lemma_ends_before_push(m, e1, od);
            lemma_ends_before_push(m, e1, n);
            lemma_overlay_from(m2, od, n);
            assert forall|x: int| overlaid(m2, od, n, x) == overlaid(m, o, n, x) by {
                lemma_lookup_m_push(m, e1, x);
                if x <= b.to {
                    lemma_tail_after(n, x);
                }
            }
        }
    } else if a.from < b.from {
        lemma_push_after(m, oi.level, a);
        assert(LineRangeSpec { level: oi.level, range: a } == oi);
        let m2 = m.push(oi);
        lemma_wf_push(m, oi);
        lemma_ends_before_push(m, oi, od);
        lemma_ends_before_push(m, oi, n);
        lemma_overlay_from(m2, od, n);
        assert forall|x: int| overlaid(m2, od, n, x) == overlaid(m, o, n, x) by {
            lemma_lookup_m_push(m, oi, x);
            if x <= b.to {
                lemma_tail_after(n, x);
            }
        }
    } else {
        lemma_push_after(m, ni.level, b);
        assert(LineRangeSpec { level: ni.level, range: b } == ni);
        let m2 = m.push(ni);
        lemma_wf_push(m, ni);
        lemma_ends_before_push(m, ni, o);
        lemma_ends_before_push(m, ni, nd);
        lemma_overlay_from(m2, o, nd);
        assert forall|x: int| overlaid(m2, o, nd, x) == overlaid(m, o, n, x) by {
            lemma_lookup_m_push(m, ni, x);
            if x <= b.to {
                lemma_tail_after(n, x);
            }
        }
    }
}

/// What `merge_spec` promises when no level of `orig` is a level of `new`:
/// well-formed specs that give every line the level `new` gives it, and
/// the level of `orig` where `new` gives none.
pub proof fn lemma_merge_spec_overlays(orig: Seq<LineRangeSpec>, new: Seq<LineRangeSpec>)
    requires
        specs_wf(orig),
        specs_wf(new),
        levels_apart(orig, new),
    ensures
        specs_wf(overlay_from(Seq::empty(), orig, new)),
        forall|x: int| lookup(overlay_from(Seq::empty(), orig, new), x) == overlay_at(orig, new, x),
{
    let e = Seq::<LineRangeSpec>::empty();
    lemma_overlay_from(e, orig, new);
    assert forall|x: int| overlaid(e, orig, new, x) == overlay_at(orig, new, x) by {}
}

/// The pair `p` is a valid range.
pub open spec fn valid_pair(p: (u32, u32)) -> bool {
    p.0 <= p.1
}

/// Builds the ranges of the given pairs; fails on the first pair whose first
/// line comes after its last.
pub fn from_vtuple(lranges: &[(u32, u32)]) -> (r: Result<Vec<Range>, RangeError>)
    ensures
        match r {
            Ok(v) => {
                &&& forall|i: int| 0 <= i < lranges@.len() ==> valid_pair(#[trigger] lranges@[i])
                &&& v@.len() == lranges@.len()
                &&& forall|i: int|
                    0 <= i < lranges@.len() ==> #[trigger] v@[i] == (Range {
                        from: lranges@[i].0,
                        to: lranges@[i].1,
                    })
            },
            Err(e) => exists|i: int|
                #![trigger lranges@[i]]
                0 <= i < lranges@.len() && !valid_pair(lranges@[i]) && (forall|j: int|
                    0 <= j < i ==> valid_pair(#[trigger] lranges@[j])) && e == RangeError::InvalidRange(
                    lranges@[i].0,
                    lranges@[i].1,
                ),
        },
{
    let mut out: Vec<Range> = Vec::new();
    let mut i: usize = 0;
    while i < lranges.len()
        invariant
            i <= lranges@.len(),
            out@.len() == i,
            forall|j: int| 0 <= j < i ==> valid_pair(#[trigger] lranges@[j]),
            forall|j: int|
                0 <= j < i ==> #[trigger] out@[j] == (Range { from: lranges@[j].0, to: lranges@[j].1 }),
        decreases lranges@.len() - i,
    {
        let (from, to) = lranges[i];
        match Range::new(from, to) {
            Ok(range) => {
                out.push(range);
            },
            Err(e) => {
                assert(!valid_pair(lranges@[i as int]));
                return Err(e);
            },
        }
        i = i + 1;
    }
    Ok(out)
}

} // verus!
