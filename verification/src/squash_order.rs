//! The shape of a squashed spec: why its rules come in order, each pair of
//! path and level once.
use vstd::prelude::*;

use crate::levels::{level_le, level_value};
use crate::text::{split, trim, is_prefix};
use crate::line_range::{
    Range, all_valid, covers, in_range, lemma_intersects, lemma_merge_ranges, separated, spec_intersects,
    spec_merge_ranges, whole_file,
};
use crate::spec::{
    empty_root, parse_result, token_effect, tokens_effect,
    ModuleView, RootView, all_normalized, normalized, by_path_level, by_path_lines, conflicting, group_from,
    has_conflict, insert_by, joined_ranges, path_level_le, path_lines_le, sort_by, squash_result, squashed_modules,
    text_le,
};

verus! {

proof fn lemma_text_le_total(a: Seq<char>, b: Seq<char>)
    ensures
        text_le(a, b) || text_le(b, a),
    decreases a.len(),
{
    if a.len() > 0 && b.len() > 0 {
        if a[0] == b[0] {
            lemma_text_le_total(a.drop_first(), b.drop_first());
        } else {
            assert((a[0] as int) != (b[0] as int));
        }
    }
}

proof fn lemma_text_le_antisymmetric(a: Seq<char>, b: Seq<char>)
    requires
        text_le(a, b),
        text_le(b, a),
    ensures
        a == b,
    decreases a.len(),
{
    if a.len() > 0 {
        if b.len() > 0 && a[0] == b[0] {
            lemma_text_le_antisymmetric(a.drop_first(), b.drop_first());
            assert(a =~= seq![a[0]] + a.drop_first());
            assert(b =~= seq![b[0]] + b.drop_first());
        }
    } else {
        assert(a =~= b);
    }
}

proof fn lemma_text_le_transitive(a: Seq<char>, b: Seq<char>, c: Seq<char>)
    requires
        text_le(a, b),
        text_le(b, c),
    ensures
        text_le(a, c),
    decreases a.len(),
{
    if a.len() > 0 && b.len() > 0 && c.len() > 0 && a[0] == b[0] && b[0] == c[0] {
        lemma_text_le_transitive(a.drop_first(), b.drop_first(), c.drop_first());
    }
}

proof fn lemma_text_le_prefix(a: Seq<char>, b: Seq<char>)
    requires
        is_prefix(a, b),
    ensures
        text_le(a, b),
    decreases a.len(),
{
    if a.len() > 0 {
        assert(b.take(a.len() as int)[0] == a[0]);
        assert(b.drop_first().take(a.drop_first().len() as int) =~= a.drop_first()) by {
            assert(b.take(a.len() as int) == a);
        }
        lemma_text_le_prefix(a.drop_first(), b.drop_first());
    }
}

proof fn lemma_text_le_first_difference(a: Seq<char>, b: Seq<char>, i: int)
    requires
        0 <= i < a.len(),
        i < b.len(),
        a.take(i) == b.take(i),
        (a[i] as int) < (b[i] as int),
    ensures
        text_le(a, b),
        !text_le(b, a),
    decreases i,
{
    if i == 0 {
        assert(a[0] != b[0]);
    } else {
        assert(a.take(i)[0] == a[0] && b.take(i)[0] == b[0]);
        assert(a.take(i)[0] == b.take(i)[0]);
        assert(a.drop_first().take(i - 1) =~= a.take(i).drop_first());
        assert(b.drop_first().take(i - 1) =~= b.take(i).drop_first());
        assert(a.drop_first()[i - 1] == a[i]);
        assert(b.drop_first()[i - 1] == b[i]);
        lemma_text_le_first_difference(a.drop_first(), b.drop_first(), i - 1);
    }
}

/// The order of paths is the lexicographic one: a path comes before every
/// path it is a prefix of; at the first character where two paths differ,
/// the smaller character comes first; and it is a total order.
pub proof fn lemma_text_order(a: Seq<char>, b: Seq<char>, c: Seq<char>)
    ensures
        is_prefix(a, b) ==> text_le(a, b),
        forall|i: int|
            0 <= i < a.len() && i < b.len() && a.take(i) == b.take(i) && (#[trigger] a[i] as int) < (
            #[trigger] b[i] as int) ==> text_le(a, b) && !text_le(b, a),
        text_le(a, b) || text_le(b, a),
        text_le(a, b) && text_le(b, a) ==> a == b,
        text_le(a, b) && text_le(b, c) ==> text_le(a, c),
{
    if is_prefix(a, b) {
        lemma_text_le_prefix(a, b);
    }
    assert forall|i: int|
        0 <= i < a.len() && i < b.len() && a.take(i) == b.take(i) && (#[trigger] a[i] as int) < (
        #[trigger] b[i] as int) implies text_le(a, b) && !text_le(b, a) by {
        lemma_text_le_first_difference(a, b, i);
    }
    lemma_text_le_total(a, b);
    if text_le(a, b) && text_le(b, a) {
        lemma_text_le_antisymmetric(a, b);
    }
    if text_le(a, b) && text_le(b, c) {
        lemma_text_le_transitive(a, b, c);
    }
}

/// `s` is in order by `le`.
pub open spec fn sorted_by<T>(s: Seq<T>, le: spec_fn(T, T) -> bool) -> bool {
    forall|i: int, j: int| 0 <= i < j < s.len() ==> le(#[trigger] s[i], #[trigger] s[j])
}

/// `le` orders every two values, and in a chain.
pub open spec fn total_order<T>(le: spec_fn(T, T) -> bool) -> bool {
    &&& forall|x: T, y: T| #[trigger] le(x, y) || le(y, x)
    &&& forall|x: T, y: T, z: T| #[trigger] le(x, y) && #[trigger] le(y, z) ==> le(x, z)
}

proof fn lemma_insert_by_inserts<T>(s: Seq<T>, x: T, le: spec_fn(T, T) -> bool) -> (p: int)
    ensures
        0 <= p <= s.len(),
        insert_by(s, x, le) == s.insert(p, x),
    decreases s.len(),
{
    if s.len() == 0 {
        assert(s.insert(0, x) =~= seq![x]);
        0
    } else if le(s.last(), x) {
        assert(s.insert(s.len() as int, x) =~= s.push(x));
        s.len() as int
    } else {
        let d = s.drop_last();
        let p = lemma_insert_by_inserts(d, x, le);
        assert(d.insert(p, x).push(s.last()) =~= s.insert(p, x));
        p
    }
}

proof fn lemma_insert_by_sorted<T>(s: Seq<T>, x: T, le: spec_fn(T, T) -> bool)
    requires
        total_order(le),
        sorted_by(s, le),
    ensures
        sorted_by(insert_by(s, x, le), le),
    decreases s.len(),
{
    if s.len() > 0 {
        let last = s.last();
        assert(le(last, last) || le(last, last));
        if le(last, x) {
            let r = s.push(x);
            assert forall|i: int, j: int| 0 <= i < j < r.len() implies le(
                #[trigger] r[i],
                #[trigger] r[j],
            ) by {
                if j == s.len() {
                    if i < s.len() - 1 {
                        assert(le(s[i], s[s.len() - 1]));
                    }
                    assert(le(r[i], last) && le(last, x));
                }
            }
        } else {
            let d = s.drop_last();
            assert(sorted_by(d, le));
            lemma_insert_by_sorted(d, x, le);
            let g = insert_by(d, x, le);
            let p = lemma_insert_by_inserts(d, x, le);
            assert(le(x, last) || le(last, x));
            let r = g.push(last);
            assert forall|i: int, j: int| 0 <= i < j < r.len() implies le(
                #[trigger] r[i],
                #[trigger] r[j],
            ) by {
                if j == g.len() {
                    if i < p {
                        assert(r[i] == s[i]);
                        assert(le(s[i], s[s.len() - 1]));
                    } else if i > p {
                        assert(r[i] == s[i - 1]);
                        assert(le(s[i - 1], s[s.len() - 1]));
                    }
                }
            }
        }
    }
}

/// A sort by a total order puts its sequence in order.
proof fn lemma_sort_by_sorted<T>(s: Seq<T>, le: spec_fn(T, T) -> bool)
    requires
        total_order(le),
    ensures
        sorted_by(sort_by(s, le), le),
    decreases s.len(),
{
    if s.len() > 0 {
        lemma_sort_by_sorted(s.drop_last(), le);
        lemma_insert_by_sorted(sort_by(s.drop_last(), le), s.last(), le);
    }
}

/// No two values of `s` have the same key.
pub open spec fn keys_distinct<T, K>(s: Seq<T>, key: spec_fn(T) -> K) -> bool {
    forall|i: int, j: int| 0 <= i < j < s.len() ==> key(#[trigger] s[i]) != key(#[trigger] s[j])
}

/// A sort keeps the values of its sequence, so keys that were distinct stay so.
proof fn lemma_sort_by_keeps<T, K>(s: Seq<T>, le: spec_fn(T, T) -> bool, key: spec_fn(T) -> K)
    requires
        keys_distinct(s, key),
    ensures
        sort_by(s, le).len() == s.len(),
        keys_distinct(sort_by(s, le), key),
        forall|k: int|
            0 <= k < s.len() ==> exists|m: int| 0 <= m < s.len() && #[trigger] sort_by(s, le)[k] == s[m],
    decreases s.len(),
{
    if s.len() > 0 {
        let d = s.drop_last();
        let last = s.last();
        assert(keys_distinct(d, key));
        lemma_sort_by_keeps(d, le, key);
        let sd = sort_by(d, le);
        let p = lemma_insert_by_inserts(sd, last, le);
        let r = sort_by(s, le);
        assert(r == sd.insert(p, last));
        assert forall|k: int| 0 <= k < s.len() implies exists|m: int|
            0 <= m < s.len() && #[trigger] r[k] == s[m] by {
            if k < p {
                let m = choose|m: int| 0 <= m < d.len() && #[trigger] sd[k] == d[m];
                assert(r[k] == s[m]);
            } else if k == p {
                assert(r[k] == s[s.len() - 1]);
            } else {
                let m = choose|m: int| 0 <= m < d.len() && #[trigger] sd[k - 1] == d[m];
                assert(r[k] == s[m]);
            }
        }
        assert forall|i: int, j: int| 0 <= i < j < r.len() implies key(#[trigger] r[i]) != key(
            #[trigger] r[j],
        ) by {
            if i == p {
                let m = choose|m: int| 0 <= m < d.len() && #[trigger] sd[j - 1] == d[m];
                assert(r[j] == s[m] && r[i] == s[s.len() - 1]);
            } else if j == p {
                let m = choose|m: int| 0 <= m < d.len() && #[trigger] sd[i] == d[m];
                assert(r[i] == s[m] && r[j] == s[s.len() - 1]);
            } else {
                let a = if i < p {
                    i
                } else {
                    i - 1
                };
                let b = if j < p {
                    j
                } else {
                    j - 1
                };
                assert(r[i] == sd[a] && r[j] == sd[b]);
            }
        }
    }
}

/// Every value of a sorted sequence is a value of the given one.
proof fn lemma_sort_by_into<T>(s: Seq<T>, le: spec_fn(T, T) -> bool)
    ensures
        sort_by(s, le).len() == s.len(),
        forall|k: int|
            0 <= k < s.len() ==> exists|m: int| 0 <= m < s.len() && #[trigger] sort_by(s, le)[k] == s[m],
    decreases s.len(),
{
    if s.len() > 0 {
        let d = s.drop_last();
        let last = s.last();
        lemma_sort_by_into(d, le);
        let sd = sort_by(d, le);
        let p = lemma_insert_by_inserts(sd, last, le);
        let r = sort_by(s, le);
        assert(r == sd.insert(p, last));
        assert forall|k: int| 0 <= k < s.len() implies exists|m: int|
            0 <= m < s.len() && #[trigger] r[k] == s[m] by {
            if k < p {
                let m = choose|m: int| 0 <= m < d.len() && #[trigger] sd[k] == d[m];
                assert(r[k] == s[m]);
            } else if k == p {
                assert(r[k] == s[s.len() - 1]);
            } else {
                let m = choose|m: int| 0 <= m < d.len() && #[trigger] sd[k - 1] == d[m];
                assert(r[k] == s[m]);
            }
        }
    }
}

/// Every value of a sequence is a value of it sorted.
proof fn lemma_sort_by_onto<T>(s: Seq<T>, le: spec_fn(T, T) -> bool)
    ensures
        sort_by(s, le).len() == s.len(),
        forall|m: int|
            0 <= m < s.len() ==> exists|k: int| 0 <= k < s.len() && sort_by(s, le)[k] == #[trigger] s[m],
    decreases s.len(),
{
    if s.len() > 0 {
        let d = s.drop_last();
        let last = s.last();
        lemma_sort_by_onto(d, le);
        let sd = sort_by(d, le);
        let p = lemma_insert_by_inserts(sd, last, le);
        let r = sort_by(s, le);
        assert(r == sd.insert(p, last));
        assert forall|m: int| 0 <= m < s.len() implies exists|k: int|
            0 <= k < s.len() && r[k] == #[trigger] s[m] by {
            if m == s.len() - 1 {
                assert(r[p] == s[m]);
            } else {
                assert(s[m] == d[m]);
                let k = choose|k: int| 0 <= k < d.len() && sd[k] == #[trigger] d[m];
                if k < p {
                    assert(r[k] == s[m]);
                } else {
                    assert(r[k + 1] == s[m]);
                }
            }
        }
    }
}

/// The sort by a total order puts the values of its sequence in order,
/// keeping every one of them and adding none.
pub proof fn lemma_sort_by_is_sort<T>(s: Seq<T>, le: spec_fn(T, T) -> bool)
    requires
        total_order(le),
    ensures
        sorted_by(sort_by(s, le), le),
        sort_by(s, le).len() == s.len(),
        forall|k: int|
            0 <= k < s.len() ==> exists|m: int| 0 <= m < s.len() && #[trigger] sort_by(s, le)[k] == s[m],
        forall|m: int|
            0 <= m < s.len() ==> exists|k: int| 0 <= k < s.len() && sort_by(s, le)[k] == #[trigger] s[m],
{
    lemma_sort_by_sorted(s, le);
    lemma_sort_by_into(s, le);
    lemma_sort_by_onto(s, le);
}

/// The path and level of a rule.
pub open spec fn rule_key(m: ModuleView) -> (Seq<char>, crate::levels::LogLevel) {
    (m.path, m.level)
}

proof fn lemma_level_le_antisymmetric(a: crate::levels::LogLevel, b: crate::levels::LogLevel)
    requires
        level_le(a, b),
        level_le(b, a),
    ensures
        a == b,
{
    crate::levels::lemma_level_value_roundtrip(a);
    crate::levels::lemma_level_value_roundtrip(b);
}

proof fn lemma_path_level_antisymmetric(a: ModuleView, b: ModuleView)
    requires
        path_level_le(a, b),
        path_level_le(b, a),
    ensures
        rule_key(a) == rule_key(b),
{
    if a.path == b.path {
        lemma_level_le_antisymmetric(a.level, b.level);
    } else {
        lemma_text_le_antisymmetric(a.path, b.path);
    }
}

proof fn lemma_path_level_total_order()
    ensures
        total_order(by_path_level()),
{
    let le = by_path_level();
    assert forall|x: ModuleView, y: ModuleView| #[trigger] le(x, y) || le(y, x) by {
        lemma_text_le_total(x.path, y.path);
    }
    assert forall|x: ModuleView, y: ModuleView, z: ModuleView|
        #[trigger] le(x, y) && #[trigger] le(y, z) implies le(x, z) by {
        if x.path != y.path && y.path != z.path {
            if x.path == z.path {
                lemma_text_le_antisymmetric(x.path, y.path);
            } else {
                lemma_text_le_transitive(x.path, y.path, z.path);
            }
        }
    }
}

proof fn lemma_path_lines_total_order()
    ensures
        total_order(by_path_lines()),
{
    let le = by_path_lines();
    assert forall|x: ModuleView, y: ModuleView| #[trigger] le(x, y) || le(y, x) by {
        lemma_text_le_total(x.path, y.path);
    }
    assert forall|x: ModuleView, y: ModuleView, z: ModuleView|
        #[trigger] le(x, y) && #[trigger] le(y, z) implies le(x, z) by {
        if x.path != y.path && y.path != z.path {
            if x.path == z.path {
                lemma_text_le_antisymmetric(x.path, y.path);
            } else {
                lemma_text_le_transitive(x.path, y.path, z.path);
            }
        }
    }
}

/// The rule covers the line `x`: every line of the file when it has no
/// ranges, else the lines of its ranges.
pub open spec fn rule_covers(m: ModuleView, x: int) -> bool {
    if m.lranges.len() == 0 {
        0 <= x <= u32::MAX
    } else {
        covers(m.lranges, x)
    }
}

/// Some rule of `s` with the path and level `k` covers the line `x`.
pub open spec fn group_covers(s: Seq<ModuleView>, k: (Seq<char>, crate::levels::LogLevel), x: int) -> bool {
    exists|m: int| 0 <= m < s.len() && rule_key(#[trigger] s[m]) == k && rule_covers(s[m], x)
}

/// Every rule of `s` with the path and level `k` has ranges of lines.
pub open spec fn all_lines(s: Seq<ModuleView>, k: (Seq<char>, crate::levels::LogLevel)) -> bool {
    forall|m: int| 0 <= m < s.len() && rule_key(#[trigger] s[m]) == k ==> s[m].lranges.len() > 0
}

/// Ranges as merging leaves them: valid, in order and apart, and never the
/// single range of the whole file.
pub open spec fn tidy(r: Seq<Range>) -> bool {
    &&& all_valid(r)
    &&& separated(r)
    &&& !(r.len() == 1 && whole_file(r[0]))
}

proof fn lemma_covers_concat(a: Seq<Range>, b: Seq<Range>, x: int)
    ensures
        covers(a + b, x) <==> covers(a, x) || covers(b, x),
{
    if covers(a + b, x) {
        let i = choose|i: int| 0 <= i < (a + b).len() && #[trigger] in_range((a + b)[i], x);
        if i >= a.len() {
            assert(in_range(b[i - a.len()], x));
        } else {
            assert(in_range(a[i], x));
        }
    }
    if covers(a, x) {
        let i = choose|i: int| 0 <= i < a.len() && #[trigger] in_range(a[i], x);
        assert(in_range((a + b)[i], x));
    }
    if covers(b, x) {
        let i = choose|i: int| 0 <= i < b.len() && #[trigger] in_range(b[i], x);
        assert(in_range((a + b)[a.len() + i], x));
    }
}

/// Merged ranges are tidy and cover the lines of the given ones; none at all
/// when these cover the whole file.
proof fn lemma_merged_tidy(r: Seq<Range>)
    requires
        all_valid(r),
    ensures
        tidy(spec_merge_ranges(r, true)),
        spec_merge_ranges(r, true).len() > 0 ==> r.len() > 0,
        forall|x: int|
            0 <= x <= u32::MAX ==> (if spec_merge_ranges(r, true).len() == 0 {
                r.len() == 0 || covers(r, x)
            } else {
                covers(spec_merge_ranges(r, true), x) == covers(r, x)
            }),
{
    lemma_merge_ranges(r, true);
    if r.len() == 0 {
        assert(crate::line_range::sort_by_from(r).len() == 0);
    }
}

/// A rule with its ranges merged covers the same lines.
proof fn lemma_normalized(m: ModuleView)
    requires
        all_valid(m.lranges),
    ensures
        rule_key(normalized(m)) == rule_key(m),
        tidy(normalized(m).lranges),
        normalized(m).lranges.len() > 0 ==> m.lranges.len() > 0,
        forall|x: int| 0 <= x <= u32::MAX ==> (rule_covers(normalized(m), x) == rule_covers(m, x)),
{
    lemma_merged_tidy(m.lranges);
}

/// Two rules of one path and level joined cover the lines that either covers.
proof fn lemma_join(a: ModuleView, b: ModuleView)
    requires
        tidy(a.lranges),
        tidy(b.lranges),
    ensures
        tidy(joined_ranges(a.lranges, b.lranges)),
        joined_ranges(a.lranges, b.lranges).len() > 0 ==> a.lranges.len() > 0 && b.lranges.len() > 0,
        forall|x: int|
            0 <= x <= u32::MAX ==> (rule_covers(
                ModuleView { path: a.path, level: a.level, lranges: joined_ranges(a.lranges, b.lranges) },
                x,
            ) == (rule_covers(a, x) || rule_covers(b, x))),
{
    if a.lranges.len() > 0 && b.lranges.len() > 0 {
        let c = a.lranges + b.lranges;
        assert forall|i: int| 0 <= i < c.len() implies crate::line_range::valid_range(#[trigger] c[i]) by {
            if i < a.lranges.len() {
                assert(c[i] == a.lranges[i]);
            } else {
                assert(c[i] == b.lranges[i - a.lranges.len()]);
            }
        }
        lemma_merged_tidy(c);
        let j = ModuleView { path: a.path, level: a.level, lranges: joined_ranges(a.lranges, b.lranges) };
        assert(j.lranges == spec_merge_ranges(c, true));
        assert forall|x: int| 0 <= x <= u32::MAX implies rule_covers(j, x) == (rule_covers(a, x)
            || rule_covers(b, x)) by {
            lemma_covers_concat(a.lranges, b.lranges, x);
        }
    }
}

/// Joining the neighbouring rules of one path and level in rules ordered by
/// path and level leaves each path and level once, still in order.
proof fn lemma_group_from(prev: ModuleView, rest: Seq<ModuleView>)
    requires
        forall|m: int| 0 <= m < rest.len() ==> path_level_le(prev, #[trigger] rest[m]),
        sorted_by(rest, by_path_level()),
    ensures
        forall|i: int, j: int|
            0 <= i < j < group_from(prev, rest).len() ==> path_level_le(
                #[trigger] group_from(prev, rest)[i],
                #[trigger] group_from(prev, rest)[j],
            ) && rule_key(group_from(prev, rest)[i]) != rule_key(group_from(prev, rest)[j]),
        forall|k: int|
            0 <= k < group_from(prev, rest).len() ==> rule_key(#[trigger] group_from(prev, rest)[k])
                == rule_key(prev) || exists|m: int|
                0 <= m < rest.len() && rule_key(group_from(prev, rest)[k]) == rule_key(
                    #[trigger] rest[m],
                ),
    decreases rest.len(),
{
    if rest.len() > 0 {
        let tail = rest.drop_first();
        assert(sorted_by(tail, by_path_level()));
        if prev.path == rest[0].path && prev.level == rest[0].level {
            let merged = ModuleView {
                path: prev.path,
                level: prev.level,
                lranges: joined_ranges(prev.lranges, rest[0].lranges),
            };
            assert forall|m: int| 0 <= m < tail.len() implies path_level_le(
                merged,
                #[trigger] tail[m],
            ) by {
                assert(tail[m] == rest[m + 1]);
                assert(path_level_le(prev, rest[m + 1]));
            }
            lemma_group_from(merged, tail);
            let g = group_from(merged, tail);
            assert(group_from(prev, rest) == g);
            assert forall|k: int| 0 <= k < g.len() implies rule_key(#[trigger] g[k]) == rule_key(
                prev,
            ) || exists|m: int| 0 <= m < rest.len() && rule_key(g[k]) == rule_key(#[trigger] rest[m]) by {
                if rule_key(g[k]) != rule_key(merged) {
                    let m = choose|m: int| 0 <= m < tail.len() && rule_key(g[k]) == rule_key(#[trigger] tail[m]);
                    assert(tail[m] == rest[m + 1]);
                }
            }
        } else {
            let first = rest[0];
            assert forall|m: int| 0 <= m < tail.len() implies path_level_le(
                first,
                #[trigger] tail[m],
            ) by {
                assert(tail[m] == rest[m + 1]);
                assert(path_level_le(rest[0], rest[m + 1]));
            }
            lemma_group_from(first, tail);
            let g = group_from(first, tail);
            let r = group_from(prev, rest);
            assert(r == seq![prev] + g);
            assert forall|k: int| 0 <= k < g.len() implies path_level_le(prev, #[trigger] g[k])
                && rule_key(prev) != rule_key(g[k]) by {
                let m = if rule_key(g[k]) == rule_key(first) {
                    0
                } else {
                    let m1 = choose|m: int| 0 <= m < tail.len() && rule_key(g[k]) == rule_key(#[trigger] tail[m]);
                    assert(tail[m1] == rest[m1 + 1]);
                    m1 + 1
                };
                assert(rule_key(g[k]) == rule_key(rest[m]));
                assert(path_level_le(prev, rest[m]));
                if rule_key(prev) == rule_key(g[k]) {
                    if m > 0 {
                        assert(path_level_le(rest[0], rest[m]));
                    }
                    assert(path_level_le(prev, rest[0]));
                    lemma_path_level_antisymmetric(rest[0], rest[m]);
                }
            }
            assert forall|i: int, j: int| 0 <= i < j < r.len() implies path_level_le(
                #[trigger] r[i],
                #[trigger] r[j],
            ) && rule_key(r[i]) != rule_key(r[j]) by {
                if i == 0 {
                    assert(r[j] == g[j - 1]);
                } else {
                    assert(r[i] == g[i - 1] && r[j] == g[j - 1]);
                }
            }
            assert forall|k: int| 0 <= k < r.len() implies rule_key(#[trigger] r[k]) == rule_key(prev)
                || exists|m: int| 0 <= m < rest.len() && rule_key(r[k]) == rule_key(#[trigger] rest[m]) by {
                if k > 0 {
                    assert(r[k] == g[k - 1]);
                    if rule_key(g[k - 1]) == rule_key(first) {
                        assert(rule_key(r[k]) == rule_key(rest[0]));
                    } else {
                        let m = choose|m: int| 0 <= m < tail.len() && rule_key(g[k - 1]) == rule_key(#[trigger] tail[m]);
                        assert(tail[m] == rest[m + 1]);
                    }
                }
            }
        }
    }
}

proof fn lemma_first_key_alone(prev: ModuleView, rest: Seq<ModuleView>)
    requires
        rest.len() > 0,
        forall|m: int| 0 <= m < rest.len() ==> path_level_le(prev, #[trigger] rest[m]),
        sorted_by(rest, by_path_level()),
        rule_key(prev) != rule_key(rest[0]),
    ensures
        forall|m: int| 0 <= m < rest.len() ==> rule_key(prev) != rule_key(#[trigger] rest[m]),
{
    assert forall|m: int| 0 <= m < rest.len() implies rule_key(prev) != rule_key(#[trigger] rest[m]) by {
        if rule_key(prev) == rule_key(rest[m]) {
            if m > 0 {
                assert(by_path_level()(rest[0], rest[m]));
            }
            assert(path_level_le(prev, rest[0]));
            assert(path_level_le(rest[m], rest[0]));
            lemma_path_level_antisymmetric(rest[0], rest[m]);
        }
    }
}

/// Joining the neighbouring rules of one path and level keeps, for each path
/// and level, exactly the lines its rules cover, and leaves tidy ranges.
proof fn lemma_group_lines(prev: ModuleView, rest: Seq<ModuleView>)
    requires
        forall|m: int| 0 <= m < rest.len() ==> path_level_le(prev, #[trigger] rest[m]),
        sorted_by(rest, by_path_level()),
        tidy(prev.lranges),
        forall|m: int| 0 <= m < rest.len() ==> tidy(#[trigger] rest[m].lranges),
    ensures
        forall|k: int|
            0 <= k < group_from(prev, rest).len() ==> tidy(#[trigger] group_from(prev, rest)[k].lranges),
        forall|k: int, x: int|
            0 <= k < group_from(prev, rest).len() && 0 <= x <= u32::MAX ==> (#[trigger] rule_covers(
                group_from(prev, rest)[k],
                x,
            ) == group_covers(seq![prev] + rest, rule_key(group_from(prev, rest)[k]), x)),
        forall|k: int|
            0 <= k < group_from(prev, rest).len() && (#[trigger] group_from(prev, rest)[k]).lranges.len()
                > 0 ==> all_lines(seq![prev] + rest, rule_key(group_from(prev, rest)[k])),
        forall|m: int|
            0 <= m < (seq![prev] + rest).len() ==> exists|k: int|
                0 <= k < group_from(prev, rest).len() && rule_key(group_from(prev, rest)[k])
                    == rule_key(#[trigger] (seq![prev] + rest)[m]),
    decreases rest.len(),
{
    let t = seq![prev] + rest;
    let g = group_from(prev, rest);
    if rest.len() == 0 {
        assert(g == seq![prev]);
        assert forall|k: int, x: int| 0 <= k < g.len() && 0 <= x <= u32::MAX implies (#[trigger] rule_covers(
            g[k],
            x,
        ) == group_covers(t, rule_key(g[k]), x)) by {
            assert(t[0] == prev);
        }
        assert forall|m: int| 0 <= m < t.len() implies exists|k: int|
            0 <= k < g.len() && rule_key(g[k]) == rule_key(#[trigger] t[m]) by {
            assert(t[m] == g[0]);
        }
    } else {
        let tail = rest.drop_first();
        assert(sorted_by(tail, by_path_level()));
        assert forall|m: int| 0 <= m < tail.len() implies tidy(#[trigger] tail[m].lranges) by {
            assert(tail[m] == rest[m + 1]);
        }
        assert(tidy(rest[0].lranges));
        if prev.path == rest[0].path && prev.level == rest[0].level {
            let merged = ModuleView {
                path: prev.path,
                level: prev.level,
                lranges: joined_ranges(prev.lranges, rest[0].lranges),
            };
            lemma_join(prev, rest[0]);
            assert forall|m: int| 0 <= m < tail.len() implies path_level_le(
                merged,
                #[trigger] tail[m],
            ) by {
                assert(tail[m] == rest[m + 1]);
                assert(path_level_le(prev, rest[m + 1]));
            }
            lemma_group_lines(merged, tail);
            let t2 = seq![merged] + tail;
            assert(g == group_from(merged, tail));
            assert forall|k: int, x: int| 0 <= k < g.len() && 0 <= x <= u32::MAX implies (#[trigger] rule_covers(
                g[k],
                x,
            ) == group_covers(t, rule_key(g[k]), x)) by {
                let key = rule_key(g[k]);
                assert(rule_covers(g[k], x) == group_covers(t2, key, x));
                if group_covers(t2, key, x) {
                    let m = choose|m: int| 0 <= m < t2.len() && rule_key(#[trigger] t2[m]) == key && rule_covers(t2[m], x);
                    if m == 0 {
                        if rule_covers(prev, x) {
                            assert(t[0] == prev);
                        } else {
                            assert(t[1] == rest[0]);
                        }
                    } else {
                        assert(t2[m] == t[m + 1]);
                    }
                }
                if group_covers(t, key, x) {
                    let m = choose|m: int| 0 <= m < t.len() && rule_key(#[trigger] t[m]) == key && rule_covers(t[m], x);
                    if m <= 1 {
                        assert(t2[0] == merged);
                        assert(t[0] == prev && t[1] == rest[0]);
                    } else {
                        assert(t[m] == t2[m - 1]);
                    }
                }
            }
            assert forall|k: int| 0 <= k < g.len() && (#[trigger] g[k]).lranges.len() > 0 implies all_lines(
                t,
                rule_key(g[k]),
            ) by {
                let key = rule_key(g[k]);
                assert(all_lines(t2, key));
                assert forall|m: int| 0 <= m < t.len() && rule_key(#[trigger] t[m]) == key implies t[m].lranges.len() > 0 by {
                    if m <= 1 {
                        assert(t2[0] == merged);
                        assert(rule_key(t2[0]) == key);
                        assert(t[0] == prev && t[1] == rest[0]);
                    } else {
                        assert(t[m] == t2[m - 1]);
                    }
                }
            }
            assert forall|m: int| 0 <= m < t.len() implies exists|k: int|
                0 <= k < g.len() && rule_key(g[k]) == rule_key(#[trigger] t[m]) by {
                if m <= 1 {
                    assert(t2[0] == merged);
                    assert(t[0] == prev && t[1] == rest[0]);
                    let k = choose|k: int| 0 <= k < g.len() && rule_key(g[k]) == rule_key(#[trigger] t2[0]);
                } else {
                    assert(t[m] == t2[m - 1]);
                    let k = choose|k: int| 0 <= k < g.len() && rule_key(g[k]) == rule_key(#[trigger] t2[m - 1]);
                }
            }
        } else {
            let first = rest[0];
            assert forall|m: int| 0 <= m < tail.len() implies path_level_le(
                first,
                #[trigger] tail[m],
            ) by {
                assert(tail[m] == rest[m + 1]);
                assert(path_level_le(rest[0], rest[m + 1]));
            }
            lemma_group_lines(first, tail);
            lemma_first_key_alone(prev, rest);
            lemma_group_from(prev, rest);
            let g2 = group_from(first, tail);
            assert(seq![first] + tail =~= rest);
            assert(g == seq![prev] + g2);
            assert forall|k: int| 0 <= k < g.len() implies tidy(#[trigger] g[k].lranges) by {
                if k > 0 {
                    assert(g[k] == g2[k - 1]);
                }
            }
            assert forall|k: int, x: int| 0 <= k < g.len() && 0 <= x <= u32::MAX implies (#[trigger] rule_covers(
                g[k],
                x,
            ) == group_covers(t, rule_key(g[k]), x)) by {
                let key = rule_key(g[k]);
                if k == 0 {
                    assert(t[0] == prev);
                    if group_covers(t, key, x) {
                        let m = choose|m: int| 0 <= m < t.len() && rule_key(#[trigger] t[m]) == key && rule_covers(t[m], x);
                        if m > 0 {
                            assert(t[m] == rest[m - 1]);
                        }
                    }
                } else {
                    assert(g[k] == g2[k - 1]);
                    assert(rule_key(g[0]) != rule_key(g[k]));
                    assert(rule_covers(g2[k - 1], x) == group_covers(rest, key, x));
                    if group_covers(t, key, x) {
                        let m = choose|m: int| 0 <= m < t.len() && rule_key(#[trigger] t[m]) == key && rule_covers(t[m], x);
                        assert(m > 0);
                        assert(t[m] == rest[m - 1]);
                    }
                    if group_covers(rest, key, x) {
                        let m = choose|m: int| 0 <= m < rest.len() && rule_key(#[trigger] rest[m]) == key && rule_covers(rest[m], x);
                        assert(t[m + 1] == rest[m]);
                    }
                }
            }
            assert forall|k: int| 0 <= k < g.len() && (#[trigger] g[k]).lranges.len() > 0 implies all_lines(
                t,
                rule_key(g[k]),
            ) by {
                let key = rule_key(g[k]);
                assert forall|m: int| 0 <= m < t.len() && rule_key(#[trigger] t[m]) == key implies t[m].lranges.len() > 0 by {
                    if k == 0 {
                        if m > 0 {
                            assert(t[m] == rest[m - 1]);
                        }
                    } else {
                        assert(g[k] == g2[k - 1]);
                        assert(all_lines(rest, key));
                        assert(rule_key(g[0]) != rule_key(g[k]));
                        if m > 0 {
                            assert(t[m] == rest[m - 1]);
                        }
                    }
                }
            }
            assert forall|m: int| 0 <= m < t.len() implies exists|k: int|
                0 <= k < g.len() && rule_key(g[k]) == rule_key(#[trigger] t[m]) by {
                if m == 0 {
                    assert(g[0] == t[0]);
                } else {
                    assert(t[m] == rest[m - 1]);
                    let k = choose|k: int| 0 <= k < g2.len() && rule_key(g2[k]) == rule_key(#[trigger] rest[m - 1]);
                    assert(g[k + 1] == g2[k]);
                }
            }
        }
    }
}

/// The rules sorted by path and level, with their ranges merged.
pub open spec fn first_pass(t: Seq<ModuleView>) -> Seq<ModuleView> {
    all_normalized(sort_by(t, by_path_level()))
}

/// Every rule has valid ranges.
pub open spec fn valid_rules(t: Seq<ModuleView>) -> bool {
    forall|m: int| 0 <= m < t.len() ==> all_valid(#[trigger] t[m].lranges)
}

/// A rule of the first pass is a given rule with its ranges merged.
proof fn lemma_first_pass_at(t: Seq<ModuleView>, i: int)
    requires
        valid_rules(t),
        0 <= i < t.len(),
    ensures
        first_pass(t).len() == t.len(),
        exists|n: int| 0 <= n < t.len() && #[trigger] sort_by(t, by_path_level())[i] == t[n],
        first_pass(t)[i] == normalized(sort_by(t, by_path_level())[i]),
        tidy(first_pass(t)[i].lranges),
        rule_key(first_pass(t)[i]) == rule_key(sort_by(t, by_path_level())[i]),
        first_pass(t)[i].lranges.len() > 0 ==> sort_by(t, by_path_level())[i].lranges.len() > 0,
        forall|x: int|
            0 <= x <= u32::MAX ==> rule_covers(first_pass(t)[i], x) == rule_covers(
                sort_by(t, by_path_level())[i],
                x,
            ),
{
    let sv = sort_by(t, by_path_level());
    lemma_sort_by_into(t, by_path_level());
    let n = choose|n: int| 0 <= n < t.len() && #[trigger] sv[i] == t[n];
    assert(all_valid(t[n].lranges));
    lemma_normalized(sv[i]);
}

/// The first pass is in order by path and level, with tidy ranges.
proof fn lemma_first_pass_order(t: Seq<ModuleView>)
    requires
        t.len() > 0,
        valid_rules(t),
    ensures
        first_pass(t).len() == t.len(),
        tidy(first_pass(t)[0].lranges),
        forall|m: int|
            0 <= m < first_pass(t).drop_first().len() ==> path_level_le(
                first_pass(t)[0],
                #[trigger] first_pass(t).drop_first()[m],
            ) && tidy(first_pass(t).drop_first()[m].lranges),
        sorted_by(first_pass(t).drop_first(), by_path_level()),
        seq![first_pass(t)[0]] + first_pass(t).drop_first() == first_pass(t),
{
    let sv = sort_by(t, by_path_level());
    assert(sorted_by(sv, by_path_level())) by {
        lemma_path_level_total_order();
        lemma_sort_by_sorted(t, by_path_level());
    }
    let s1 = first_pass(t);
    lemma_first_pass_at(t, 0);
    let rest = s1.drop_first();
    assert(seq![s1[0]] + rest =~= s1);
    assert forall|m: int| 0 <= m < rest.len() implies path_level_le(s1[0], #[trigger] rest[m]) && tidy(
        rest[m].lranges,
    ) by {
        lemma_first_pass_at(t, m + 1);
        assert(rest[m] == s1[m + 1]);
        assert(path_level_le(sv[0], sv[m + 1]));
    }
    assert forall|i: int, j: int| 0 <= i < j < rest.len() implies #[trigger] by_path_level()(
        rest[i],
        rest[j],
    ) by {
        lemma_first_pass_at(t, i + 1);
        lemma_first_pass_at(t, j + 1);
        assert(rest[i] == s1[i + 1] && rest[j] == s1[j + 1]);
        assert(path_level_le(sv[i + 1], sv[j + 1]));
    }
}

/// For each path and level, the first pass covers the lines the given rules
/// cover, and has lines only where they all have.
proof fn lemma_first_pass_lines(t: Seq<ModuleView>)
    requires
        t.len() > 0,
        valid_rules(t),
    ensures
        forall|k: (Seq<char>, crate::levels::LogLevel), x: int|
            0 <= x <= u32::MAX ==> #[trigger] group_covers(first_pass(t), k, x) == group_covers(t, k, x),
        forall|k: (Seq<char>, crate::levels::LogLevel)| #[trigger] all_lines(first_pass(t), k) ==> all_lines(t, k),
{
    let sv = sort_by(t, by_path_level());
    let s1 = first_pass(t);
    lemma_first_pass_at(t, 0);
    assert forall|k: (Seq<char>, crate::levels::LogLevel), x: int| 0 <= x <= u32::MAX implies #[trigger] group_covers(
        s1,
        k,
        x,
    ) == group_covers(t, k, x) by {
        if group_covers(s1, k, x) {
            let m = choose|m: int| 0 <= m < s1.len() && rule_key(#[trigger] s1[m]) == k && rule_covers(s1[m], x);
            lemma_first_pass_at(t, m);
            let n = choose|n: int| 0 <= n < t.len() && #[trigger] sv[m] == t[n];
            assert(rule_covers(sv[m], x));
            assert(rule_key(t[n]) == k && rule_covers(t[n], x));
        }
        if group_covers(t, k, x) {
            let n = choose|n: int| 0 <= n < t.len() && rule_key(#[trigger] t[n]) == k && rule_covers(t[n], x);
            lemma_sort_by_onto(t, by_path_level());
            let m = choose|m: int| 0 <= m < t.len() && sv[m] == #[trigger] t[n];
            lemma_first_pass_at(t, m);
            assert(rule_covers(s1[m], x));
            assert(rule_key(s1[m]) == k);
        }
    }
    assert forall|k: (Seq<char>, crate::levels::LogLevel)| #[trigger] all_lines(s1, k) implies all_lines(t, k) by {
        assert forall|n: int| 0 <= n < t.len() && rule_key(#[trigger] t[n]) == k implies t[n].lranges.len() > 0 by {
            lemma_sort_by_onto(t, by_path_level());
            let m = choose|m: int| 0 <= m < t.len() && sv[m] == #[trigger] t[n];
            lemma_first_pass_at(t, m);
            assert(rule_key(s1[m]) == k);
        }
    }
}

/// The rules of one path and level joined, before the second sort.
pub open spec fn joined_pass(t: Seq<ModuleView>) -> Seq<ModuleView> {
    group_from(first_pass(t)[0], first_pass(t).drop_first())
}

proof fn lemma_joined_pass(t: Seq<ModuleView>)
    requires
        t.len() > 0,
        valid_rules(t),
    ensures
        keys_distinct(joined_pass(t), |m: ModuleView| rule_key(m)),
        forall|k: int| 0 <= k < joined_pass(t).len() ==> tidy(#[trigger] joined_pass(t)[k].lranges),
        forall|k: int, x: int|
            0 <= k < joined_pass(t).len() && 0 <= x <= u32::MAX ==> (#[trigger] rule_covers(
                joined_pass(t)[k],
                x,
            ) == group_covers(t, rule_key(joined_pass(t)[k]), x)),
        forall|k: int|
            0 <= k < joined_pass(t).len() && (#[trigger] joined_pass(t)[k]).lranges.len() > 0
                ==> all_lines(t, rule_key(joined_pass(t)[k])),
        forall|k: int|
            0 <= k < joined_pass(t).len() ==> exists|n: int|
                0 <= n < t.len() && rule_key(#[trigger] joined_pass(t)[k]) == rule_key(t[n]),
        forall|n: int|
            0 <= n < t.len() ==> exists|k: int|
                0 <= k < joined_pass(t).len() && rule_key(joined_pass(t)[k]) == rule_key(#[trigger] t[n]),
{
    let s1 = first_pass(t);
    let rest = s1.drop_first();
    let g = joined_pass(t);
    let key = |m: ModuleView| rule_key(m);
    lemma_first_pass_order(t);
    assert forall|i: int, j: int| 0 <= i < j < g.len() implies key(#[trigger] g[i]) != key(#[trigger] g[j]) by {
        lemma_group_from(s1[0], rest);
        assert(rule_key(g[i]) != rule_key(g[j]));
    }
    assert forall|k: int| 0 <= k < g.len() implies tidy(#[trigger] g[k].lranges) by {
        lemma_group_lines(s1[0], rest);
    }
    assert forall|k: int, x: int| 0 <= k < g.len() && 0 <= x <= u32::MAX implies (#[trigger] rule_covers(g[k], x)
        == group_covers(t, rule_key(g[k]), x)) by {
        lemma_group_lines(s1[0], rest);
        lemma_first_pass_lines(t);
        assert(rule_covers(g[k], x) == group_covers(seq![s1[0]] + rest, rule_key(g[k]), x));
        assert(group_covers(s1, rule_key(g[k]), x) == group_covers(t, rule_key(g[k]), x));
    }
    assert forall|k: int| 0 <= k < g.len() && (#[trigger] g[k]).lranges.len() > 0 implies all_lines(
        t,
        rule_key(g[k]),
    ) by {
        lemma_group_lines(s1[0], rest);
        lemma_first_pass_lines(t);
        assert(all_lines(seq![s1[0]] + rest, rule_key(g[k])));
        assert(all_lines(s1, rule_key(g[k])));
    }
    assert forall|k: int| 0 <= k < g.len() implies exists|n: int|
        0 <= n < t.len() && rule_key(#[trigger] g[k]) == rule_key(t[n]) by {
        lemma_group_from(s1[0], rest);
        let i = if rule_key(g[k]) == rule_key(s1[0]) {
            0
        } else {
            let i1 = choose|i1: int| 0 <= i1 < rest.len() && rule_key(g[k]) == rule_key(#[trigger] rest[i1]);
            assert(rest[i1] == s1[i1 + 1]);
            i1 + 1
        };
        assert(rule_key(s1[i]) == rule_key(g[k]));
        lemma_first_pass_at(t, i);
        let sv = sort_by(t, by_path_level());
        let n = choose|n: int| 0 <= n < t.len() && #[trigger] sv[i] == t[n];
        assert(rule_key(g[k]) == rule_key(t[n]));
    }
    assert forall|n: int| 0 <= n < t.len() implies exists|k: int|
        0 <= k < g.len() && rule_key(g[k]) == rule_key(#[trigger] t[n]) by {
        let sv = sort_by(t, by_path_level());
        lemma_sort_by_onto(t, by_path_level());
        let i = choose|i: int| 0 <= i < t.len() && sv[i] == #[trigger] t[n];
        lemma_first_pass_at(t, i);
        assert(rule_key(s1[i]) == rule_key(t[n]));
        assert(s1[i] == (seq![s1[0]] + rest)[i]);
        lemma_group_lines(s1[0], rest);
        let k = choose|k: int| 0 <= k < g.len() && rule_key(g[k]) == rule_key(#[trigger] (seq![s1[0]] + rest)[i]);
    }
}

/// Two rules that share a line of their ranges, with valid ranges, conflict
/// when their paths are one and their levels differ.
proof fn lemma_no_shared_line(t: Seq<ModuleView>, a: ModuleView, b: ModuleView, x: int)
    requires
        valid_rules(t),
        !has_conflict(t),
        a.path == b.path,
        a.level != b.level,
        0 <= x <= u32::MAX,
        all_lines(t, rule_key(a)),
        all_lines(t, rule_key(b)),
        group_covers(t, rule_key(a), x),
    ensures
        !group_covers(t, rule_key(b), x),
{
    if group_covers(t, rule_key(b), x) {
        let mi = choose|m: int| 0 <= m < t.len() && rule_key(#[trigger] t[m]) == rule_key(a) && rule_covers(t[m], x);
        let mj = choose|m: int| 0 <= m < t.len() && rule_key(#[trigger] t[m]) == rule_key(b) && rule_covers(t[m], x);
        assert(t[mi].lranges.len() > 0 && t[mj].lranges.len() > 0);
        let ca = choose|c: int| 0 <= c < t[mi].lranges.len() && #[trigger] in_range(t[mi].lranges[c], x);
        let cb = choose|c: int| 0 <= c < t[mj].lranges.len() && #[trigger] in_range(t[mj].lranges[c], x);
        assert(all_valid(t[mi].lranges) && all_valid(t[mj].lranges));
        lemma_intersects(t[mi].lranges[ca], t[mj].lranges[cb]);
        assert(spec_intersects(t[mi].lranges[ca], t[mj].lranges[cb]));
        assert(conflicting(t[mi], t[mj]));
        assert(has_conflict(t));
    }
}

proof fn lemma_squashed_order(t: Seq<ModuleView>)
    requires
        t.len() > 0,
        valid_rules(t),
    ensures
        forall|i: int, j: int|
            0 <= i < j < squashed_modules(t).len() ==> rule_key(#[trigger] squashed_modules(t)[i]) != rule_key(
                #[trigger] squashed_modules(t)[j],
            ),
        forall|i: int, j: int|
            0 <= i < j < squashed_modules(t).len() ==> path_lines_le(
                #[trigger] squashed_modules(t)[i],
                #[trigger] squashed_modules(t)[j],
            ),
{
    let g = joined_pass(t);
    let key = |m: ModuleView| rule_key(m);
    assert(keys_distinct(g, key)) by {
        lemma_joined_pass(t);
    }
    lemma_sort_by_keeps(g, by_path_lines(), key);
    let s = sort_by(g, by_path_lines());
    assert(sorted_by(s, by_path_lines())) by {
        lemma_path_lines_total_order();
        lemma_sort_by_sorted(g, by_path_lines());
    }
    assert(s == squashed_modules(t));
    assert forall|i: int, j: int| 0 <= i < j < s.len() implies rule_key(#[trigger] s[i])
        != rule_key(#[trigger] s[j]) by {
        assert(key(s[i]) != key(s[j]));
    }
    assert forall|i: int, j: int| 0 <= i < j < s.len() implies path_lines_le(
        #[trigger] s[i],
        #[trigger] s[j],
    ) by {
        assert(by_path_lines()(s[i], s[j]));
    }
}

proof fn lemma_squashed_keys(t: Seq<ModuleView>)
    requires
        t.len() > 0,
        valid_rules(t),
    ensures
        forall|k: int|
            0 <= k < squashed_modules(t).len() ==> exists|m: int|
                0 <= m < t.len() && rule_key(#[trigger] squashed_modules(t)[k]) == rule_key(t[m]),
        forall|m: int|
            0 <= m < t.len() ==> exists|k: int|
                0 <= k < squashed_modules(t).len() && rule_key(squashed_modules(t)[k]) == rule_key(#[trigger] t[m]),
{
    let g = joined_pass(t);
    let s = sort_by(g, by_path_lines());
    assert(s == squashed_modules(t));
    assert forall|k: int| 0 <= k < s.len() implies exists|m: int|
        0 <= m < t.len() && rule_key(#[trigger] s[k]) == rule_key(t[m]) by {
        lemma_sort_by_into(g, by_path_lines());
        let j = choose|j: int| 0 <= j < g.len() && #[trigger] s[k] == g[j];
        lemma_joined_pass(t);
        let n = choose|n: int| 0 <= n < t.len() && rule_key(#[trigger] g[j]) == rule_key(t[n]);
    }
    assert forall|n: int| 0 <= n < t.len() implies exists|k: int|
        0 <= k < s.len() && rule_key(s[k]) == rule_key(#[trigger] t[n]) by {
        lemma_joined_pass(t);
        let j = choose|j: int| 0 <= j < g.len() && rule_key(g[j]) == rule_key(#[trigger] t[n]);
        lemma_sort_by_onto(g, by_path_lines());
        let k = choose|k: int| 0 <= k < g.len() && s[k] == #[trigger] g[j];
    }
}

proof fn lemma_squashed_lines(t: Seq<ModuleView>)
    requires
        t.len() > 0,
        valid_rules(t),
    ensures
        forall|k: int| 0 <= k < squashed_modules(t).len() ==> tidy(#[trigger] squashed_modules(t)[k].lranges),
        forall|k: int, x: int|
            0 <= k < squashed_modules(t).len() && 0 <= x <= u32::MAX ==> (#[trigger] rule_covers(
                squashed_modules(t)[k],
                x,
            ) == group_covers(t, rule_key(squashed_modules(t)[k]), x)),
        forall|k: int|
            0 <= k < squashed_modules(t).len() && (#[trigger] squashed_modules(t)[k]).lranges.len() > 0
                ==> all_lines(t, rule_key(squashed_modules(t)[k])),
{
    let g = joined_pass(t);
    let s = sort_by(g, by_path_lines());
    assert(s == squashed_modules(t));
    lemma_sort_by_into(g, by_path_lines());
    lemma_joined_pass(t);
    assert forall|k: int| 0 <= k < s.len() implies tidy(#[trigger] s[k].lranges) by {
        let j = choose|j: int| 0 <= j < g.len() && #[trigger] s[k] == g[j];
    }
    assert forall|k: int, x: int| 0 <= k < s.len() && 0 <= x <= u32::MAX implies (#[trigger] rule_covers(s[k], x)
        == group_covers(t, rule_key(s[k]), x)) by {
        let j = choose|j: int| 0 <= j < g.len() && #[trigger] s[k] == g[j];
        assert(rule_covers(g[j], x) == group_covers(t, rule_key(g[j]), x));
    }
    assert forall|k: int| 0 <= k < s.len() && (#[trigger] s[k]).lranges.len() > 0 implies all_lines(
        t,
        rule_key(s[k]),
    ) by {
        let j = choose|j: int| 0 <= j < g.len() && #[trigger] s[k] == g[j];
    }
}

proof fn lemma_squashed_apart(t: Seq<ModuleView>)
    requires
        t.len() > 0,
        valid_rules(t),
        !has_conflict(t),
    ensures
        forall|i: int, j: int|
            0 <= i < squashed_modules(t).len() && 0 <= j < squashed_modules(t).len() ==> !#[trigger] conflicting(
                squashed_modules(t)[i],
                squashed_modules(t)[j],
            ),
{
    let s = squashed_modules(t);
    lemma_squashed_lines(t);
    assert forall|i: int, j: int| 0 <= i < s.len() && 0 <= j < s.len() implies !#[trigger] conflicting(s[i], s[j]) by {
        if conflicting(s[i], s[j]) {
            let (a, b) = choose|a: int, b: int|
                0 <= a < s[i].lranges.len() && 0 <= b < s[j].lranges.len() && spec_intersects(
                    #[trigger] s[i].lranges[a],
                    #[trigger] s[j].lranges[b],
                );
            let ra = s[i].lranges[a];
            let rb = s[j].lranges[b];
            assert(tidy(s[i].lranges) && tidy(s[j].lranges));
            lemma_intersects(ra, rb);
            let x = choose|x: int| in_range(ra, x) && in_range(rb, x);
            assert(covers(s[i].lranges, x));
            assert(covers(s[j].lranges, x));
            assert(rule_covers(s[i], x) && rule_covers(s[j], x));
            lemma_no_shared_line(t, s[i], s[j], x);
        }
    }
}

/// What a squashed spec holds, for rules with valid ranges: the global level
/// as given; each path and level of the given rules exactly once, with no
/// other; for each of them, exactly the lines that the given rules of that
/// path and level cover (no ranges at all standing for the whole file), in
/// ranges in order and apart; the rules ordered by path and, for one path, the
/// rules for the whole file (the most severe first) before the rules for lines
/// (by level); and no two rules of one path with different levels share a line.
pub proof fn lemma_squash_shape(root: RootView)
    requires
        squash_result(root) is Ok,
        valid_rules(root.modules),
    ensures
        ({
            let r = squash_result(root)->Ok_0;
            let s = r.modules;
            let t = root.modules;
            &&& r.level == root.level
            &&& t.len() == 0 ==> r == root
            &&& forall|i: int, j: int|
                0 <= i < j < s.len() ==> rule_key(#[trigger] s[i]) != rule_key(#[trigger] s[j])
            &&& forall|i: int, j: int|
                0 <= i < j < s.len() ==> path_lines_le(#[trigger] s[i], #[trigger] s[j])
            &&& forall|k: int|
                0 <= k < s.len() ==> exists|m: int| 0 <= m < t.len() && rule_key(#[trigger] s[k]) == rule_key(t[m])
            &&& forall|m: int|
                0 <= m < t.len() ==> exists|k: int| 0 <= k < s.len() && rule_key(s[k]) == rule_key(#[trigger] t[m])
            &&& forall|k: int| 0 <= k < s.len() ==> tidy(#[trigger] s[k].lranges)
            &&& forall|k: int, x: int|
                0 <= k < s.len() && 0 <= x <= u32::MAX ==> (#[trigger] rule_covers(s[k], x) == group_covers(
                    t,
                    rule_key(s[k]),
                    x,
                ))
            &&& forall|i: int, j: int| 0 <= i < s.len() && 0 <= j < s.len() ==> !#[trigger] conflicting(s[i], s[j])
        }),
{
    let t = root.modules;
    if t.len() > 0 {
        assert(!has_conflict(t));
        lemma_squashed_order(t);
        lemma_squashed_lines(t);
        lemma_squashed_apart(t);
        lemma_squashed_keys(t);
    }
}

/// No rule has ranges of lines.
pub open spec fn no_lines(s: Seq<ModuleView>) -> bool {
    forall|m: int| 0 <= m < s.len() ==> (#[trigger] s[m]).lranges.len() == 0
}

proof fn lemma_tokens_no_lines(root: RootView, tokens: Seq<Seq<char>>)
    requires
        no_lines(root.modules),
    ensures
        tokens_effect(root, tokens) matches Ok(r) ==> no_lines(r.modules),
    decreases tokens.len(),
{
    if tokens.len() > 0 {
        match token_effect(root, tokens[0]) {
            Ok(r) => {
                assert(no_lines(r.modules));
                lemma_tokens_no_lines(r, tokens.drop_first());
            },
            Err(_) => {},
        }
    }
}

/// A squash of rules without lines gives rules without lines.
proof fn lemma_squash_no_lines(root: RootView)
    requires
        no_lines(root.modules),
        squash_result(root) is Ok,
    ensures
        no_lines(squash_result(root)->Ok_0.modules),
{
    let t = root.modules;
    if t.len() > 0 {
        assert(valid_rules(t));
        let s = squashed_modules(t);
        assert forall|k: int| 0 <= k < s.len() implies (#[trigger] s[k]).lranges.len() == 0 by {
            if s[k].lranges.len() > 0 {
                lemma_squashed_lines(t);
                lemma_squashed_keys(t);
                assert(all_lines(t, rule_key(s[k])));
                let m = choose|m: int| 0 <= m < t.len() && rule_key(#[trigger] s[k]) == rule_key(t[m]);
                assert(t[m].lranges.len() > 0);
            }
        }
    }
}

/// An `env_logger`-style spec (one that does not start with `{`) gives rules
/// for whole files only.
pub proof fn lemma_env_spec_no_lines(s: Seq<char>)
    requires
        trim(s).len() > 0,
        trim(s)[0] != '{',
    ensures
        parse_result(s) matches Ok(r) ==> no_lines(r.modules),
{
    assert(no_lines(empty_root().modules));
    lemma_tokens_no_lines(empty_root(), split(trim(s), ','));
    match tokens_effect(empty_root(), split(trim(s), ',')) {
        Ok(r) => {
            if squash_result(r) is Ok {
                lemma_squash_no_lines(r);
            }
        },
        Err(_) => {},
    }
}

} // verus!
