//! The level rules of the logger: per-path levels, optionally per range of
//! lines, looked up hierarchically.
use vstd::prelude::*;

use crate::global::Global;
use crate::levels::{LogLevel, level_le};
use crate::line_range::{LineRangeSpec, in_range, spec, spec_merge_ranges, with_level};
use crate::spec::{ModuleView, Root};
use crate::text::{chars_of, chars_eq, prefix_of, is_prefix, is_suffix, ends_with, has_char};

verus! {

/// The level rule registered for a path.
pub struct ModuleSpec {
    level: LogLevel,
    lranges: Vec<LineRangeSpec>,
}

/// What a rule holds: the level of the path, and the levels of ranges of its
/// lines (none for a rule of the whole file).
pub struct Rule {
    pub level: LogLevel,
    pub lranges: Seq<LineRangeSpec>,
}

/// The level rules, by path.
pub struct RootLogger {
    loggers: Vec<(String, ModuleSpec)>,
}

spec fn rule_of(m: ModuleSpec) -> Rule {
    Rule { level: m.level, lranges: m.lranges@ }
}

spec fn map_of(s: Seq<(String, ModuleSpec)>) -> Map<Seq<char>, Rule>
    decreases s.len(),
{
    if s.len() == 0 {
        Map::empty()
    } else {
        map_of(s.drop_last()).insert(s.last().0@, rule_of(s.last().1))
    }
}

spec fn unique_keys(s: Seq<(String, ModuleSpec)>) -> bool {
    forall|i: int, j: int| 0 <= i < j < s.len() ==> (#[trigger] s[i]).0@ != (#[trigger] s[j]).0@
}

proof fn lemma_map_of(s: Seq<(String, ModuleSpec)>)
    requires
        unique_keys(s),
    ensures
        forall|k: Seq<char>|
            #[trigger] map_of(s).dom().contains(k) <==> exists|i: int|
                0 <= i < s.len() && (#[trigger] s[i]).0@ == k,
        forall|i: int| 0 <= i < s.len() ==> map_of(s)[(#[trigger] s[i]).0@] == rule_of(s[i].1),
    decreases s.len(),
{
    if s.len() > 0 {
        let d = s.drop_last();
        assert(unique_keys(d));
        lemma_map_of(d);
        assert forall|k: Seq<char>|
            #[trigger] map_of(s).dom().contains(k) <==> exists|i: int|
                0 <= i < s.len() && (#[trigger] s[i]).0@ == k by {
            if map_of(s).dom().contains(k) {
                if k == s.last().0@ {
                    assert(s[s.len() - 1].0@ == k);
                } else {
                    assert(map_of(d).dom().contains(k));
                    let i = choose|i: int| 0 <= i < d.len() && (#[trigger] d[i]).0@ == k;
                    assert(s[i] == d[i]);
                }
            }
            if exists|i: int| 0 <= i < s.len() && (#[trigger] s[i]).0@ == k {
                let i = choose|i: int| 0 <= i < s.len() && (#[trigger] s[i]).0@ == k;
                if i < s.len() - 1 {
                    assert(d[i] == s[i]);
                    assert(map_of(d).dom().contains(k));
                }
            }
        }
        assert forall|i: int| 0 <= i < s.len() implies map_of(s)[(#[trigger] s[i]).0@] == rule_of(
            s[i].1,
        ) by {
            if i < s.len() - 1 {
                assert(d[i] == s[i]);
                assert(s[i].0@ != s[s.len() - 1].0@);
            }
        }
    }
}

/// The length of the longest prefix of `path`, at most `n` long, that has a rule.
pub open spec fn longest_rule(rules: Map<Seq<char>, Rule>, path: Seq<char>, n: nat) -> Option<nat>
    decreases n,
{
    if n <= path.len() && rules.dom().contains(path.take(n as int)) {
        Some(n)
    } else if n == 0 {
        None
    } else {
        longest_rule(rules, path, (n - 1) as nat)
    }
}

/// The level of the first range spec that holds `line`.
pub open spec fn first_spec_at(lr: Seq<LineRangeSpec>, line: u32) -> Option<LogLevel>
    decreases lr.len(),
{
    if lr.len() == 0 {
        None
    } else if in_range(lr[0].range, line as int) {
        Some(lr[0].level)
    } else {
        first_spec_at(lr.drop_first(), line)
    }
}

/// The level that a rule gives to `line`: the level of the first of its ranges
/// that holds the line, else the level of the rule. The last line of the file
/// stands for the file as a whole.
pub open spec fn rule_level(r: Rule, line: u32) -> LogLevel {
    if line == u32::MAX || r.lranges.len() == 0 {
        r.level
    } else {
        match first_spec_at(r.lranges, line) {
            Some(l) => l,
            None => r.level,
        }
    }
}

/// The level at `line` of `path`: given by the rule of the longest prefix of
/// the path that has one, else the global level.
pub open spec fn level_at(rules: Map<Seq<char>, Rule>, global: LogLevel, path: Seq<char>, line: u32) -> LogLevel {
    match longest_rule(rules, path, path.len()) {
        None => global,
        Some(n) => rule_level(rules[path.take(n as int)], line),
    }
}

/// The rules without those of the paths that extend `path`.
pub open spec fn without_children(rules: Map<Seq<char>, Rule>, path: Seq<char>) -> Map<Seq<char>, Rule> {
    Map::new(
        |k: Seq<char>| rules.dom().contains(k) && !(is_prefix(path, k) && k != path),
        |k: Seq<char>| rules[k],
    )
}

/// Why `set_level` refuses a rule, if it does: the level is not one that can
/// be set, or ranges are given for a path that does not name a file
/// (`module@file.rs` or `module@<anon>`).
pub open spec fn set_level_refusal(level: LogLevel, path: Seq<char>, has_ranges: bool) -> Option<Seq<char>> {
    if level == LogLevel::UNSUPPORTED {
        Some("Unsupported log level"@)
    } else if has_ranges && !(is_suffix("<anon>"@, path) || is_suffix(".rs"@, path)) {
        Some("File path not specified"@)
    } else if has_ranges && !path.contains('@') {
        Some("Module not specified"@)
    } else {
        None
    }
}

proof fn lemma_longest_rule(rules: Map<Seq<char>, Rule>, path: Seq<char>, n: nat)
    ensures
        match longest_rule(rules, path, n) {
            Some(k) => k <= n && k <= path.len() && rules.dom().contains(path.take(k as int))
                && forall|j: nat|
                k < j <= n && j <= path.len() ==> !rules.dom().contains(#[trigger] path.take(j as int)),
            None => forall|j: nat|
                j <= n && j <= path.len() ==> !rules.dom().contains(#[trigger] path.take(j as int)),
        },
    decreases n,
{
    if n <= path.len() && rules.dom().contains(path.take(n as int)) {
    } else if n == 0 {
    } else {
        lemma_longest_rule(rules, path, (n - 1) as nat);
    }
}

/// The longest prefix with a rule is the one that nothing longer beats.
proof fn lemma_longest_rule_is(rules: Map<Seq<char>, Rule>, path: Seq<char>, k: nat)
    requires
        k <= path.len(),
        rules.dom().contains(path.take(k as int)),
        forall|j: nat| k < j <= path.len() ==> !rules.dom().contains(#[trigger] path.take(j as int)),
    ensures
        longest_rule(rules, path, path.len()) == Some(k),
{
    lemma_longest_rule(rules, path, path.len());
    match longest_rule(rules, path, path.len()) {
        Some(k2) => {
            if k2 < k {
                assert(!rules.dom().contains(path.take(k as int)));
            } else if k2 > k {
                assert(!rules.dom().contains(path.take(k2 as int)));
            }
        },
        None => {
            assert(!rules.dom().contains(path.take(k as int)));
        },
    }
}

/// No prefix of the path has a rule.
proof fn lemma_no_rule(rules: Map<Seq<char>, Rule>, path: Seq<char>)
    requires
        forall|j: nat| j <= path.len() ==> !rules.dom().contains(#[trigger] path.take(j as int)),
    ensures
        longest_rule(rules, path, path.len()) is None,
{
    lemma_longest_rule(rules, path, path.len());
    match longest_rule(rules, path, path.len()) {
        Some(k) => {
            assert(rules.dom().contains(path.take(k as int)));
        },
        None => {},
    }
}

/// Two prefixes of one path: the shorter is a prefix of the longer.
proof fn lemma_prefixes_nest(q: Seq<char>, a: nat, b: nat)
    requires
        a <= b <= q.len(),
    ensures
        is_prefix(q.take(a as int), q.take(b as int)),
{
    assert(q.take(b as int).take(a as int) =~= q.take(a as int));
}


/// The rules that `set_level` leaves for `path` with the rule `r`.
pub open spec fn with_rule(rules: Map<Seq<char>, Rule>, path: Seq<char>, r: Rule) -> Map<Seq<char>, Rule> {
    without_children(rules, path).insert(path, r)
}

proof fn lemma_longest_rule_same(m1: Map<Seq<char>, Rule>, m2: Map<Seq<char>, Rule>, q: Seq<char>, n: nat)
    requires
        forall|j: nat| j <= n && j <= q.len() ==> (m1.dom().contains(#[trigger] q.take(j as int))
            <==> m2.dom().contains(q.take(j as int))),
    ensures
        longest_rule(m1, q, n) == longest_rule(m2, q, n),
    decreases n,
{
    if n > 0 {
        lemma_longest_rule_same(m1, m2, q, (n - 1) as nat);
    }
}

/// The last line stands for the file as a whole: asked for it, a rule gives
/// its own level whatever its ranges, and a path gets the level of the rule of
/// its longest prefix that has one (the global level when none has). For any
/// other line, a rule gives the level of the first of its ranges holding the
/// line, and its own level when none does.
pub proof fn lemma_whole_file_level(
    rules: Map<Seq<char>, Rule>,
    global: LogLevel,
    path: Seq<char>,
    r: Rule,
    line: u32,
)
    ensures
        rule_level(r, u32::MAX) == r.level,
        level_at(rules, global, path, u32::MAX) == match longest_rule(rules, path, path.len()) {
            None => global,
            Some(n) => rules[path.take(n as int)].level,
        },
        line != u32::MAX && (forall|i: int| 0 <= i < r.lranges.len() ==> !in_range(
            #[trigger] r.lranges[i].range,
            line as int,
        )) ==> rule_level(r, line) == r.level,
        forall|i: int|
            0 <= i < r.lranges.len() && line != u32::MAX && in_range(#[trigger] r.lranges[i].range, line as int)
                && (forall|j: int| 0 <= j < i ==> !in_range(r.lranges[j].range, line as int)) ==> rule_level(
                r,
                line,
            ) == r.lranges[i].level,
{
    lemma_first_spec_none(r.lranges, line);
    assert forall|i: int|
        0 <= i < r.lranges.len() && line != u32::MAX && in_range(#[trigger] r.lranges[i].range, line as int)
            && (forall|j: int| 0 <= j < i ==> !in_range(r.lranges[j].range, line as int)) implies rule_level(
            r,
            line,
        ) == r.lranges[i].level by {
        lemma_first_spec_at(r.lranges, line, i);
    }
}

proof fn lemma_first_spec_none(lr: Seq<LineRangeSpec>, line: u32)
    ensures
        (forall|i: int| 0 <= i < lr.len() ==> !in_range(#[trigger] lr[i].range, line as int)) ==> first_spec_at(
            lr,
            line,
        ) is None,
    decreases lr.len(),
{
    if lr.len() > 0 {
        lemma_first_spec_none(lr.drop_first(), line);
        if forall|i: int| 0 <= i < lr.len() ==> !in_range(#[trigger] lr[i].range, line as int) {
            assert(!in_range(lr[0].range, line as int));
            assert forall|i: int| 0 <= i < lr.drop_first().len() implies !in_range(
                #[trigger] lr.drop_first()[i].range,
                line as int,
            ) by {
                assert(lr.drop_first()[i] == lr[i + 1]);
            }
        }
    }
}

proof fn lemma_first_spec_at(lr: Seq<LineRangeSpec>, line: u32, i: int)
    requires
        0 <= i < lr.len(),
        in_range(lr[i].range, line as int),
        forall|j: int| 0 <= j < i ==> !in_range(lr[j].range, line as int),
    ensures
        first_spec_at(lr, line) == Some(lr[i].level),
    decreases i,
{
    if i > 0 {
        assert(!in_range(lr[0].range, line as int));
        let d = lr.drop_first();
        assert(d[i - 1] == lr[i]);
        assert forall|j: int| 0 <= j < i - 1 implies !in_range(d[j].range, line as int) by {
            assert(d[j] == lr[j + 1]);
        }
        lemma_first_spec_at(d, line, i - 1);
    }
}

/// Once a rule is set for a path, it decides the level of that path and of
/// every path that extends it, whatever rules these had before.
pub proof fn lemma_rule_governs_extensions(
    rules: Map<Seq<char>, Rule>,
    path: Seq<char>,
    r: Rule,
    global: LogLevel,
    q: Seq<char>,
    line: u32,
)
    requires
        is_prefix(path, q),
    ensures
        level_at(with_rule(rules, path, r), global, q, line) == rule_level(r, line),
{
    let m = with_rule(rules, path, r);
    let n = path.len();
    assert(q.take(n as int) == path);
    assert forall|j: nat| n < j <= q.len() implies !m.dom().contains(#[trigger] q.take(j as int)) by {
        lemma_prefixes_nest(q, n, j);
        assert(q.take(j as int).len() == j);
    }
    lemma_longest_rule_is(m, q, n);
}

/// Setting a rule for a path leaves the level of every path that does not
/// extend it as it was.
pub proof fn lemma_rule_spares_others(
    rules: Map<Seq<char>, Rule>,
    path: Seq<char>,
    r: Rule,
    global: LogLevel,
    q: Seq<char>,
    line: u32,
)
    requires
        !is_prefix(path, q),
    ensures
        level_at(with_rule(rules, path, r), global, q, line) == level_at(rules, global, q, line),
{
    let m = with_rule(rules, path, r);
    assert forall|j: nat| j <= q.len() implies (m.dom().contains(#[trigger] q.take(j as int))
        <==> rules.dom().contains(q.take(j as int))) by {
        let k = q.take(j as int);
        if k == path {
            assert(is_prefix(path, q));
        }
        if is_prefix(path, k) {
            assert(k.take(path.len() as int) =~= q.take(path.len() as int));
            assert(is_prefix(path, q));
        }
    }
    lemma_longest_rule_same(m, rules, q, q.len());
    match longest_rule(rules, q, q.len()) {
        Some(n) => {
            lemma_longest_rule(rules, q, q.len());
            let k = q.take(n as int);
            if is_prefix(path, k) {
                assert(k.take(path.len() as int) =~= q.take(path.len() as int));
            }
            assert(k != path);
            assert(m[k] == rules[k]);
        },
        None => {},
    }
}

/// Without any rule, every path has the global level.
pub proof fn lemma_no_rules_global_level(global: LogLevel, q: Seq<char>, line: u32)
    ensures
        level_at(Map::<Seq<char>, Rule>::empty(), global, q, line) == global,
{
    lemma_no_rule(Map::<Seq<char>, Rule>::empty(), q);
}

fn copy_specs(v: &Vec<LineRangeSpec>) -> (r: Vec<LineRangeSpec>)
    ensures
        r@ == v@,
{
    let mut out: Vec<LineRangeSpec> = Vec::new();
    let mut i: usize = 0;
    while i < v.len()
        invariant
            i <= v@.len(),
            out@ == v@.take(i as int),
        decreases v@.len() - i,
    {
        out.push(v[i]);
        i = i + 1;
        assert(out@ =~= v@.take(i as int));
    }
    assert(v@.take(v@.len() as int) =~= v@);
    out
}

fn copy_entry(e: &(String, ModuleSpec)) -> (r: (String, ModuleSpec))
    ensures
        r.0@ == e.0@,
        rule_of(r.1) == rule_of(e.1),
{
    (e.0.clone(), ModuleSpec { level: e.1.level, lranges: copy_specs(&e.1.lranges) })
}

/// The level that a rule gives to `line`.
fn level_of_rule(m: &ModuleSpec, line: u32) -> (r: LogLevel)
    ensures
        r == rule_level(rule_of(*m), line),
{
    if line == u32::MAX || m.lranges.len() == 0 {
        return m.level;
    }
    let mut i: usize = 0;
    assert(m.lranges@.skip(0) =~= m.lranges@);
    while i < m.lranges.len()
        invariant
            i <= m.lranges@.len(),
            line != u32::MAX,
            m.lranges@.len() > 0,
            first_spec_at(m.lranges@, line) == first_spec_at(m.lranges@.skip(i as int), line),
        decreases m.lranges@.len() - i,
    {
        let ghost rest = m.lranges@.skip(i as int);
        assert(rest[0] == m.lranges@[i as int]);
        assert(rest.drop_first() =~= m.lranges@.skip(i + 1));
        if m.lranges[i].contains(line) {
            return m.lranges[i].level;
        }
        i = i + 1;
    }
    m.level
}

impl RootLogger {
    #[verifier::type_invariant]
    spec fn keys_unique(self) -> bool {
        unique_keys(self.loggers@)
    }

    /// The rules, by path.
    pub closed spec fn rules(self) -> Map<Seq<char>, Rule> {
        map_of(self.loggers@)
    }

    /// No rule at all.
    pub fn new() -> (r: RootLogger)
        ensures
            r.rules() == Map::<Seq<char>, Rule>::empty(),
    {
        RootLogger { loggers: Vec::new() }
    }

    /// Drops every rule.
    pub fn reset_loggers(&mut self)
        ensures
            final(self).rules() == Map::<Seq<char>, Rule>::empty(),
    {
        self.loggers = Vec::new();
    }

    /// The level at `line` of `path`; the last line stands for the whole path.
    pub fn get_level(&self, global: &Global, path: &str, line: u32) -> (r: LogLevel)
        ensures
            r == level_at(self.rules(), global.level(), path@, line),
    {
        proof {
            use_type_invariant(self);
            lemma_map_of(self.loggers@);
        }
        let pv = chars_of(path);
        let ghost s = self.loggers@;
        let mut best: Option<usize> = None;
        let mut best_len: usize = 0;
        let mut i: usize = 0;
        while i < self.loggers.len()
            invariant
                s == self.loggers@,
                pv@ == path@,
                i <= s.len(),
                match best {
                    None => forall|j: int| 0 <= j < i ==> !is_prefix((#[trigger] s[j]).0@, pv@),
                    Some(b) => b < i && is_prefix(s[b as int].0@, pv@) && best_len == s[b as int].0@.len()
                        && forall|j: int|
                        0 <= j < i && is_prefix((#[trigger] s[j]).0@, pv@) ==> s[j].0@.len() <= best_len,
                },
            decreases s.len() - i,
        {
            let kv = chars_of(self.loggers[i].0.as_str());
            if prefix_of(&kv, &pv) && (best.is_none() || kv.len() > best_len) {
                best = Some(i);
                best_len = kv.len();
            }
            i = i + 1;
        }
        let ghost rules = self.rules();
        match best {
            None => {
                proof {
                    assert forall|j: nat| j <= path@.len() implies !rules.dom().contains(
                        #[trigger] path@.take(j as int),
                    ) by {
                        if rules.dom().contains(path@.take(j as int)) {
                            let k = choose|k: int| 0 <= k < s.len() && (#[trigger] s[k]).0@ == path@.take(
                                j as int,
                            );
                            assert(is_prefix(s[k].0@, pv@));
                        }
                    }
                    lemma_no_rule(rules, path@);
                }
                global.get_level()
            },
            Some(b) => {
                proof {
                    let key = s[b as int].0@;
                    assert(path@.take(best_len as int) == key);
                    assert forall|j: nat| best_len < j <= path@.len() implies !rules.dom().contains(
                        #[trigger] path@.take(j as int),
                    ) by {
                        if rules.dom().contains(path@.take(j as int)) {
                            let k = choose|k: int| 0 <= k < s.len() && (#[trigger] s[k]).0@ == path@.take(
                                j as int,
                            );
                            assert(is_prefix(s[k].0@, pv@));
                        }
                    }
                    assert(rules.dom().contains(key));
                    lemma_longest_rule_is(rules, path@, best_len as nat);
                }
                level_of_rule(&self.loggers[b].1, line)
            },
        }
    }

    /// Drops the rules of the paths that extend `path`, keeping that of `path`.
    fn remove_children(&mut self, path: &str)
        ensures
            final(self).rules() == without_children(old(self).rules(), path@),
    {
        proof {
            use_type_invariant(&*self);
            lemma_map_of(self.loggers@);
        }
        let pv = chars_of(path);
        let ghost s = self.loggers@;
        let mut kept: Vec<(String, ModuleSpec)> = Vec::new();
        let mut i: usize = 0;
        while i < self.loggers.len()
            invariant
                s == self.loggers@,
                unique_keys(s),
                pv@ == path@,
                i <= s.len(),
                unique_keys(kept@),
                forall|j: int|
                    0 <= j < kept@.len() ==> exists|k: int|
                        0 <= k < i && (#[trigger] s[k]).0@ == (#[trigger] kept@[j]).0@ && rule_of(
                            s[k].1,
                        ) == rule_of(kept@[j].1) && !(is_prefix(pv@, s[k].0@) && s[k].0@ != pv@),
                forall|k: int|
                    0 <= k < i && !(is_prefix(pv@, (#[trigger] s[k]).0@) && s[k].0@ != pv@)
                        ==> exists|j: int| 0 <= j < kept@.len() && (#[trigger] kept@[j]).0@ == s[k].0@,
            decreases s.len() - i,
        {
            let kv = chars_of(self.loggers[i].0.as_str());
            let child = prefix_of(&pv, &kv) && !chars_eq(&kv, &pv);
            if !child {
                let e = copy_entry(&self.loggers[i]);
                proof {
                    assert forall|j: int| 0 <= j < kept@.len() implies (#[trigger] kept@[j]).0@ != e.0@ by {
                        let k = choose|k: int|
                            0 <= k < i && (#[trigger] s[k]).0@ == (#[trigger] kept@[j]).0@ && rule_of(
                                s[k].1,
                            ) == rule_of(kept@[j].1) && !(is_prefix(pv@, s[k].0@) && s[k].0@ != pv@);
                        assert(s[k].0@ != s[i as int].0@);
                    }
                }
                let ghost before = kept@;
                kept.push(e);
                proof {
                    assert forall|j: int| 0 <= j < kept@.len() implies exists|k: int|
                        0 <= k < i + 1 && (#[trigger] s[k]).0@ == (#[trigger] kept@[j]).0@ && rule_of(
                            s[k].1,
                        ) == rule_of(kept@[j].1) && !(is_prefix(pv@, s[k].0@) && s[k].0@ != pv@) by {
                        if j < before.len() {
                            assert(kept@[j] == before[j]);
                        } else {
                            assert(s[i as int].0@ == kept@[j].0@);
                        }
                    }
                    assert forall|k: int|
                        0 <= k < i + 1 && !(is_prefix(pv@, (#[trigger] s[k]).0@) && s[k].0@ != pv@)
                            implies exists|j: int|
                        0 <= j < kept@.len() && (#[trigger] kept@[j]).0@ == s[k].0@ by {
                        if k < i {
                            let j = choose|j: int|
                                0 <= j < before.len() && (#[trigger] before[j]).0@ == s[k].0@;
                            assert(kept@[j] == before[j]);
                        } else {
                            assert(kept@[before.len() as int].0@ == s[k].0@);
                        }
                    }
                }
            }
            i = i + 1;
        }
        proof {
            lemma_map_of(kept@);
            let old_rules = map_of(s);
            let new_rules = map_of(kept@);
            let want = without_children(old_rules, path@);
            assert forall|k: Seq<char>| new_rules.dom().contains(k) <==> want.dom().contains(k) by {
                if new_rules.dom().contains(k) {
                    let j = choose|j: int| 0 <= j < kept@.len() && (#[trigger] kept@[j]).0@ == k;
                    let m = choose|m: int|
                        0 <= m < i && (#[trigger] s[m]).0@ == (#[trigger] kept@[j]).0@ && rule_of(
                            s[m].1,
                        ) == rule_of(kept@[j].1) && !(is_prefix(pv@, s[m].0@) && s[m].0@ != pv@);
                    assert(old_rules.dom().contains(k));
                }
                if want.dom().contains(k) {
                    assert(old_rules.dom().contains(k));
                    let m = choose|m: int| 0 <= m < s.len() && (#[trigger] s[m]).0@ == k;
                    let j = choose|j: int| 0 <= j < kept@.len() && (#[trigger] kept@[j]).0@ == s[m].0@;
                }
            }
            assert forall|k: Seq<char>| new_rules.dom().contains(k) implies new_rules[k] == want[k] by {
                let j = choose|j: int| 0 <= j < kept@.len() && (#[trigger] kept@[j]).0@ == k;
                let m = choose|m: int|
                    0 <= m < i && (#[trigger] s[m]).0@ == (#[trigger] kept@[j]).0@ && rule_of(
                        s[m].1,
                    ) == rule_of(kept@[j].1) && !(is_prefix(pv@, s[m].0@) && s[m].0@ != pv@);
            }
            assert(new_rules =~= want);
        }
        self.loggers = kept;
    }

    /// Sets the rule of `path`, replacing the one it had.
    fn put(&mut self, path: &str, m: ModuleSpec)
        ensures
            final(self).rules() == old(self).rules().insert(path@, rule_of(m)),
    {
        proof {
            use_type_invariant(&*self);
            lemma_map_of(self.loggers@);
        }
        let pv = chars_of(path);
        let ghost s = self.loggers@;
        let ghost rm = rule_of(m);
        let mut out: Vec<(String, ModuleSpec)> = Vec::new();
        let mut found = false;
        let mut i: usize = 0;
        let mut slot = Some(m);
        while i < self.loggers.len()
            invariant
                s == self.loggers@,
                unique_keys(s),
                pv@ == path@,
                i <= s.len(),
                out@.len() == i,
                found <==> exists|k: int| 0 <= k < i && (#[trigger] s[k]).0@ == pv@,
                found <==> slot is None,
                slot matches Some(x) ==> rule_of(x) == rm,
                forall|k: int|
                    0 <= k < i ==> (#[trigger] out@[k]).0@ == s[k].0@ && rule_of(out@[k].1) == if s[k].0@
                        == pv@ {
                        rm
                    } else {
                        rule_of(s[k].1)
                    },
            decreases s.len() - i,
        {
            let kv = chars_of(self.loggers[i].0.as_str());
            if chars_eq(&kv, &pv) {
                let taken = slot.take();
                let x = taken.unwrap();
                out.push((self.loggers[i].0.clone(), x));
                found = true;
            } else {
                let e = copy_entry(&self.loggers[i]);
                out.push(e);
            }
            i = i + 1;
        }
        assert(unique_keys(out@));
        proof {
            lemma_map_of(out@);
        }
        let ghost before = out@;
        if !found {
            let x = slot.unwrap();
            out.push((String::from_str(path), x));
            proof {
                assert forall|a: int, b: int| 0 <= a < b < out@.len() implies (#[trigger] out@[a]).0@
                    != (#[trigger] out@[b]).0@ by {
                    if b == out@.len() - 1 {
                        assert(out@[a] == before[a]);
                    }
                }
                lemma_map_of(out@);
            }
        }
        proof {
            let want = map_of(s).insert(path@, rm);
            let got = map_of(out@);
            assert forall|k: Seq<char>| got.dom().contains(k) <==> want.dom().contains(k) by {
                if got.dom().contains(k) {
                    let j = choose|j: int| 0 <= j < out@.len() && (#[trigger] out@[j]).0@ == k;
                    if j < s.len() {
                        assert(out@[j].0@ == s[j].0@);
                    }
                }
                if want.dom().contains(k) && k != path@ {
                    let j = choose|j: int| 0 <= j < s.len() && (#[trigger] s[j]).0@ == k;
                    assert(out@[j].0@ == k);
                }
                if k == path@ {
                    if found {
                        let j = choose|j: int| 0 <= j < i && (#[trigger] s[j]).0@ == pv@;
                        assert(out@[j].0@ == k);
                    } else {
                        assert(out@[out@.len() - 1].0@ == k);
                    }
                }
            }
            assert forall|k: Seq<char>| got.dom().contains(k) implies got[k] == want[k] by {
                let j = choose|j: int| 0 <= j < out@.len() && (#[trigger] out@[j]).0@ == k;
                if j < s.len() {
                    assert(out@[j].0@ == s[j].0@);
                }
            }
            assert(got =~= want);
        }
        self.loggers = out;
    }

    /// Sets the level of `path` and of every path that extends it, dropping the
    /// rules of the latter. With ranges of lines, the path must name a file
    /// (`module@file.rs`), the ranges carry their levels, and the path keeps
    /// the level it had for the file as a whole.
    pub fn set_level(&mut self, global: &mut Global, level: LogLevel, path: &str, lranges: Vec<LineRangeSpec>) -> (r: Result<(), String>)
        ensures
            match set_level_refusal(level, path@, lranges@.len() > 0) {
                Some(msg) => r matches Err(e) && e@ == msg && final(self).rules() == old(self).rules()
                    && *final(global) == *old(global),
                None => {
                    &&& r is Ok
                    &&& final(self).rules() == with_rule(
                        old(self).rules(),
                        path@,
                        Rule {
                            level: if lranges@.len() == 0 {
                                level
                            } else {
                                level_at(old(self).rules(), old(global).level(), path@, u32::MAX)
                            },
                            lranges: lranges@,
                        },
                    )
                    &&& final(global).loggers()
                    &&& final(global).level_value() == old(global).level_value()
                },
            },
    {
        if level == LogLevel::UNSUPPORTED {
            return Err(String::from_str("Unsupported log level"));
        }
        if lranges.len() > 0 {
            if !ends_with(path, "<anon>") && !ends_with(path, ".rs") {
                return Err(String::from_str("File path not specified"));
            }
            if !has_char(path, '@') {
                return Err(String::from_str("Module not specified"));
            }
        }
        let level = if lranges.len() == 0 {
            level
        } else {
            self.get_level(global, path, u32::MAX)
        };
        self.remove_children(path);
        self.put(path, ModuleSpec { level: level, lranges: lranges });
        global.set_loggers(true);
        Ok(())
    }

    /// Sets the global level and drops every rule.
    pub fn set_root_level(&mut self, global: &mut Global, level: LogLevel)
        ensures
            final(self).rules() == Map::<Seq<char>, Rule>::empty(),
            final(global).level() == level,
            !final(global).loggers(),
    {
        global.set_loggers(false);
        self.reset_loggers();
        global.set_level(level);
    }
}

/// What setting the rules of `mods` one after the other leaves: the rules,
/// whether any rule is registered, and the refusal that stopped it, if one did.
pub open spec fn applied(
    rules: Map<Seq<char>, Rule>,
    loggers: bool,
    global: LogLevel,
    mods: Seq<ModuleView>,
) -> (Map<Seq<char>, Rule>, bool, Option<Seq<char>>)
    decreases mods.len(),
{
    if mods.len() == 0 {
        (rules, loggers, None)
    } else {
        let m = mods[0];
        let lr = with_level(m.level, spec_merge_ranges(m.lranges, true));
        match set_level_refusal(m.level, m.path, lr.len() > 0) {
            Some(msg) => (rules, loggers, Some(msg)),
            None => applied(
                with_rule(
                    rules,
                    m.path,
                    Rule {
                        level: if lr.len() == 0 {
                            m.level
                        } else {
                            level_at(rules, global, m.path, u32::MAX)
                        },
                        lranges: lr,
                    },
                ),
                true,
                global,
                mods.drop_first(),
            ),
        }
    }
}

/// The global level after a spec is applied.
pub open spec fn level_after(global: LogLevel, s: Option<LogLevel>) -> LogLevel {
    match s {
        Some(l) => l,
        None => global,
    }
}

/// What applying a parsed spec leaves: its global level, if it has one,
/// replaces every rule; then the rules of its modules are set in order.
pub open spec fn spec_applied(
    rules: Map<Seq<char>, Rule>,
    loggers: bool,
    global: LogLevel,
    s: Option<LogLevel>,
    mods: Seq<ModuleView>,
) -> (Map<Seq<char>, Rule>, bool, Option<Seq<char>>) {
    match s {
        Some(l) => applied(Map::empty(), false, l, mods),
        None => applied(rules, loggers, global, mods),
    }
}

impl RootLogger {
    /// Applies a parsed spec: sets its global level, if it has one, then the
    /// level of each of its modules in order, stopping at the first refusal.
    pub fn apply(&mut self, global: &mut Global, root: &Root) -> (r: Result<(), String>)
        ensures
            ({
                let out = spec_applied(
                    old(self).rules(),
                    old(global).loggers(),
                    old(global).level(),
                    root@.level,
                    root@.modules,
                );
                &&& final(self).rules() == out.0
                &&& final(global).loggers() == out.1
                &&& match out.2 {
                    Some(msg) => r matches Err(e) && e@ == msg,
                    None => r is Ok,
                }
            }),
            final(global).level() == level_after(old(global).level(), root@.level),
            root@.level is None ==> final(global).level_value() == old(global).level_value(),
    {
        let ghost r0 = self.rules();
        let ghost l0 = global.loggers();
        let ghost g0 = global.level();
        let ghost v_old = global.level_value();
        match root.level {
            Some(l) => self.set_root_level(global, l),
            None => {},
        }
        let ghost mods = root@.modules;
        let ghost g = global.level();
        let ghost start = applied(self.rules(), global.loggers(), g, mods);
        let ghost v0 = global.level_value();
        assert(mods.skip(0) =~= mods);
        let mut i: usize = 0;
        while i < root.modules.len()
            invariant
                mods == root@.modules,
                mods.len() == root.modules@.len(),
                i <= mods.len(),
                global.level() == g,
                global.level_value() == v0,
                start == applied(self.rules(), global.loggers(), g, mods.skip(i as int)),
                start == spec_applied(r0, l0, g0, root@.level, mods),
                g == level_after(g0, root@.level),
                root@.level is None ==> v0 == v_old,
                r0 == old(self).rules(),
                l0 == old(global).loggers(),
                g0 == old(global).level(),
                v_old == old(global).level_value(),
            decreases mods.len() - i,
        {
            let m = &root.modules[i];
            let ghost mv = mods[i as int];
            assert(mv == m@);
            let ghost rest = mods.skip(i as int);
            assert(rest[0] == mv);
            assert(rest.drop_first() =~= mods.skip(i + 1));
            let lr = match spec(m.level, m.lranges.as_slice()) {
                Ok(v) => v,
                Err(_) => Vec::new(),
            };
            match self.set_level(global, m.level, m.path.as_str(), lr) {
                Ok(()) => {},
                Err(e) => {
                    return Err(e);
                },
            }
            i = i + 1;
        }
        assert(mods.skip(i as int).len() == 0);
        Ok(())
    }
}

/// Brings the rules back to the start: global level `WARN`, no rule.
pub fn reset(global: &mut Global, root: &mut RootLogger)
    ensures
        final(global).level() == LogLevel::WARN,
        !final(global).loggers(),
        final(root).rules() == Map::<Seq<char>, Rule>::empty(),
{
    global.set_level(LogLevel::WARN);
    global.set_loggers(false);
    root.reset_loggers();
}


/// The level at `line` of `path` as a log statement reads it: the global level
/// while no rule is registered, else the level that the rules give.
pub open spec fn effective_level(
    loggers: bool,
    rules: Map<Seq<char>, Rule>,
    global: LogLevel,
    path: Seq<char>,
    line: u32,
) -> LogLevel {
    if loggers {
        level_at(rules, global, path, line)
    } else {
        global
    }
}

/// The level at `line` of `path` as a log statement reads it.
pub fn level_here(global: &Global, root: &RootLogger, path: &str, line: u32) -> (r: LogLevel)
    ensures
        r == effective_level(global.loggers(), root.rules(), global.level(), path@, line),
{
    if global.has_loggers() {
        root.get_level(global, path, line)
    } else {
        global.get_level()
    }
}

/// Whether a record of `level` made at `line` of `path` is emitted: when its
/// level is at least as severe as the level there.
pub fn enabled(global: &Global, root: &RootLogger, path: &str, line: u32, level: LogLevel) -> (r: bool)
    ensures
        r == level_le(
            effective_level(global.loggers(), root.rules(), global.level(), path@, line),
            level,
        ),
{
    level_here(global, root, path, line).le(level)
}

/// While no rule is registered, reading the global level alone gives the
/// level that the rules would give.
pub proof fn lemma_no_rules_fast_path(global: LogLevel, path: Seq<char>, line: u32)
    ensures
        effective_level(false, Map::<Seq<char>, Rule>::empty(), global, path, line) == level_at(
            Map::<Seq<char>, Rule>::empty(),
            global,
            path,
            line,
        ),
{
    lemma_no_rules_global_level(global, path, line);
}

/// The sum of the counts.
pub open spec fn total(s: Seq<usize>) -> int
    decreases s.len(),
{
    if s.len() == 0 {
        0
    } else {
        total(s.drop_last()) + s.last()
    }
}

proof fn lemma_total_prefix(s: Seq<usize>, i: int)
    requires
        0 <= i <= s.len(),
    ensures
        0 <= total(s.take(i)) <= total(s),
    decreases s.len() - i,
{
    if i < s.len() {
        lemma_total_prefix(s.drop_last(), i);
        assert(s.drop_last().take(i) =~= s.take(i));
    } else {
        assert(s.take(i) =~= s);
        lemma_total_nonneg(s);
    }
}

proof fn lemma_total_nonneg(s: Seq<usize>)
    ensures
        total(s) >= 0,
    decreases s.len(),
{
    if s.len() > 0 {
        lemma_total_nonneg(s.drop_last());
    }
}

/// Whether the log thread has taken every record sent: the records sent to
/// each queue add up to the records received.
pub fn qempty(sent: &[usize], received: usize) -> (r: bool)
    requires
        total(sent@) <= usize::MAX,
    ensures
        r == (total(sent@) == received),
{
    let mut sum: usize = 0;
    let mut i: usize = 0;
    while i < sent.len()
        invariant
            i <= sent@.len(),
            total(sent@) <= usize::MAX,
            sum == total(sent@.take(i as int)),
        decreases sent@.len() - i,
    {
        proof {
            lemma_total_prefix(sent@, i + 1);
            assert(sent@.take(i + 1).drop_last() =~= sent@.take(i as int));
        }
        sum = sum + sent[i];
        i = i + 1;
    }
    assert(sent@.take(i as int) =~= sent@);
    sum == received
}

} // verus!
