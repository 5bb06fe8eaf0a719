//! Reading a logging configuration: either an `env_logger`-style spec,
//! `[level],[module=[level]],...`, or a JSON document giving the global level
//! and per-module levels, optionally for ranges of lines.
use vstd::prelude::*;

use crate::json::{Json, get_member, member, read_json, json_document};
use crate::levels::{LogLevel, spec_parse_level, ascii_parse_level};
use crate::line_range::{Range, merge_ranges, spec_intersects, spec_merge_ranges};
use crate::text::{
    chars_of, split, split_at_char, string_of, trim, trimmed, upper_case, spec_upper, is_ascii_text,
    ascii_upper, lemma_ascii_trim, lemma_ascii_split, lemma_ascii_upper_twice,
};

verus! {

/// The level rule that a spec gives to a module path.
#[derive(PartialEq, Clone, Debug)]
pub struct Module {
    /// The path that the rule is for.
    pub path: String,
    /// The level.
    pub level: LogLevel,
    /// The lines that the rule is for; none stands for the whole file.
    pub lranges: Vec<Range>,
}

/// What a module rule holds.
pub struct ModuleView {
    pub path: Seq<char>,
    pub level: LogLevel,
    pub lranges: Seq<Range>,
}

impl View for Module {
    type V = ModuleView;

    open spec fn view(&self) -> ModuleView {
        ModuleView { path: self.path@, level: self.level, lranges: self.lranges@ }
    }
}

/// A parsed spec: an optional global level and the module rules.
#[derive(PartialEq, Clone, Debug)]
pub struct Root {
    /// The global level, if the spec sets it.
    pub level: Option<LogLevel>,
    /// The module rules.
    pub modules: Vec<Module>,
}

/// What a parsed spec holds.
pub struct RootView {
    pub level: Option<LogLevel>,
    pub modules: Seq<ModuleView>,
}

/// The views of a sequence of module rules.
pub open spec fn module_views(s: Seq<Module>) -> Seq<ModuleView> {
    Seq::new(s.len(), |i: int| s[i]@)
}

impl View for Root {
    type V = RootView;

    open spec fn view(&self) -> RootView {
        RootView { level: self.level, modules: module_views(self.modules@) }
    }
}

/// JSON log spec parse failure.
#[derive(PartialEq, Eq, Structural, Clone, Copy, Debug)]
pub enum JsonError {
    /// Invalid JSON string.
    Json,
    /// The root is invalid.
    Root,
    /// The array of modules is invalid.
    Module,
    /// The log level of the root is invalid.
    RootLogLevel,
    /// The log level of the module is invalid.
    ModuleLogLevel,
    /// The line range of the module is invalid.
    LineRange,
    /// Line level intersection with different log levels.
    Intersection,
}

/// Generic log spec parse failure.
#[derive(PartialEq, Eq, Structural, Clone, Copy, Debug)]
pub enum ParseError {
    /// Invalid spec.
    Spec,
    /// Invalid log level.
    LogLevel,
    /// JSON parse error.
    Json(JsonError),
}

/// What a result holds, the spec taken by its view.
pub open spec fn root_result(r: Result<Root, ParseError>) -> Result<RootView, ParseError> {
    match r {
        Ok(root) => Ok(root@),
        Err(e) => Err(e),
    }
}

fn copy_ranges(v: &Vec<Range>) -> (r: Vec<Range>)
    ensures
        r@ == v@,
{
    let mut out: Vec<Range> = Vec::new();
    let mut i: usize = 0;
    while i < v.len()
        invariant
            i <= v@.len(),
            out@ == v@.take(i as int),
        decreases v@.len() - i,
    {
        out.push(v[i]);
        i = i + 1;
        assert(out@ =~= v@.take(i as int));
    }
    assert(v@.take(v@.len() as int) =~= v@);
    out
}

impl Module {
    /// A rule giving `level` to the whole of `path`.
    pub fn with_level(path: &str, level: LogLevel) -> (r: Module)
        ensures
            r@ == (ModuleView { path: path@, level, lranges: Seq::empty() }),
    {
        Module { path: String::from_str(path), level: level, lranges: Vec::new() }
    }

    /// A rule giving `level` to the lines `lranges` of `path`.
    pub fn with_lranges(path: &str, level: LogLevel, lranges: Vec<Range>) -> (r: Module)
        ensures
            r@ == (ModuleView { path: path@, level, lranges: lranges@ }),
    {
        Module { path: String::from_str(path), level: level, lranges: lranges }
    }

    /// A copy of the rule.
    pub fn copy(&self) -> (r: Module)
        ensures
            r@ == self@,
    {
        Module { path: self.path.clone(), level: self.level, lranges: copy_ranges(&self.lranges) }
    }
}

/// The level given by a JSON member that must name a level, if present;
/// `default` when absent.
pub open spec fn json_level(v: Option<Json>, default: Option<LogLevel>, err: JsonError) -> Result<
    Option<LogLevel>,
    ParseError,
> {
    match v {
        None => Ok(default),
        Some(Json::Str(s)) => match spec_parse_level(s@) {
            Ok(l) => Ok(Some(l)),
            Err(_) => Err(ParseError::Json(err)),
        },
        Some(_) => Err(ParseError::Json(err)),
    }
}

/// The range written `[from, to]`, with both lines fitting in `u32` and `from`
/// not after `to`.
pub open spec fn json_range(line: Json) -> Option<Range> {
    match line {
        Json::Array(xs) => if xs@.len() == 2 {
            match (xs@[0], xs@[1]) {
                (Json::Number(Some(a)), Json::Number(Some(b))) => if a <= u32::MAX && b <= u32::MAX
                    && a <= b {
                    Some(Range { from: a as u32, to: b as u32 })
                } else {
                    None
                },
                _ => None,
            }
        } else {
            None
        },
        _ => None,
    }
}

/// The ranges of a JSON array of lines, if every one of them is a range.
pub open spec fn json_ranges(lines: Seq<Json>) -> Option<Seq<Range>>
    decreases lines.len(),
{
    if lines.len() == 0 {
        Some(Seq::empty())
    } else {
        match (json_range(lines[0]), json_ranges(lines.drop_first())) {
            (Some(r), Some(rs)) => Some(seq![r] + rs),
            _ => None,
        }
    }
}

/// The rule of a JSON module object: `path` (a string) is mandatory, `level`
/// defaults to `TRACE`, `lines` (a non-empty array of ranges) is optional.
pub open spec fn json_module(m: Json) -> Result<ModuleView, ParseError> {
    match m {
        Json::Object(fields) => match member(fields@, "path"@) {
            Some(Json::Str(path)) => match json_level(
                member(fields@, "level"@),
                Some(LogLevel::TRACE),
                JsonError::ModuleLogLevel,
            ) {
                Err(e) => Err(e),
                Ok(level) => match member(fields@, "lines"@) {
                    None => Ok(ModuleView { path: path@, level: level.unwrap(), lranges: Seq::empty() }),
                    Some(Json::Array(lines)) => if lines@.len() == 0 {
                        Err(ParseError::Json(JsonError::LineRange))
                    } else {
                        match json_ranges(lines@) {
                            None => Err(ParseError::Json(JsonError::LineRange)),
                            Some(rs) => Ok(
                                ModuleView { path: path@, level: level.unwrap(), lranges: rs },
                            ),
                        }
                    },
                    Some(_) => Err(ParseError::Json(JsonError::LineRange)),
                },
            },
            _ => Err(ParseError::Json(JsonError::Module)),
        },
        _ => Err(ParseError::Json(JsonError::Module)),
    }
}

/// The rules of the JSON modules, or the error of the first one that is not one.
pub open spec fn json_modules(items: Seq<Json>) -> Result<Seq<ModuleView>, ParseError>
    decreases items.len(),
{
    if items.len() == 0 {
        Ok(Seq::empty())
    } else {
        match json_module(items[0]) {
            Err(e) => Err(e),
            Ok(m) => match json_modules(items.drop_first()) {
                Err(e) => Err(e),
                Ok(ms) => Ok(seq![m] + ms),
            },
        }
    }
}

/// The spec that a JSON document gives: a non-empty object with an optional
/// `level` and an optional non-empty array of `modules`.
pub open spec fn json_root(doc: Json) -> Result<RootView, ParseError> {
    match doc {
        Json::Object(fields) => if fields@.len() == 0 {
            Err(ParseError::Json(JsonError::Root))
        } else {
            match json_level(member(fields@, "level"@), None, JsonError::RootLogLevel) {
                Err(e) => Err(e),
                Ok(level) => match member(fields@, "modules"@) {
                    None => Ok(RootView { level, modules: Seq::empty() }),
                    Some(Json::Array(items)) => if items@.len() == 0 {
                        Err(ParseError::Json(JsonError::Module))
                    } else {
                        match json_modules(items@) {
                            Err(e) => Err(e),
                            Ok(ms) => Ok(RootView { level, modules: ms }),
                        }
                    },
                    Some(_) => Err(ParseError::Json(JsonError::Module)),
                },
            }
        },
        _ => Err(ParseError::Json(JsonError::Root)),
    }
}

/// A JSON member that, if present, is a string naming a level.
pub open spec fn level_member_ok(v: Option<Json>) -> bool {
    match v {
        None => true,
        Some(Json::Str(s)) => spec_parse_level(s@) is Ok,
        Some(_) => false,
    }
}

/// The level that such a member names, or `default` when it is absent.
pub open spec fn member_level(v: Option<Json>, default: Option<LogLevel>) -> Option<LogLevel> {
    match v {
        Some(Json::Str(s)) => match spec_parse_level(s@) {
            Ok(l) => Some(l),
            Err(_) => default,
        },
        _ => default,
    }
}

/// A line written `[u, v]`: two non-negative integers with `u <= v <= u32::MAX`.
pub open spec fn line_ok(j: Json) -> bool {
    match j {
        Json::Array(xs) => xs@.len() == 2 && match (xs@[0], xs@[1]) {
            (Json::Number(Some(a)), Json::Number(Some(b))) => a <= b && b <= u32::MAX,
            _ => false,
        },
        _ => false,
    }
}

/// The range that such a line writes.
pub open spec fn line_of(j: Json) -> Range {
    match j {
        Json::Array(xs) => match (xs@[0], xs@[1]) {
            (Json::Number(Some(a)), Json::Number(Some(b))) => Range { from: a as u32, to: b as u32 },
            _ => Range { from: 0, to: 0 },
        },
        _ => Range { from: 0, to: 0 },
    }
}

/// The first check that a JSON module fails, if any: an object with a string
/// `path` (`Module`), a `level` absent or naming a level (`ModuleLogLevel`),
/// `lines` absent or a non-empty array of lines (`LineRange`).
pub open spec fn module_error(m: Json) -> Option<JsonError> {
    match m {
        Json::Object(f) => match member(f@, "path"@) {
            Some(Json::Str(_)) => if !level_member_ok(member(f@, "level"@)) {
                Some(JsonError::ModuleLogLevel)
            } else {
                match member(f@, "lines"@) {
                    None => None,
                    Some(Json::Array(ls)) => if ls@.len() > 0 && forall|i: int|
                        0 <= i < ls@.len() ==> line_ok(#[trigger] ls@[i]) {
                        None
                    } else {
                        Some(JsonError::LineRange)
                    },
                    Some(_) => Some(JsonError::LineRange),
                }
            },
            _ => Some(JsonError::Module),
        },
        _ => Some(JsonError::Module),
    }
}

/// The rule that a JSON module passing every check gives: its path, its level
/// (`TRACE` when absent), and its lines in the order written (none when absent).
pub open spec fn module_of(m: Json) -> ModuleView {
    match m {
        Json::Object(f) => ModuleView {
            path: match member(f@, "path"@) {
                Some(Json::Str(p)) => p@,
                _ => Seq::empty(),
            },
            level: member_level(member(f@, "level"@), Some(LogLevel::TRACE)).unwrap(),
            lranges: match member(f@, "lines"@) {
                Some(Json::Array(ls)) => Seq::new(ls@.len(), |i: int| line_of(ls@[i])),
                _ => Seq::empty(),
            },
        },
        _ => ModuleView { path: Seq::empty(), level: LogLevel::TRACE, lranges: Seq::empty() },
    }
}

/// The member `key` of a JSON object.
pub open spec fn root_member(doc: Json, key: Seq<char>) -> Option<Json> {
    match doc {
        Json::Object(f) => member(f@, key),
        _ => None,
    }
}

/// The items of a JSON array member, none for anything else.
pub open spec fn array_items(v: Option<Json>) -> Seq<Json> {
    match v {
        Some(Json::Array(items)) => items@,
        _ => Seq::empty(),
    }
}

/// A JSON spec passing every check: a non-empty object, a `level` absent or
/// naming a level, `modules` absent or a non-empty array of modules that pass
/// their checks.
pub open spec fn json_doc_ok(doc: Json) -> bool {
    &&& doc matches Json::Object(f) && f@.len() > 0
    &&& level_member_ok(root_member(doc, "level"@))
    &&& root_member(doc, "modules"@) is None || (root_member(doc, "modules"@) matches Some(
        Json::Array(items),
    ) && items@.len() > 0)
    &&& forall|i: int|
        0 <= i < array_items(root_member(doc, "modules"@)).len() ==> #[trigger] module_error(
            array_items(root_member(doc, "modules"@))[i],
        ) is None
}

proof fn lemma_json_ranges(lines: Seq<Json>)
    ensures
        json_ranges(lines) == if forall|i: int| 0 <= i < lines.len() ==> line_ok(#[trigger] lines[i]) {
            Some(Seq::new(lines.len(), |i: int| line_of(lines[i])))
        } else {
            None::<Seq<Range>>
        },
    decreases lines.len(),
{
    if lines.len() > 0 {
        let t = lines.drop_first();
        lemma_json_ranges(t);
        if forall|i: int| 0 <= i < lines.len() ==> line_ok(#[trigger] lines[i]) {
            assert forall|i: int| 0 <= i < t.len() implies line_ok(#[trigger] t[i]) by {
                assert(t[i] == lines[i + 1]);
            }
            assert(line_ok(lines[0]));
            assert(seq![line_of(lines[0])] + Seq::new(t.len(), |i: int| line_of(t[i])) =~= Seq::new(
                lines.len(),
                |i: int| line_of(lines[i]),
            ));
        } else {
            let k = choose|k: int| 0 <= k < lines.len() && !line_ok(#[trigger] lines[k]);
            if k > 0 {
                assert(t[k - 1] == lines[k]);
            }
        }
    } else {
        assert(Seq::new(0, |i: int| line_of(lines[i])) =~= Seq::<Range>::empty());
    }
}

proof fn lemma_json_module(m: Json)
    ensures
        json_module(m) == match module_error(m) {
            Some(e) => Err(ParseError::Json(e)),
            None => Ok(module_of(m)),
        },
{
    match m {
        Json::Object(f) => match member(f@, "lines"@) {
            Some(Json::Array(ls)) => {
                lemma_json_ranges(ls@);
            },
            _ => {},
        },
        _ => {},
    }
}

proof fn lemma_json_modules(items: Seq<Json>)
    ensures
        (forall|j: int| 0 <= j < items.len() ==> #[trigger] module_error(items[j]) is None)
            ==> json_modules(items) == Ok::<Seq<ModuleView>, ParseError>(
            Seq::new(items.len(), |j: int| module_of(items[j])),
        ),
        forall|i: int|
            0 <= i < items.len() && #[trigger] module_error(items[i]) is Some && (forall|j: int|
                0 <= j < i ==> module_error(items[j]) is None) ==> json_modules(items) == Err::<
                Seq<ModuleView>,
                ParseError,
            >(ParseError::Json(module_error(items[i]).unwrap())),
    decreases items.len(),
{
    if items.len() > 0 {
        let t = items.drop_first();
        lemma_json_modules(t);
        lemma_json_module(items[0]);
        if forall|j: int| 0 <= j < items.len() ==> #[trigger] module_error(items[j]) is None {
            assert forall|j: int| 0 <= j < t.len() implies #[trigger] module_error(t[j]) is None by {
                assert(t[j] == items[j + 1]);
            }
            assert(module_error(items[0]) is None);
            assert(seq![module_of(items[0])] + Seq::new(t.len(), |j: int| module_of(t[j])) =~= Seq::new(
                items.len(),
                |j: int| module_of(items[j]),
            ));
        }
        assert forall|i: int|
            0 <= i < items.len() && #[trigger] module_error(items[i]) is Some && (forall|j: int|
                0 <= j < i ==> module_error(items[j]) is None) implies json_modules(items) == Err::<
                Seq<ModuleView>,
                ParseError,
            >(ParseError::Json(module_error(items[i]).unwrap())) by {
            if i > 0 {
                assert(module_error(items[0]) is None);
                assert(t[i - 1] == items[i]);
                assert forall|j: int| 0 <= j < i - 1 implies module_error(t[j]) is None by {
                    assert(t[j] == items[j + 1]);
                }
                assert(module_error(t[i - 1]) is Some);
            }
        }
    } else {
        assert(Seq::new(0, |j: int| module_of(items[j])) =~= Seq::<ModuleView>::empty());
    }
}

/// What a JSON spec gives, check by check: a document passing every check
/// gives its level (none when absent) and one rule per module, in order;
/// otherwise the first check it fails gives its error: not a non-empty object
/// (`Root`), a `level` not naming a level (`RootLogLevel`), `modules` not a
/// non-empty array (`Module`), then the first module that fails its checks.
pub proof fn lemma_json_root(doc: Json)
    ensures
        json_root(doc) is Ok <==> json_doc_ok(doc),
        json_doc_ok(doc) ==> json_root(doc) == Ok::<RootView, ParseError>(
            RootView {
                level: member_level(root_member(doc, "level"@), None),
                modules: Seq::new(
                    array_items(root_member(doc, "modules"@)).len(),
                    |i: int| module_of(array_items(root_member(doc, "modules"@))[i]),
                ),
            },
        ),
        !(doc matches Json::Object(f) && f@.len() > 0) ==> json_root(doc) == Err::<RootView, ParseError>(
            ParseError::Json(JsonError::Root),
        ),
        (doc matches Json::Object(f) && f@.len() > 0) && !level_member_ok(root_member(doc, "level"@))
            ==> json_root(doc) == Err::<RootView, ParseError>(ParseError::Json(JsonError::RootLogLevel)),
        (doc matches Json::Object(f) && f@.len() > 0) && level_member_ok(root_member(doc, "level"@))
            && root_member(doc, "modules"@) is Some && array_items(root_member(doc, "modules"@)).len()
            == 0 ==> json_root(doc) == Err::<RootView, ParseError>(ParseError::Json(JsonError::Module)),
        forall|i: int|
            (doc matches Json::Object(f) && f@.len() > 0) && level_member_ok(root_member(doc, "level"@))
                && 0 <= i < array_items(root_member(doc, "modules"@)).len() && #[trigger] module_error(
                array_items(root_member(doc, "modules"@))[i],
            ) is Some && (forall|j: int|
                0 <= j < i ==> module_error(array_items(root_member(doc, "modules"@))[j]) is None)
                ==> json_root(doc) == Err::<RootView, ParseError>(
                ParseError::Json(module_error(array_items(root_member(doc, "modules"@))[i]).unwrap()),
            ),
{
    match doc {
        Json::Object(f) => {
            let items = array_items(root_member(doc, "modules"@));
            lemma_json_modules(items);
            if !(forall|j: int| 0 <= j < items.len() ==> #[trigger] module_error(items[j]) is None) {
                let k = choose|k: int| 0 <= k < items.len() && module_error(#[trigger] items[k]) is Some;
                let first = choose|i: int|
                    0 <= i < items.len() && #[trigger] module_error(items[i]) is Some && (forall|j: int|
                        0 <= j < i ==> module_error(items[j]) is None);
                assert(exists|i: int|
                    0 <= i < items.len() && #[trigger] module_error(items[i]) is Some && (forall|j: int|
                        0 <= j < i ==> module_error(items[j]) is None)) by {
                    lemma_first_failing(items, k);
                }
            }
            if member(f@, "modules"@) is None {
                assert(Seq::new(0, |i: int| module_of(items[i])) =~= Seq::<ModuleView>::empty());
            }
        },
        _ => {},
    }
}

proof fn lemma_first_failing(items: Seq<Json>, k: int)
    requires
        0 <= k < items.len(),
        module_error(items[k]) is Some,
    ensures
        exists|i: int|
            0 <= i < items.len() && #[trigger] module_error(items[i]) is Some && (forall|j: int|
                0 <= j < i ==> module_error(items[j]) is None),
    decreases k,
{
    if forall|j: int| 0 <= j < k ==> module_error(items[j]) is None {
        assert(module_error(items[k]) is Some);
    } else {
        let j = choose|j: int| 0 <= j < k && module_error(items[j]) is Some;
        lemma_first_failing(items, j);
    }
}

/// Reads a JSON member that must name a level.
fn read_level(v: Option<&Json>, default: Option<LogLevel>, err: JsonError) -> (r: Result<
    Option<LogLevel>,
    ParseError,
>)
    ensures
        r == json_level(
            match v {
                Some(j) => Some(*j),
                None => None,
            },
            default,
            err,
        ),
{
    match v {
        None => Ok(default),
        Some(Json::Str(s)) => match LogLevel::parse(s.as_str()) {
            Ok(l) => Ok(Some(l)),
            Err(_) => Err(ParseError::Json(err)),
        },
        Some(_) => Err(ParseError::Json(err)),
    }
}

fn read_range(line: &Json) -> (r: Option<Range>)
    ensures
        r == json_range(*line),
{
    match line {
        Json::Array(xs) => {
            if xs.len() != 2 {
                return None;
            }
            match (&xs[0], &xs[1]) {
                (Json::Number(Some(a)), Json::Number(Some(b))) => {
                    let (a, b) = (*a, *b);
                    if a <= 0xffff_ffffu64 && b <= 0xffff_ffffu64 && a <= b {
                        Some(Range { from: a as u32, to: b as u32 })
                    } else {
                        None
                    }
                },
                _ => None,
            }
        },
        _ => None,
    }
}

fn read_ranges(lines: &Vec<Json>) -> (r: Option<Vec<Range>>)
    ensures
        match r {
            Some(v) => json_ranges(lines@) == Some(v@),
            None => json_ranges(lines@) is None,
        },
{
    let mut out: Vec<Range> = Vec::new();
    let mut i: usize = 0;
    assert(lines@.skip(0) =~= lines@);
    while i < lines.len()
        invariant
            i <= lines@.len(),
            json_ranges(lines@) == (match json_ranges(lines@.skip(i as int)) {
                Some(rs) => Some(out@ + rs),
                None => None,
            }),
        decreases lines@.len() - i,
    {
        let ghost rest = lines@.skip(i as int);
        assert(rest[0] == lines@[i as int]);
        assert(rest.drop_first() =~= lines@.skip(i + 1));
        match read_range(&lines[i]) {
            None => {
                return None;
            },
            Some(r) => {
                proof {
                    match json_ranges(lines@.skip(i + 1)) {
                        Some(rs) => {
                            assert(out@ + (seq![r] + rs) =~= out@.push(r) + rs);
                        },
                        None => {},
                    }
                }
                out.push(r);
            },
        }
        i = i + 1;
    }
    assert(lines@.skip(i as int) =~= Seq::<Json>::empty());
    assert(out@ + Seq::<Range>::empty() =~= out@);
    Some(out)
}

fn read_module(m: &Json) -> (r: Result<Module, ParseError>)
    ensures
        match r {
            Ok(module) => json_module(*m) == Ok::<ModuleView, ParseError>(module@),
            Err(e) => json_module(*m) == Err::<ModuleView, ParseError>(e),
        },
{
    let fields = match m {
        Json::Object(fields) => fields,
        _ => {
            return Err(ParseError::Json(JsonError::Module));
        },
    };
    let path = match get_member(fields, "path") {
        Some(Json::Str(path)) => path,
        _ => {
            return Err(ParseError::Json(JsonError::Module));
        },
    };
    let level = match read_level(
        get_member(fields, "level"),
        Some(LogLevel::TRACE),
        JsonError::ModuleLogLevel,
    ) {
        Ok(level) => level.unwrap(),
        Err(e) => {
            return Err(e);
        },
    };
    match get_member(fields, "lines") {
        None => Ok(Module::with_level(path.as_str(), level)),
        Some(Json::Array(lines)) => {
            if lines.len() == 0 {
                return Err(ParseError::Json(JsonError::LineRange));
            }
            match read_ranges(lines) {
                None => Err(ParseError::Json(JsonError::LineRange)),
                Some(rs) => Ok(Module::with_lranges(path.as_str(), level, rs)),
            }
        },
        Some(_) => Err(ParseError::Json(JsonError::LineRange)),
    }
}

/// The spec that a JSON document gives.
pub fn root_of_json(doc: &Json) -> (r: Result<Root, ParseError>)
    ensures
        root_result(r) == json_root(*doc),
{
    let fields = match doc {
        Json::Object(fields) => fields,
        _ => {
            return Err(ParseError::Json(JsonError::Root));
        },
    };
    if fields.len() == 0 {
        return Err(ParseError::Json(JsonError::Root));
    }
    let level = match read_level(get_member(fields, "level"), None, JsonError::RootLogLevel) {
        Ok(level) => level,
        Err(e) => {
            return Err(e);
        },
    };
    let items = match get_member(fields, "modules") {
        None => {
            let root = Root { level: level, modules: Vec::new() };
            assert(root@.modules =~= Seq::<ModuleView>::empty());
            return Ok(root);
        },
        Some(Json::Array(items)) => items,
        Some(_) => {
            return Err(ParseError::Json(JsonError::Module));
        },
    };
    if items.len() == 0 {
        return Err(ParseError::Json(JsonError::Module));
    }
    let mut modules: Vec<Module> = Vec::new();
    let mut i: usize = 0;
    assert(items@.skip(0) =~= items@);
    let ghost whole = match json_modules(items@) {
        Err(e) => Err(e),
        Ok(ms) => Ok(RootView { level, modules: ms }),
    };
    assert(json_root(*doc) == whole);
    while i < items.len()
        invariant
            i <= items@.len(),
            json_root(*doc) == whole,
            whole == match json_modules(items@) {
                Err(e) => Err(e),
                Ok(ms) => Ok(RootView { level, modules: ms }),
            },
            json_modules(items@) == (match json_modules(items@.skip(i as int)) {
                Ok(ms) => Ok(module_views(modules@) + ms),
                Err(e) => Err(e),
            }),
        decreases items@.len() - i,
    {
        let ghost rest = items@.skip(i as int);
        assert(rest[0] == items@[i as int]);
        assert(rest.drop_first() =~= items@.skip(i + 1));
        match read_module(&items[i]) {
            Err(e) => {
                return Err(e);
            },
            Ok(m) => {
                proof {
                    match json_modules(items@.skip(i + 1)) {
                        Ok(ms) => {
                            assert(module_views(modules@) + (seq![m@] + ms) =~= module_views(
                                modules@.push(m),
                            ) + ms);
                        },
                        Err(_) => {},
                    }
                }
                modules.push(m);
            },
        }
        i = i + 1;
    }
    assert(items@.skip(i as int) =~= Seq::<Json>::empty());
    assert(module_views(modules@) + Seq::<ModuleView>::empty() =~= module_views(modules@));
    Ok(Root { level: level, modules: modules })
}

/// Reads the spec of a JSON text.
pub fn parse_json(json: &str) -> (r: Result<Root, ParseError>)
    ensures
        root_result(r) == match json_document(json@) {
            None => Err(ParseError::Json(JsonError::Json)),
            Some(doc) => json_root(doc),
        },
{
    match read_json(json) {
        None => Err(ParseError::Json(JsonError::Json)),
        Some(doc) => root_of_json(&doc),
    }
}


/// `root` with a rule giving `level` to the whole of `path` appended.
pub open spec fn with_module(root: RootView, path: Seq<char>, level: LogLevel) -> RootView {
    RootView {
        level: root.level,
        modules: root.modules.push(ModuleView { path, level, lranges: Seq::empty() }),
    }
}

/// What one token of an `env_logger` spec does: `level` sets the global level,
/// `path` gives `TRACE` to a path, `path=level` gives the level to the path.
/// A level is read from the token in upper case.
pub open spec fn token_effect(root: RootView, token: Seq<char>) -> Result<RootView, ParseError> {
    if token.len() == 0 {
        Err(ParseError::Spec)
    } else {
        let parts = split(token, '=');
        if parts.len() > 2 {
            Err(ParseError::Spec)
        } else {
            let k = trim(parts[0]);
            if k.len() == 0 {
                Err(ParseError::Spec)
            } else if parts.len() == 1 {
                match spec_parse_level(spec_upper(k)) {
                    Ok(l) => Ok(RootView { level: Some(l), modules: root.modules }),
                    Err(_) => Ok(with_module(root, k, LogLevel::TRACE)),
                }
            } else {
                let v = trim(parts[1]);
                if v.len() == 0 {
                    Err(ParseError::Spec)
                } else {
                    match spec_parse_level(spec_upper(v)) {
                        Ok(l) => Ok(with_module(root, k, l)),
                        Err(_) => Err(ParseError::Spec),
                    }
                }
            }
        }
    }
}

/// The tokens applied in order, up to the first that fails.
pub open spec fn tokens_effect(root: RootView, tokens: Seq<Seq<char>>) -> Result<RootView, ParseError>
    decreases tokens.len(),
{
    if tokens.len() == 0 {
        Ok(root)
    } else {
        match token_effect(root, tokens[0]) {
            Err(e) => Err(e),
            Ok(r) => tokens_effect(r, tokens.drop_first()),
        }
    }
}

/// What one token of an ASCII `env_logger` spec does: as `token_effect`, a
/// level read from the token with its letters `a` to `z` made upper case.
pub open spec fn ascii_token_effect(root: RootView, token: Seq<char>) -> Result<RootView, ParseError> {
    if token.len() == 0 {
        Err(ParseError::Spec)
    } else {
        let parts = split(token, '=');
        if parts.len() > 2 {
            Err(ParseError::Spec)
        } else {
            let k = trim(parts[0]);
            if k.len() == 0 {
                Err(ParseError::Spec)
            } else if parts.len() == 1 {
                match ascii_parse_level(k) {
                    Ok(l) => Ok(RootView { level: Some(l), modules: root.modules }),
                    Err(_) => Ok(with_module(root, k, LogLevel::TRACE)),
                }
            } else {
                let v = trim(parts[1]);
                if v.len() == 0 {
                    Err(ParseError::Spec)
                } else {
                    match ascii_parse_level(v) {
                        Ok(l) => Ok(with_module(root, k, l)),
                        Err(_) => Err(ParseError::Spec),
                    }
                }
            }
        }
    }
}

/// The tokens of an ASCII spec applied in order, up to the first that fails.
pub open spec fn ascii_tokens_effect(root: RootView, tokens: Seq<Seq<char>>) -> Result<
    RootView,
    ParseError,
>
    decreases tokens.len(),
{
    if tokens.len() == 0 {
        Ok(root)
    } else {
        match ascii_token_effect(root, tokens[0]) {
            Err(e) => Err(e),
            Ok(r) => ascii_tokens_effect(r, tokens.drop_first()),
        }
    }
}

/// Applies one token of an `env_logger` spec to `root`; on failure `root` is
/// left as it was.
fn parse_token(root: &mut Root, token: &Vec<char>) -> (r: Result<(), ParseError>)
    ensures
        match token_effect(old(root)@, token@) {
            Ok(v) => r is Ok && final(root)@ == v,
            Err(e) => r == Err::<(), ParseError>(e) && final(root)@ == old(root)@,
        },
        is_ascii_text(token@) ==> token_effect(old(root)@, token@) == ascii_token_effect(
            old(root)@,
            token@,
        ),
{
    proof {
        if is_ascii_text(token@) {
            lemma_ascii_split(token@, '=');
        }
    }
    if token.len() == 0 {
        return Err(ParseError::Spec);
    }
    let parts = split_at_char(token, '=');
    if parts.len() > 2 {
        return Err(ParseError::Spec);
    }
    let k = trimmed(&parts[0]);
    if k.len() == 0 {
        return Err(ParseError::Spec);
    }
    let path = string_of(k.as_slice());
    let ghost old_modules = module_views(root.modules@);
    if parts.len() == 1 {
        let up = upper_case(path.as_str());
        let parsed = LogLevel::parse(up.as_str());
        proof {
            if is_ascii_text(token@) {
                lemma_ascii_trim(parts@[0]@);
                lemma_ascii_upper_twice(k@);
                assert(spec_parse_level(spec_upper(k@)) == ascii_parse_level(k@));
            }
        }
        match parsed {
            Ok(level) => {
                root.level = Some(level);
            },
            Err(_) => {
                let m = Module::with_level(path.as_str(), LogLevel::TRACE);
                root.modules.push(m);
                assert(module_views(root.modules@) =~= old_modules.push(m@));
            },
        }
    } else {
        let v = trimmed(&parts[1]);
        if v.len() == 0 {
            return Err(ParseError::Spec);
        }
        let vs = string_of(v.as_slice());
        let up = upper_case(vs.as_str());
        let parsed = LogLevel::parse(up.as_str());
        proof {
            if is_ascii_text(token@) {
                lemma_ascii_trim(parts@[1]@);
                lemma_ascii_upper_twice(v@);
                assert(spec_parse_level(spec_upper(v@)) == ascii_parse_level(v@));
            }
        }
        match parsed {
            Ok(level) => {
                let m = Module::with_level(path.as_str(), level);
                root.modules.push(m);
                assert(module_views(root.modules@) =~= old_modules.push(m@));
            },
            Err(_) => {
                return Err(ParseError::Spec);
            },
        }
    }
    Ok(())
}

/// The spec with no global level and no rule.
pub open spec fn empty_root() -> RootView {
    RootView { level: None, modules: Seq::empty() }
}

impl Root {
    /// A spec with no global level and no rule.
    pub fn new() -> (r: Root)
        ensures
            r@ == empty_root(),
    {
        let r = Root { level: None, modules: Vec::new() };
        assert(r@.modules =~= Seq::<ModuleView>::empty());
        r
    }
}

/// Reads the tokens of an `env_logger` spec in order.
fn parse_tokens(tokens: &Vec<Vec<char>>, tokens_view: Ghost<Seq<Seq<char>>>) -> (r: Result<
    Root,
    ParseError,
>)
    requires
        tokens@.len() == tokens_view@.len(),
        forall|i: int| 0 <= i < tokens@.len() ==> (#[trigger] tokens@[i])@ == tokens_view@[i],
    ensures
        root_result(r) == tokens_effect(empty_root(), tokens_view@),
        (forall|i: int| 0 <= i < tokens_view@.len() ==> is_ascii_text(#[trigger] tokens_view@[i]))
            ==> tokens_effect(empty_root(), tokens_view@) == ascii_tokens_effect(
            empty_root(),
            tokens_view@,
        ),
{
    let mut root = Root::new();
    let mut i: usize = 0;
    let ghost all_ascii = forall|j: int|
        0 <= j < tokens_view@.len() ==> is_ascii_text(#[trigger] tokens_view@[j]);
    assert(tokens_view@.skip(0) =~= tokens_view@);
    while i < tokens.len()
        invariant
            i <= tokens@.len(),
            tokens@.len() == tokens_view@.len(),
            forall|j: int| 0 <= j < tokens@.len() ==> (#[trigger] tokens@[j])@ == tokens_view@[j],
            tokens_effect(empty_root(), tokens_view@) == tokens_effect(
                root@,
                tokens_view@.skip(i as int),
            ),
            all_ascii == forall|j: int|
                0 <= j < tokens_view@.len() ==> is_ascii_text(#[trigger] tokens_view@[j]),
            all_ascii ==> ascii_tokens_effect(empty_root(), tokens_view@) == ascii_tokens_effect(
                root@,
                tokens_view@.skip(i as int),
            ),
        decreases tokens@.len() - i,
    {
        let ghost rest = tokens_view@.skip(i as int);
        assert(rest[0] == tokens@[i as int]@);
        assert(rest.drop_first() =~= tokens_view@.skip(i + 1));
        match parse_token(&mut root, &tokens[i]) {
            Err(e) => {
                return Err(e);
            },
            Ok(()) => {},
        }
        i = i + 1;
    }
    assert(tokens_view@.skip(i as int) =~= Seq::<Seq<char>>::empty());
    Ok(root)
}


/// `a` comes before `b` or equals it, character by character.
pub open spec fn text_le(a: Seq<char>, b: Seq<char>) -> bool
    decreases a.len(),
{
    if a.len() == 0 {
        true
    } else if b.len() == 0 {
        false
    } else if a[0] != b[0] {
        (a[0] as int) < (b[0] as int)
    } else {
        text_le(a.drop_first(), b.drop_first())
    }
}

/// Whether `a` comes before `b` or equals it, character by character.
fn text_le_exec(a: &String, b: &String) -> (r: bool)
    ensures
        r == text_le(a@, b@),
{
    let x = chars_of(a.as_str());
    let y = chars_of(b.as_str());
    let mut i: usize = 0;
    assert(x@.skip(0) =~= x@);
    assert(y@.skip(0) =~= y@);
    while i < x.len() && i < y.len() && x[i] == y[i]
        invariant
            i <= x@.len(),
            i <= y@.len(),
            text_le(x@, y@) == text_le(x@.skip(i as int), y@.skip(i as int)),
        decreases x@.len() - i,
    {
        assert(x@.skip(i as int).drop_first() =~= x@.skip(i + 1));
        assert(y@.skip(i as int).drop_first() =~= y@.skip(i + 1));
        i = i + 1;
    }
    if i == x.len() {
        true
    } else if i == y.len() {
        false
    } else {
        assert(x@.skip(i as int)[0] == x@[i as int]);
        assert(y@.skip(i as int)[0] == y@[i as int]);
        x[i] < y[i]
    }
}

/// Rules ordered by path, then by level.
pub open spec fn path_level_le(a: ModuleView, b: ModuleView) -> bool {
    if a.path == b.path {
        crate::levels::level_le(a.level, b.level)
    } else {
        text_le(a.path, b.path)
    }
}

/// Rules ordered by path; for one path, the rules for the whole file first,
/// the most severe level first, then the rules for lines by level.
pub open spec fn path_lines_le(a: ModuleView, b: ModuleView) -> bool {
    if a.path == b.path {
        if a.lranges.len() == 0 {
            b.lranges.len() != 0 || crate::levels::level_le(b.level, a.level)
        } else {
            b.lranges.len() != 0 && crate::levels::level_le(a.level, b.level)
        }
    } else {
        text_le(a.path, b.path)
    }
}

/// The first order of `squash`.
pub open spec fn by_path_level() -> spec_fn(ModuleView, ModuleView) -> bool {
    |a: ModuleView, b: ModuleView| path_level_le(a, b)
}

/// The second order of `squash`.
pub open spec fn by_path_lines() -> spec_fn(ModuleView, ModuleView) -> bool {
    |a: ModuleView, b: ModuleView| path_lines_le(a, b)
}

/// `x` put into `s` after the last element that is not after it.
pub open spec fn insert_by<T>(s: Seq<T>, x: T, le: spec_fn(T, T) -> bool) -> Seq<T>
    decreases s.len(),
{
    if s.len() == 0 {
        seq![x]
    } else if le(s.last(), x) {
        s.push(x)
    } else {
        insert_by(s.drop_last(), x, le).push(s.last())
    }
}

/// The stable sort of `s` by `le`.
pub open spec fn sort_by<T>(s: Seq<T>, le: spec_fn(T, T) -> bool) -> Seq<T>
    decreases s.len(),
{
    if s.len() == 0 {
        s
    } else {
        insert_by(sort_by(s.drop_last(), le), s.last(), le)
    }
}

proof fn lemma_insert_by_at<T>(s: Seq<T>, x: T, le: spec_fn(T, T) -> bool, p: int)
    requires
        0 <= p <= s.len(),
        forall|k: int| p <= k < s.len() ==> !le(#[trigger] s[k], x),
        p > 0 ==> le(s[p - 1], x),
    ensures
        insert_by(s, x, le) == s.insert(p, x),
    decreases s.len() - p,
{
    if p == s.len() {
        if s.len() > 0 {
            assert(s.last() == s[p - 1]);
        }
        assert(s.insert(p, x) =~= s.push(x));
    } else {
        let d = s.drop_last();
        lemma_insert_by_at(d, x, le, p);
        assert(!le(s.last(), x));
        assert(d.insert(p, x).push(s.last()) =~= s.insert(p, x));
    }
}

/// The rule with its ranges merged.
pub open spec fn normalized(m: ModuleView) -> ModuleView {
    ModuleView { path: m.path, level: m.level, lranges: spec_merge_ranges(m.lranges, true) }
}

/// The rules with their ranges merged.
pub open spec fn all_normalized(s: Seq<ModuleView>) -> Seq<ModuleView> {
    Seq::new(s.len(), |i: int| normalized(s[i]))
}

/// The ranges of two rules of one path and level joined: none (the whole
/// file) when either rule is for the whole file, else their ranges merged.
pub open spec fn joined_ranges(a: Seq<Range>, b: Seq<Range>) -> Seq<Range> {
    if a.len() == 0 || b.len() == 0 {
        Seq::empty()
    } else {
        spec_merge_ranges(a + b, true)
    }
}

/// Joins `prev` with the following rules of the same path and level, joining
/// their ranges, and goes on from the first rule that differs.
pub open spec fn group_from(prev: ModuleView, rest: Seq<ModuleView>) -> Seq<ModuleView>
    decreases rest.len(),
{
    if rest.len() == 0 {
        seq![prev]
    } else if prev.path == rest[0].path && prev.level == rest[0].level {
        group_from(
            ModuleView {
                path: prev.path,
                level: prev.level,
                lranges: joined_ranges(prev.lranges, rest[0].lranges),
            },
            rest.drop_first(),
        )
    } else {
        seq![prev] + group_from(rest[0], rest.drop_first())
    }
}

/// Two rules of one path with different levels whose line ranges share a line.
pub open spec fn conflicting(p: ModuleView, q: ModuleView) -> bool {
    &&& p.path == q.path
    &&& p.level != q.level
    &&& exists|i: int, j: int|
        0 <= i < p.lranges.len() && 0 <= j < q.lranges.len() && spec_intersects(
            #[trigger] p.lranges[i],
            #[trigger] q.lranges[j],
        )
}

/// Some two rules conflict.
pub open spec fn has_conflict(s: Seq<ModuleView>) -> bool {
    exists|i: int, j: int|
        0 <= i < s.len() && 0 <= j < s.len() && #[trigger] conflicting(s[i], s[j])
}

/// The rules of `squash` once sorted by path and level, merged and sorted again.
pub open spec fn squashed_modules(modules: Seq<ModuleView>) -> Seq<ModuleView> {
    let s1 = all_normalized(sort_by(modules, by_path_level()));
    sort_by(group_from(s1[0], s1.drop_first()), by_path_lines())
}

/// What `squash` gives: an error where two of the rules conflict; else the
/// rules sorted by path and level, with their ranges merged, the rules of one
/// path and level joined, then sorted by path with the whole-file rules first.
pub open spec fn squash_result(root: RootView) -> Result<RootView, ParseError> {
    if root.modules.len() == 0 {
        Ok(root)
    } else if has_conflict(root.modules) {
        Err(ParseError::Json(JsonError::Intersection))
    } else {
        Ok(RootView { level: root.level, modules: squashed_modules(root.modules) })
    }
}

fn path_level_le_exec(a: &Module, b: &Module) -> (r: bool)
    ensures
        r == path_level_le(a@, b@),
{
    if a.path == b.path {
        a.level.le(b.level)
    } else {
        text_le_exec(&a.path, &b.path)
    }
}

fn path_lines_le_exec(a: &Module, b: &Module) -> (r: bool)
    ensures
        r == path_lines_le(a@, b@),
{
    if a.path == b.path {
        if a.lranges.len() == 0 {
            b.lranges.len() != 0 || b.level.le(a.level)
        } else {
            b.lranges.len() != 0 && a.level.le(b.level)
        }
    } else {
        text_le_exec(&a.path, &b.path)
    }
}

fn module_le(a: &Module, b: &Module, lines_first: bool) -> (r: bool)
    ensures
        r == (if lines_first {
            by_path_lines()
        } else {
            by_path_level()
        })(a@, b@),
{
    if lines_first {
        path_lines_le_exec(a, b)
    } else {
        path_level_le_exec(a, b)
    }
}

fn insert_module(v: &mut Vec<Module>, x: Module, lines_first: bool)
    ensures
        module_views(final(v)@) == insert_by(
            module_views(old(v)@),
            x@,
            if lines_first {
                by_path_lines()
            } else {
                by_path_level()
            },
        ),
{
    let ghost le = if lines_first {
        by_path_lines()
    } else {
        by_path_level()
    };
    let ghost s = module_views(v@);
    let mut p: usize = v.len();
    while p > 0 && !module_le(&v[p - 1], &x, lines_first)
        invariant
            p <= v@.len(),
            s == module_views(v@),
            le == (if lines_first {
                by_path_lines()
            } else {
                by_path_level()
            }),
            forall|k: int| p <= k < s.len() ==> !le(#[trigger] s[k], x@),
        decreases p,
    {
        p = p - 1;
    }
    proof {
        lemma_insert_by_at(s, x@, le, p as int);
    }
    let ghost xv = x@;
    v.insert(p, x);
    assert(module_views(v@) =~= s.insert(p as int, xv));
}

fn sort_modules(mods: &Vec<Module>, lines_first: bool) -> (r: Vec<Module>)
    ensures
        module_views(r@) == sort_by(
            module_views(mods@),
            if lines_first {
                by_path_lines()
            } else {
                by_path_level()
            },
        ),
{
    let ghost le = if lines_first {
        by_path_lines()
    } else {
        by_path_level()
    };
    let mut out: Vec<Module> = Vec::new();
    let mut i: usize = 0;
    while i < mods.len()
        invariant
            i <= mods@.len(),
            le == (if lines_first {
                by_path_lines()
            } else {
                by_path_level()
            }),
            module_views(out@) == sort_by(module_views(mods@.take(i as int)), le),
        decreases mods@.len() - i,
    {
        let m = mods[i].copy();
        insert_module(&mut out, m, lines_first);
        proof {
            let t = module_views(mods@.take(i + 1));
            assert(t.drop_last() =~= module_views(mods@.take(i as int)));
            assert(t.last() == mods@[i as int]@);
        }
        i = i + 1;
    }
    assert(mods@.take(mods@.len() as int) =~= mods@);
    out
}

fn append_ranges(a: &Vec<Range>, b: &Vec<Range>) -> (r: Vec<Range>)
    ensures
        r@ == a@ + b@,
{
    let mut out = copy_ranges(a);
    let mut i: usize = 0;
    while i < b.len()
        invariant
            i <= b@.len(),
            out@ == a@ + b@.take(i as int),
        decreases b@.len() - i,
    {
        out.push(b[i]);
        i = i + 1;
        assert(out@ =~= a@ + b@.take(i as int));
    }
    assert(b@.take(b@.len() as int) =~= b@);
    out
}

fn ranges_meet(a: &Vec<Range>, b: &Vec<Range>) -> (r: bool)
    ensures
        r == exists|i: int, j: int|
            0 <= i < a@.len() && 0 <= j < b@.len() && spec_intersects(
                #[trigger] a@[i],
                #[trigger] b@[j],
            ),
{
    let mut i: usize = 0;
    while i < a.len()
        invariant
            i <= a@.len(),
            forall|x: int, y: int|
                0 <= x < i && 0 <= y < b@.len() ==> !spec_intersects(
                    #[trigger] a@[x],
                    #[trigger] b@[y],
                ),
        decreases a@.len() - i,
    {
        let mut j: usize = 0;
        while j < b.len()
            invariant
                i < a@.len(),
                j <= b@.len(),
                forall|x: int, y: int|
                    0 <= x < i && 0 <= y < b@.len() ==> !spec_intersects(
                        #[trigger] a@[x],
                        #[trigger] b@[y],
                    ),
                forall|y: int| 0 <= y < j ==> !spec_intersects(a@[i as int], #[trigger] b@[y]),
            decreases b@.len() - j,
        {
            if a[i].intersects(&b[j]) {
                return true;
            }
            j = j + 1;
        }
        i = i + 1;
    }
    false
}

/// Whether two of the rules conflict.
fn any_conflict(mods: &Vec<Module>) -> (r: bool)
    ensures
        r == has_conflict(module_views(mods@)),
{
    let ghost s = module_views(mods@);
    let mut i: usize = 0;
    while i < mods.len()
        invariant
            s == module_views(mods@),
            i <= mods@.len(),
            forall|a: int, b: int|
                0 <= a < i && 0 <= b < s.len() ==> !#[trigger] conflicting(s[a], s[b]),
        decreases mods@.len() - i,
    {
        let mut j: usize = 0;
        while j < mods.len()
            invariant
                s == module_views(mods@),
                i < mods@.len(),
                j <= mods@.len(),
                forall|a: int, b: int|
                    0 <= a < i && 0 <= b < s.len() ==> !#[trigger] conflicting(s[a], s[b]),
                forall|b: int| 0 <= b < j ==> !#[trigger] conflicting(s[i as int], s[b]),
            decreases mods@.len() - j,
        {
            let p = &mods[i];
            let q = &mods[j];
            assert(s[i as int] == p@ && s[j as int] == q@);
            if p.path == q.path && p.level != q.level && ranges_meet(&p.lranges, &q.lranges) {
                proof {
                    let (wi, wj) = choose|x: int, y: int|
                        0 <= x < p.lranges@.len() && 0 <= y < q.lranges@.len() && spec_intersects(
                            #[trigger] p.lranges@[x],
                            #[trigger] q.lranges@[y],
                        );
                    assert(spec_intersects(s[i as int].lranges[wi], s[j as int].lranges[wj]));
                    assert(conflicting(s[i as int], s[j as int]));
                }
                return true;
            }
            j = j + 1;
        }
        i = i + 1;
    }
    false
}

/// Checks the rules of a spec for conflicts, then sorts and joins them.
pub fn squash(root: Root) -> (r: Result<Root, ParseError>)
    ensures
        root_result(r) == squash_result(root@),
{
    if root.modules.len() == 0 {
        return Ok(root);
    }
    if any_conflict(&root.modules) {
        return Err(ParseError::Json(JsonError::Intersection));
    }
    let sorted = sort_modules(&root.modules, false);
    let ghost sv = sort_by(module_views(root.modules@), by_path_level());
    let ghost s1 = all_normalized(sv);
    proof {
        lemma_sort_by_len(module_views(root.modules@), by_path_level());
    }
    let mut modules: Vec<Module> = Vec::new();
    let mut prev = sorted[0].copy();
    prev.lranges = merge_ranges(&prev.lranges, true);
    assert(prev@ == s1[0]);
    let mut i: usize = 1;
    while i < sorted.len()
        invariant
            1 <= i <= sorted@.len(),
            module_views(sorted@) == sv,
            s1 == all_normalized(sv),
            module_views(modules@) + group_from(prev@, s1.skip(i as int)) == group_from(
                s1[0],
                s1.drop_first(),
            ),
        decreases sorted@.len() - i,
    {
        let ghost rest = s1.skip(i as int);
        assert(rest[0] == s1[i as int]);
        assert(rest.drop_first() =~= s1.skip(i + 1));
        let mut item = sorted[i].copy();
        item.lranges = merge_ranges(&item.lranges, true);
        assert(item@ == s1[i as int]);
        if prev.path == item.path && prev.level == item.level {
            if prev.lranges.len() == 0 || item.lranges.len() == 0 {
                prev.lranges = Vec::new();
                assert(prev.lranges@ =~= Seq::<Range>::empty());
            } else {
                let joined = append_ranges(&prev.lranges, &item.lranges);
                prev.lranges = merge_ranges(&joined, true);
            }
        } else {
            let ghost pv = prev@;
            let ghost before = module_views(modules@);
            modules.push(prev);
            assert(module_views(modules@) =~= before.push(pv));
            assert(before + (seq![pv] + group_from(item@, s1.skip(i + 1))) =~= before.push(pv)
                + group_from(item@, s1.skip(i + 1)));
            prev = item;
        }
        i = i + 1;
    }
    assert(s1.skip(i as int) =~= Seq::<ModuleView>::empty());
    let ghost before = module_views(modules@);
    let ghost pv = prev@;
    modules.push(prev);
    assert(module_views(modules@) =~= before + seq![pv]);
    let squashed = sort_modules(&modules, true);
    assert(module_views(squashed@) == squashed_modules(root@.modules));
    Ok(Root { level: root.level, modules: squashed })
}

proof fn lemma_insert_by_len<T>(s: Seq<T>, x: T, le: spec_fn(T, T) -> bool)
    ensures
        insert_by(s, x, le).len() == s.len() + 1,
    decreases s.len(),
{
    if s.len() > 0 {
        lemma_insert_by_len(s.drop_last(), x, le);
    }
}

pub(crate) proof fn lemma_sort_by_len<T>(s: Seq<T>, le: spec_fn(T, T) -> bool)
    ensures
        sort_by(s, le).len() == s.len(),
    decreases s.len(),
{
    if s.len() > 0 {
        lemma_sort_by_len(s.drop_last(), le);
        lemma_insert_by_len(sort_by(s.drop_last(), le), s.last(), le);
    }
}


/// What parsing a spec gives: the text is trimmed; a text starting with `{` is
/// read as JSON, any other as comma-separated tokens; the rules are then
/// squashed.
pub open spec fn parse_result(s: Seq<char>) -> Result<RootView, ParseError> {
    let t = trim(s);
    if t.len() == 0 {
        Err(ParseError::Spec)
    } else if t[0] == '{' {
        match json_document(t) {
            None => Err(ParseError::Json(JsonError::Json)),
            Some(doc) => match json_root(doc) {
                Err(e) => Err(e),
                Ok(r) => squash_result(r),
            },
        }
    } else {
        match tokens_effect(empty_root(), split(t, ',')) {
            Err(e) => Err(e),
            Ok(r) => squash_result(r),
        }
    }
}

/// What parsing an ASCII spec gives: as `parse_result`, the levels of an
/// `env_logger` spec read with their letters `a` to `z` made upper case.
pub open spec fn ascii_parse_result(s: Seq<char>) -> Result<RootView, ParseError> {
    let t = trim(s);
    if t.len() == 0 {
        Err(ParseError::Spec)
    } else if t[0] == '{' {
        parse_result(s)
    } else {
        match ascii_tokens_effect(empty_root(), split(t, ',')) {
            Err(e) => Err(e),
            Ok(r) => squash_result(r),
        }
    }
}

/// White space around a spec does not change what it gives.
pub proof fn lemma_parse_trimmed(s: Seq<char>)
    ensures
        parse_result(trim(s)) == parse_result(s),
{
    crate::text::lemma_trim_idempotent(s);
}

/// Parses a logging spec: either an `env_logger` spec or a JSON document.
pub fn parse(spec: &str) -> (r: Result<Root, ParseError>)
    ensures
        root_result(r) == parse_result(spec@),
        is_ascii_text(spec@) ==> root_result(r) == ascii_parse_result(spec@),
{
    proof {
        if is_ascii_text(spec@) {
            lemma_ascii_trim(spec@);
            lemma_ascii_split(trim(spec@), ',');
        }
    }
    let chars = chars_of(spec);
    let t = trimmed(&chars);
    if t.len() == 0 {
        return Err(ParseError::Spec);
    }
    if t[0] == '{' {
        let text = string_of(t.as_slice());
        return match parse_json(text.as_str()) {
            Err(e) => Err(e),
            Ok(root) => squash(root),
        };
    }
    let tokens = split_at_char(&t, ',');
    match parse_tokens(&tokens, Ghost(split(t@, ','))) {
        Err(e) => Err(e),
        Ok(root) => squash(root),
    }
}

impl Root {
    /// A spec that sets the global level and has no rule.
    pub fn with_level(level: LogLevel) -> (r: Root)
        ensures
            r@ == (RootView { level: Some(level), modules: Seq::empty() }),
    {
        let r = Root { level: Some(level), modules: Vec::new() };
        assert(r@.modules =~= Seq::<ModuleView>::empty());
        r
    }

    /// The spec with the rule `module` added, squashed again.
    pub fn module(self, module: Module) -> (r: Root)
        requires
            squash_result(
                RootView { level: self@.level, modules: self@.modules.push(module@) },
            ) is Ok,
        ensures
            Ok::<RootView, ParseError>(r@) == squash_result(
                RootView { level: self@.level, modules: self@.modules.push(module@) },
            ),
    {
        let mut root = self;
        let ghost before = root@.modules;
        let ghost mv = module@;
        root.modules.push(module);
        assert(root@.modules =~= before.push(mv));
        match squash(root) {
            Ok(r) => r,
            Err(_) => {
                assert(false);
                Root::new()
            },
        }
    }
}

} // verus!
