//! Finding the places where a program is split.
use crate::order::same_text;
use crate::read::{ExportId, ExternalKind, ImportId, InputModule};
use crate::split_point::roots::SplitPoint;
use vstd::prelude::*;

verus! {

/// Why split points cannot be found.
#[derive(Debug, PartialEq, Eq, Clone, Copy, Structural)]
pub enum SplitError {
    /// The import of a split point has no corresponding export.
    NoExport {
        /// The import.
        import: ImportId,
    },
    /// The export of a split point is not a function.
    ExpectedExportedFunction {
        /// The export.
        export: ExportId,
    },
    /// The import of a split point is not a function.
    ExpectedImportedFunction {
        /// The import.
        import: ImportId,
    },
}

/// The pattern for names of imports of split points.
pub const IMPORT_PATTERN: &'static str = "__wasm_split_00(.*)00_import_([0-9a-f]{32})";

/// The pattern for names of exports of split points.
pub const EXPORT_PATTERN: &'static str = "__wasm_split_00(.*)00_export_([0-9a-f]{32})";

/// Whether a text stands for itself in a pattern: it is made of ASCII letters, digits and underscores.
pub open spec fn is_plain(text: Seq<char>) -> bool {
    forall|i: int|
        0 <= i < text.len() ==> {
            let c = #[trigger] text[i];
            ('a' <= c && c <= 'z') || ('A' <= c && c <= 'Z') || ('0' <= c && c <= '9') || c == '_'
        }
}

/// The pattern for `start`, a name, `middle`, and an identifier.
pub open spec fn name_pattern(start: Seq<char>, middle: Seq<char>) -> Seq<char> {
    start + "(.*)"@ + middle + "([0-9a-f]{32})"@
}

/// Whether a pattern is made of two plain texts, and not too long.
pub open spec fn is_name_pattern(pattern: Seq<char>, start: Seq<char>, middle: Seq<char>) -> bool {
    is_plain(start) && is_plain(middle) && pattern == name_pattern(start, middle) && pattern.len()
        <= 100
}

/// Whether a character is a hexadecimal digit.
pub open spec fn is_hex(c: char) -> bool {
    ('0' <= c && c <= '9') || ('a' <= c && c <= 'f')
}

/// How many characters an identifier has.
pub open spec fn id_len() -> int {
    32
}

/// Whether a text has `start` at `i` and `middle` at `j`, with a name on one line between them and an
/// identifier behind them.
pub open spec fn matches_at(
    text: Seq<char>,
    start: Seq<char>,
    middle: Seq<char>,
    i: int,
    j: int,
) -> bool {
    &&& 0 <= i
    &&& i + start.len() <= j
    &&& j + middle.len() + id_len() <= text.len()
    &&& text.subrange(i, i + start.len()) == start
    &&& forall|k: int| i + start.len() <= k < j ==> #[trigger] text[k] != '\n'
    &&& text.subrange(j, j + middle.len()) == middle
    &&& forall|k: int|
        j + middle.len() <= k < j + middle.len() + id_len() ==> is_hex(#[trigger] text[k])
}

/// Whether the match at `i` and `j` is the one that counts: the first one, with the longest name.
pub open spec fn captures_at(
    text: Seq<char>,
    start: Seq<char>,
    middle: Seq<char>,
    i: int,
    j: int,
) -> bool {
    &&& matches_at(text, start, middle, i, j)
    &&& forall|a: int, b: int| #[trigger]
        matches_at(text, start, middle, a, b) ==> i < a || (i == a && b <= j)
}

/// A name and an identifier.
pub type NameView = (Seq<char>, Seq<char>);

/// The name and the identifier in a text, if there are any.
pub open spec fn name_in(text: Seq<char>, start: Seq<char>, middle: Seq<char>) -> Option<NameView> {
    if exists|i: int, j: int| #[trigger] matches_at(text, start, middle, i, j) {
        let (i, j) = choose|i: int, j: int| #[trigger] captures_at(text, start, middle, i, j);
        Some(
            (
                text.subrange(i + start.len(), j),
                text.subrange(j + middle.len(), j + middle.len() + id_len()),
            ),
        )
    } else {
        None
    }
}

/// What a name and an identifier say, if there are any.
pub open spec fn found_view(found: Option<(String, String)>) -> Option<NameView> {
    match found {
        Some((name, id)) => Some((name@, id@)),
        None => None,
    }
}

/// Finds a name and an identifier in a text with `regex::Regex::new` and `regex::Regex::captures`.
///
/// The pattern is made of two plain texts, which stand for themselves; `(.*)`, which stands for as
/// many characters as possible other than line feeds; and `([0-9a-f]{32})`, which stands for as many
/// hexadecimal digits. The leftmost match counts. The texts that the groups stand for are returned.
#[verifier::external_body]
pub(crate) fn find_captures(pattern: &str, text: &str) -> (found: Option<(String, String)>)
    requires
        exists|start: Seq<char>, middle: Seq<char>| #[trigger]
            is_name_pattern(pattern@, start, middle),
    ensures
        forall|start: Seq<char>, middle: Seq<char>| #[trigger]
            is_name_pattern(pattern@, start, middle) ==> found_view(found) == name_in(
                text@,
                start,
                middle,
            ),
{
    let pattern = regex::Regex::new(pattern).unwrap();
    let captures = pattern.captures(text)?;
    let (_, [name, id]) = captures.extract();
    Some((name.to_owned(), id.to_owned()))
}

/// The match that counts exists if there is one at all.
pub proof fn lemma_captures(text: Seq<char>, start: Seq<char>, middle: Seq<char>)
    requires
        exists|i: int, j: int| #[trigger] matches_at(text, start, middle, i, j),
    ensures
        exists|i: int, j: int| #[trigger] captures_at(text, start, middle, i, j),
{
    let (i, j) = choose|i: int, j: int| #[trigger] matches_at(text, start, middle, i, j);
    let first = lemma_first_match(text, start, middle, i, j);
    lemma_longest_match(text, start, middle, first.0, first.1);
}

/// Finds the first place where a match starts.
proof fn lemma_first_match(
    text: Seq<char>,
    start: Seq<char>,
    middle: Seq<char>,
    i: int,
    j: int,
) -> (first: (int, int))
    requires
        matches_at(text, start, middle, i, j),
    ensures
        matches_at(text, start, middle, first.0, first.1),
        forall|a: int, b: int| #[trigger] matches_at(text, start, middle, a, b) ==> first.0 <= a,
    decreases i,
{
    if exists|a: int, b: int| #[trigger] matches_at(text, start, middle, a, b) && a < i {
        let (a, b) = choose|a: int, b: int| #[trigger]
            matches_at(text, start, middle, a, b) && a < i;
        lemma_first_match(text, start, middle, a, b)
    } else {
        (i, j)
    }
}

/// The longest match from the first place on is the one that counts.
proof fn lemma_longest_match(
    text: Seq<char>,
    start: Seq<char>,
    middle: Seq<char>,
    i: int,
    j: int,
)
    requires
        matches_at(text, start, middle, i, j),
        forall|a: int, b: int| #[trigger] matches_at(text, start, middle, a, b) ==> i <= a,
    ensures
        exists|a: int, b: int| #[trigger] captures_at(text, start, middle, a, b),
    decreases text.len() - j,
{
    if exists|b: int| #[trigger] matches_at(text, start, middle, i, b) && j < b {
        let b = choose|b: int| #[trigger] matches_at(text, start, middle, i, b) && j < b;
        lemma_longest_match(text, start, middle, i, b);
    } else {
        assert(captures_at(text, start, middle, i, j));
    }
}

/// What names and identifiers say.
pub open spec fn found_views(found: Seq<Option<(String, String)>>) -> Seq<Option<NameView>> {
    Seq::new(found.len(), |i: int| found_view(found[i]))
}

/// The text before the name in a name of a split point.
pub open spec fn split_start() -> Seq<char> {
    "__wasm_split_00"@
}

/// The text behind the name in the name of an import.
pub open spec fn import_middle() -> Seq<char> {
    "00_import_"@
}

/// The text behind the name in the name of an export.
pub open spec fn export_middle() -> Seq<char> {
    "00_export_"@
}

/// The names and identifiers of the imports that belong to split points.
pub open spec fn import_names(module: &InputModule) -> Seq<Option<NameView>> {
    Seq::new(
        module.imports@.len(),
        |i: int| name_in(module.imports@[i].name@, split_start(), import_middle()),
    )
}

/// The names and identifiers of the exports that belong to split points.
pub open spec fn export_names(module: &InputModule) -> Seq<Option<NameView>> {
    Seq::new(
        module.exports@.len(),
        |i: int| name_in(module.exports@[i].name@, split_start(), export_middle()),
    )
}

/// The patterns are those for imports and exports.
proof fn lemma_patterns()
    ensures
        is_name_pattern(IMPORT_PATTERN@, split_start(), import_middle()),
        is_name_pattern(EXPORT_PATTERN@, split_start(), export_middle()),
{
    reveal_strlit("__wasm_split_00(.*)00_import_([0-9a-f]{32})");
    reveal_strlit("__wasm_split_00(.*)00_export_([0-9a-f]{32})");
    reveal_strlit("__wasm_split_00");
    reveal_strlit("00_import_");
    reveal_strlit("00_export_");
    reveal_strlit("(.*)");
    reveal_strlit("([0-9a-f]{32})");
    assert(IMPORT_PATTERN@ =~= name_pattern(split_start(), import_middle()));
    assert(EXPORT_PATTERN@ =~= name_pattern(split_start(), export_middle()));
}

/// The names and identifiers of what belongs to split points.
#[derive(Debug)]
pub struct SplitNames {
    /// Those of the imports.
    pub imports: Vec<Option<(String, String)>>,
    /// Those of the exports.
    pub exports: Vec<Option<(String, String)>>,
}

/// `names` are the names and identifiers of what belongs to split points.
pub open spec fn are_split_names(module: &InputModule, names: SplitNames) -> bool {
    &&& found_views(names.imports@) == import_names(module)
    &&& found_views(names.exports@) == export_names(module)
}

/// Finds the names and identifiers of what belongs to split points.
pub fn find_split_names(module: &InputModule) -> (names: SplitNames)
    ensures
        are_split_names(module, names),
{
    proof {
        lemma_patterns();
    }
    let mut imports: Vec<Option<(String, String)>> = Vec::new();
    for i in 0..module.imports.len()
        invariant
            is_name_pattern(IMPORT_PATTERN@, split_start(), import_middle()),
            imports@.len() == i,
            forall|j: int|
                0 <= j < i ==> found_view(#[trigger] imports@[j]) == import_names(module)[j],
    {
        imports.push(find_captures(IMPORT_PATTERN, module.imports[i].name.as_str()));
    }
    let mut exports: Vec<Option<(String, String)>> = Vec::new();
    for i in 0..module.exports.len()
        invariant
            is_name_pattern(EXPORT_PATTERN@, split_start(), export_middle()),
            exports@.len() == i,
            forall|j: int|
                0 <= j < i ==> found_view(#[trigger] exports@[j]) == export_names(module)[j],
    {
        exports.push(find_captures(EXPORT_PATTERN, module.exports[i].name.as_str()));
    }
    assert(found_views(imports@) =~= import_names(module));
    assert(found_views(exports@) =~= export_names(module));
    SplitNames { imports, exports }
}

/// Whether a position is the last one with its name and identifier.
pub open spec fn is_last(names: Seq<Option<NameView>>, k: int) -> bool {
    &&& 0 <= k < names.len()
    &&& names[k] is Some
    &&& forall|j: int| k < j < names.len() ==> #[trigger] names[j] != names[k]
}

/// The last position with a name and identifier below `n`, if there is one.
pub open spec fn last_with(names: Seq<Option<NameView>>, key: NameView, n: int) -> Option<int>
    decreases n,
{
    if n <= 0 {
        None
    } else if names[n - 1] == Some(key) {
        Some(n - 1)
    } else {
        last_with(names, key, n - 1)
    }
}

/// The positions below `n` that are the last ones with their names and identifiers, in order.
pub open spec fn last_positions(names: Seq<Option<NameView>>, n: int) -> Seq<int>
    decreases n,
{
    if n <= 0 {
        Seq::empty()
    } else if is_last(names, n - 1) {
        last_positions(names, n - 1).push(n - 1)
    } else {
        last_positions(names, n - 1)
    }
}

/// The error for the import at a position, if there is one.
pub open spec fn point_error(
    module: &InputModule,
    imports: Seq<Option<NameView>>,
    exports: Seq<Option<NameView>>,
    k: int,
) -> Option<SplitError> {
    match last_with(exports, imports[k]->0, exports.len() as int) {
        None => Some(SplitError::NoExport { import: k as usize }),
        Some(e) => if module.exports@[e].kind != ExternalKind::Func {
            Some(SplitError::ExpectedExportedFunction { export: e as usize })
        } else if !module.imported_func_map@.contains_key(k as usize) {
            Some(SplitError::ExpectedImportedFunction { import: k as usize })
        } else {
            None
        },
    }
}

/// Whether a split point is the one of the import at a position.
pub open spec fn is_point(
    module: &InputModule,
    imports: Seq<Option<NameView>>,
    exports: Seq<Option<NameView>>,
    k: int,
    point: SplitPoint,
) -> bool {
    &&& point_error(module, imports, exports, k) is None
    &&& point.module_name@ == (imports[k]->0).0
    &&& point.import == k
    &&& point.import_func == module.imported_func_map@[k as usize]
    &&& last_with(exports, imports[k]->0, exports.len() as int) == Some(point.export as int)
    &&& point.export_func == module.exports@[point.export as int].index as usize
}

/// The split points are those of the imports at `positions`, in order.
pub open spec fn are_points(
    module: &InputModule,
    imports: Seq<Option<NameView>>,
    exports: Seq<Option<NameView>>,
    positions: Seq<int>,
    points: Seq<SplitPoint>,
) -> bool {
    &&& points.len() == positions.len()
    &&& forall|i: int|
        0 <= i < points.len() ==> is_point(
            module,
            imports,
            exports,
            positions[i],
            #[trigger] points[i],
        )
}

/// Whether `error` is the first one for the imports at `positions`.
pub open spec fn first_point_error(
    module: &InputModule,
    imports: Seq<Option<NameView>>,
    exports: Seq<Option<NameView>>,
    positions: Seq<int>,
    error: SplitError,
) -> bool {
    exists|i: int|
        {
            &&& 0 <= i < positions.len()
            &&& point_error(module, imports, exports, #[trigger] positions[i]) == Some(error)
            &&& forall|j: int|
                0 <= j < i ==> point_error(module, imports, exports, #[trigger] positions[j]) is None
        }
}

/// `points` are the split points by the names and identifiers of imports and exports, or why there are
/// none.
pub open spec fn pairs_up(
    module: &InputModule,
    imports: Seq<Option<NameView>>,
    exports: Seq<Option<NameView>>,
    points: Result<Vec<SplitPoint>, SplitError>,
) -> bool {
    let positions = last_positions(imports, imports.len() as int);
    match points {
        Ok(points) => are_points(module, imports, exports, positions, points@),
        Err(error) => first_point_error(module, imports, exports, positions, error),
    }
}

/// Whether two names and identifiers are the same.
fn same_name(a: &(String, String), b: &(String, String)) -> (same: bool)
    ensures
        same == ((a.0@, a.1@) == (b.0@, b.1@)),
{
    same_text(a.0.as_str(), b.0.as_str()) && same_text(a.1.as_str(), b.1.as_str())
}

/// Finds the last position with a name and identifier below `n`.
fn find_last(names: &Vec<Option<(String, String)>>, key: &(String, String), n: usize) -> (found:
    Option<usize>)
    requires
        n <= names@.len(),
    ensures
        match found {
            Some(k) => k < n && last_with(found_views(names@), (key.0@, key.1@), n as int) == Some(
                k as int,
            ),
            None => last_with(found_views(names@), (key.0@, key.1@), n as int) is None,
        },
{
    let ghost views = found_views(names@);
    let ghost wanted = (key.0@, key.1@);
    let mut k: usize = n;
    while k > 0
        invariant
            k <= n <= names@.len(),
            views == found_views(names@),
            wanted == (key.0@, key.1@),
            last_with(views, wanted, n as int) == last_with(views, wanted, k as int),
        decreases k,
    {
        let at: usize = k - 1;
        assert(views[at as int] == found_view(names@[at as int]));
        if let Some(name) = &names[at] {
            if same_name(name, key) {
                return Some(at);
            }
        }
        k = at;
    }
    None
}

/// The last position with the name and identifier at `k` is `k` if and only if no later one has it.
proof fn lemma_last(names: Seq<Option<NameView>>, k: int, n: int)
    requires
        0 <= k < n <= names.len(),
        names[k] is Some,
    ensures
        last_with(names, names[k]->0, n) is Some,
        k <= last_with(names, names[k]->0, n)->0 < n,
        names[last_with(names, names[k]->0, n)->0] == names[k],
        last_with(names, names[k]->0, n) == Some(k) <==> forall|j: int|
            k < j < n ==> #[trigger] names[j] != names[k],
    decreases n,
{
    if names[n - 1] == names[k] {
        if k < n - 1 {
            assert(names[n - 1] == names[k]);
        }
    } else {
        lemma_last(names, k, n - 1);
        assert((forall|j: int| k < j < n ==> #[trigger] names[j] != names[k]) <==> (forall|j: int|
            k < j < n - 1 ==> #[trigger] names[j] != names[k]));
    }
}

/// Finds the split point of the import at a position.
fn find_point(module: &InputModule, names: &SplitNames, k: usize) -> (point: Result<
    SplitPoint,
    SplitError,
>)
    requires
        names.imports@.len() == module.imports@.len(),
        names.exports@.len() == module.exports@.len(),
        k < names.imports@.len(),
        names.imports@[k as int] is Some,
    ensures
        match point {
            Ok(point) => is_point(
                module,
                found_views(names.imports@),
                found_views(names.exports@),
                k as int,
                point,
            ),
            Err(error) => point_error(
                module,
                found_views(names.imports@),
                found_views(names.exports@),
                k as int,
            ) == Some(error),
        },
{
    assert(found_views(names.imports@)[k as int] == found_view(names.imports@[k as int]));
    match &names.imports[k] {
        Some(key) => {
            let export: ExportId = match find_last(&names.exports, key, names.exports.len()) {
                Some(export) => export,
                None => return Err(SplitError::NoExport { import: k }),
            };
            if module.exports[export].kind != ExternalKind::Func {
                return Err(SplitError::ExpectedExportedFunction { export });
            }
            match module.imported_func_map.get(&k) {
                Some(import_func) => Ok(
                    SplitPoint {
                        module_name: key.0.clone(),
                        import: k,
                        import_func: *import_func,
                        export,
                        export_func: module.exports[export].index as usize,
                    },
                ),
                None => Err(SplitError::ExpectedImportedFunction { import: k }),
            }
        },
        None => Err(SplitError::NoExport { import: k }),
    }
}

/// Finds the split points by the names and identifiers of imports and exports.
///
/// An import and an export with the same name and identifier belong together. If several imports, or
/// several exports, have the same ones, the last one counts.
pub fn pair_split_points(module: &InputModule, names: &SplitNames) -> (points: Result<
    Vec<SplitPoint>,
    SplitError,
>)
    requires
        names.imports@.len() == module.imports@.len(),
        names.exports@.len() == module.exports@.len(),
    ensures
        pairs_up(module, found_views(names.imports@), found_views(names.exports@), points),
{
    let ghost imports = found_views(names.imports@);
    let ghost exports = found_views(names.exports@);
    let ghost positions = last_positions(imports, imports.len() as int);
    let mut points: Vec<SplitPoint> = Vec::new();
    for k in 0..names.imports.len()
        invariant
            names.imports@.len() == module.imports@.len(),
            names.exports@.len() == module.exports@.len(),
            imports == found_views(names.imports@),
            exports == found_views(names.exports@),
            positions == last_positions(imports, imports.len() as int),
            are_points(module, imports, exports, last_positions(imports, k as int), points@),
    {
        let ghost part = last_positions(imports, k as int);
        assert(imports[k as int] == found_view(names.imports@[k as int]));
        if let Some(key) = &names.imports[k] {
            let last = find_last(&names.imports, key, names.imports.len());
            proof {
                lemma_last(imports, k as int, imports.len() as int);
            }
            if last == Some(k) {
                assert(is_last(imports, k as int));
                let ghost more = last_positions(imports, k + 1);
                assert(more == part.push(k as int));
                let ghost before = points@;
                match find_point(module, names, k) {
                    Ok(point) => {
                        points.push(point);
                        proof {
                            assert forall|i: int| 0 <= i < points@.len() implies is_point(
                                module,
                                imports,
                                exports,
                                more[i],
                                #[trigger] points@[i],
                            ) by {
                                if i < before.len() {
                                    assert(is_point(module, imports, exports, part[i], before[i]));
                                    assert(more[i] == part[i]);
                                }
                            }
                        }
                    },
                    Err(error) => {
                        proof {
                            lemma_positions_grow(imports, k + 1, imports.len() as int);
                            assert(positions[before.len() as int] == k);
                            assert forall|j: int| 0 <= j < before.len() implies point_error(
                                module,
                                imports,
                                exports,
                                #[trigger] positions[j],
                            ) is None by {
                                assert(positions[j] == more[j] == part[j]);
                                assert(is_point(module, imports, exports, part[j], before[j]));
                            }
                        }
                        return Err(error);
                    },
                }
            } else {
                assert(!is_last(imports, k as int));
            }
        }
    }
    Ok(points)
}

/// The positions found first stay the first ones.
proof fn lemma_positions_grow(names: Seq<Option<NameView>>, k: int, n: int)
    requires
        0 <= k <= n,
    ensures
        last_positions(names, k).len() <= last_positions(names, n).len(),
        forall|i: int|
            0 <= i < last_positions(names, k).len() ==> #[trigger] last_positions(names, n)[i]
                == last_positions(names, k)[i],
    decreases n - k,
{
    if k < n {
        lemma_positions_grow(names, k, n - 1);
    }
}

/// Finds the places where a program is split.
pub fn get_split_points(module: &InputModule) -> (points: Result<Vec<SplitPoint>, SplitError>)
    ensures
        pairs_up(module, import_names(module), export_names(module), points),
{
    let names = find_split_names(module);
    proof {
        assert(found_views(names.imports@).len() == names.imports@.len());
        assert(found_views(names.exports@).len() == names.exports@.len());
    }
    pair_split_points(module, &names)
}

/// Whether an export belongs to a split point that has no import.
pub open spec fn is_unmatched(
    imports: Seq<Option<NameView>>,
    exports: Seq<Option<NameView>>,
    k: int,
) -> bool {
    is_last(exports, k) && !imports.contains(exports[k])
}

/// Finds the exports that belong to split points that have no import.
pub fn unmatched_exports(names: &SplitNames) -> (unmatched: Vec<ExportId>)
    ensures
        forall|k: ExportId| #[trigger]
            unmatched@.contains(k) <==> is_unmatched(
                found_views(names.imports@),
                found_views(names.exports@),
                k as int,
            ),
        forall|i: int, j: int|
            0 <= i < j < unmatched@.len() ==> #[trigger] unmatched@[i] < #[trigger] unmatched@[j],
{
    let ghost imports = found_views(names.imports@);
    let ghost exports = found_views(names.exports@);
    let mut unmatched: Vec<ExportId> = Vec::new();
    for k in 0..names.exports.len()
        invariant
            imports == found_views(names.imports@),
            exports == found_views(names.exports@),
            forall|j: ExportId| #[trigger]
                unmatched@.contains(j) <==> j < k && is_unmatched(imports, exports, j as int),
            forall|i: int, j: int|
                0 <= i < j < unmatched@.len() ==> #[trigger] unmatched@[i]
                    < #[trigger] unmatched@[j],
    {
        let ghost before = unmatched@;
        assert(exports[k as int] == found_view(names.exports@[k as int]));
        if let Some(key) = &names.exports[k] {
            let last = find_last(&names.exports, key, names.exports.len());
            let import = find_last(&names.imports, key, names.imports.len());
            proof {
                lemma_last(exports, k as int, exports.len() as int);
                lemma_last_with(imports, exports[k as int]->0, imports.len() as int);
            }
            if last == Some(k) && import.is_none() {
                assert(is_unmatched(imports, exports, k as int));
                unmatched.push(k);
                assert forall|j: ExportId| #[trigger] unmatched@.contains(j) <==> before.contains(j)
                    || j == k by {
                    assert(unmatched@[before.len() as int] == k);
                    if before.contains(j) {
                        let i = choose|i: int| 0 <= i < before.len() && before[i] == j;
                        assert(unmatched@[i] == j);
                    }
                }
                assert forall|i: int, j: int| 0 <= i < j < unmatched@.len() implies (
                #[trigger] unmatched@[i]) < #[trigger] unmatched@[j] by {
                    assert(before.contains(unmatched@[i])) by {
                        assert(before[i] == unmatched@[i]);
                    }
                }
            }
        }
    }
    unmatched
}

/// A name and identifier has a last position if and only if it occurs.
proof fn lemma_last_with(names: Seq<Option<NameView>>, key: NameView, n: int)
    requires
        0 <= n <= names.len(),
    ensures
        last_with(names, key, n) is Some <==> names.take(n).contains(Some(key)),
        n == names.len() ==> names.take(n) == names,
    decreases n,
{
    if n > 0 {
        lemma_last_with(names, key, n - 1);
        let part = names.take(n - 1);
        let more = names.take(n);
        if names[n - 1] == Some(key) {
            assert(more[n - 1] == Some(key));
        } else {
            if part.contains(Some(key)) {
                let i = choose|i: int| 0 <= i < part.len() && part[i] == Some(key);
                assert(more[i] == Some(key));
            }
            if more.contains(Some(key)) {
                let i = choose|i: int| 0 <= i < more.len() && more[i] == Some(key);
                assert(part[i] == Some(key));
            }
        }
    }
    if n == names.len() {
        assert(names.take(n) =~= names);
    }
}

} // verus!
