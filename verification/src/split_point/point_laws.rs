//! Where a program is split, told by the names of its imports and exports.
use crate::read::{ExternalKind, InputModule};
use crate::split_point::points::{
    are_points, are_split_names, captures_at, export_middle, export_names, found_views,
    import_middle, import_names, is_last, is_point, is_unmatched, last_positions, last_with,
    lemma_captures, matches_at, name_in, pairs_up, point_error, split_start, NameView, SplitError,
    SplitNames,
};
use crate::split_point::program::{groups_points, is_declared, points_of};
use crate::split_point::roots::SplitPoint;
use vstd::prelude::*;
use vstd::string::*;

verus! {

/// Whether a text is made of a start, the mark of split points, a name on one line, `middle`, 32
/// hexadecimal digits, and an end.
pub open spec fn is_cut(
    text: Seq<char>,
    middle: Seq<char>,
    start: Seq<char>,
    name: Seq<char>,
    id: Seq<char>,
    end: Seq<char>,
) -> bool {
    &&& text == start + "__wasm_split_00"@ + name + middle + id + end
    &&& forall|i: int| 0 <= i < name.len() ==> #[trigger] name[i] != '\n'
    &&& id.len() == 32
    &&& forall|i: int|
        0 <= i < id.len() ==> {
            let c = #[trigger] id[i];
            ('0' <= c && c <= '9') || ('a' <= c && c <= 'f')
        }
}

/// Whether a text says a name and an identifier: those behind the first mark, of which the longest
/// name counts.
pub open spec fn says(text: Seq<char>, middle: Seq<char>, name: Seq<char>, id: Seq<char>) -> bool {
    exists|start: Seq<char>, end: Seq<char>|
        {
            &&& #[trigger] is_cut(text, middle, start, name, id, end)
            &&& forall|s: Seq<char>, n: Seq<char>, d: Seq<char>, e: Seq<char>| #[trigger]
                is_cut(text, middle, s, n, d, e) ==> start.len() < s.len() || (start.len()
                    == s.len() && n.len() <= name.len())
        }
}

/// A match is a way to take a text apart.
proof fn lemma_match_cuts(text: Seq<char>, middle: Seq<char>, i: int, j: int)
    requires
        matches_at(text, split_start(), middle, i, j),
    ensures
        is_cut(
            text,
            middle,
            text.take(i),
            text.subrange(i + split_start().len(), j),
            text.subrange(j + middle.len(), j + middle.len() + 32),
            text.skip(j + middle.len() + 32),
        ),
{
    let mark = split_start();
    let n = mark.len();
    let m = middle.len();
    let start = text.take(i);
    let name = text.subrange(i + n, j);
    let id = text.subrange(j + m, j + m + 32);
    let end = text.skip(j + m + 32);
    assert(text =~= start + text.subrange(i, i + n) + name + text.subrange(j, j + m) + id + end);
}

/// A way to take a text apart is a match.
proof fn lemma_cut_matches(
    text: Seq<char>,
    middle: Seq<char>,
    start: Seq<char>,
    name: Seq<char>,
    id: Seq<char>,
    end: Seq<char>,
)
    requires
        is_cut(text, middle, start, name, id, end),
    ensures
        matches_at(
            text,
            split_start(),
            middle,
            start.len() as int,
            (start.len() + split_start().len() + name.len()) as int,
        ),
        ({
            let n = split_start().len();
            let i = start.len() as int;
            let j = (start.len() + n + name.len()) as int;
            &&& name == text.subrange(i + n, j)
            &&& id == text.subrange(j + middle.len(), j + middle.len() + 32)
        }),
{
    let mark = split_start();
    let n = mark.len();
    let m = middle.len();
    let i = start.len() as int;
    let j = (start.len() + n + name.len()) as int;
    assert(text.subrange(i, i + n) =~= mark);
    assert(text.subrange(i + n, j) =~= name);
    assert(text.subrange(j, j + m) =~= middle);
    assert(text.subrange(j + m, j + m + 32) =~= id);
    assert forall|k: int| i + n <= k < j implies #[trigger] text[k] != '\n' by {
        assert(text[k] == name[k - (i + n)]);
    }
    assert forall|k: int| j + m <= k < j + m + 32 implies crate::split_point::points::is_hex(
        #[trigger] text[k],
    ) by {
        assert(text[k] == id[k - (j + m)]);
    }
}

/// What a text says is what is found in it.
proof fn lemma_says(text: Seq<char>, middle: Seq<char>, name: Seq<char>, id: Seq<char>)
    ensures
        says(text, middle, name, id) <==> name_in(text, split_start(), middle) == Some((name, id)),
{
    let mark = split_start();
    let n = mark.len();
    let m = middle.len();
    if says(text, middle, name, id) {
        let (start, end) = choose|start: Seq<char>, end: Seq<char>|
            {
                &&& #[trigger] is_cut(text, middle, start, name, id, end)
                &&& forall|s: Seq<char>, n: Seq<char>, d: Seq<char>, e: Seq<char>| #[trigger]
                    is_cut(text, middle, s, n, d, e) ==> start.len() < s.len() || (start.len()
                        == s.len() && n.len() <= name.len())
            };
        lemma_cut_matches(text, middle, start, name, id, end);
        let i = start.len() as int;
        let j = (start.len() + n + name.len()) as int;
        lemma_captures(text, mark, middle);
        let (a, b) = choose|a: int, b: int| #[trigger] captures_at(text, mark, middle, a, b);
        lemma_match_cuts(text, middle, a, b);
        assert(a == i && b == j);
    }
    if name_in(text, mark, middle) == Some((name, id)) {
        lemma_captures(text, mark, middle);
        let (i, j) = choose|i: int, j: int| #[trigger] captures_at(text, mark, middle, i, j);
        lemma_match_cuts(text, middle, i, j);
        let start = text.take(i);
        let end = text.skip(j + m + 32);
        assert(is_cut(text, middle, start, name, id, end));
        assert forall|s: Seq<char>, w: Seq<char>, d: Seq<char>, e: Seq<char>| #[trigger]
            is_cut(text, middle, s, w, d, e) implies start.len() < s.len() || (start.len()
            == s.len() && w.len() <= name.len()) by {
            lemma_cut_matches(text, middle, s, w, d, e);
            assert(matches_at(
                text,
                mark,
                middle,
                s.len() as int,
                (s.len() + n + w.len()) as int,
            ));
        }
    }
}

/// A text that has a mark, a name and an identifier in it says some, and others say none.
pub proof fn lemma_says_something(text: Seq<char>, middle: Seq<char>)
    ensures
        (exists|name: Seq<char>, id: Seq<char>| #[trigger] says(text, middle, name, id)) <==> exists|
            start: Seq<char>,
            name: Seq<char>,
            id: Seq<char>,
            end: Seq<char>,
        | #[trigger] is_cut(text, middle, start, name, id, end),
        forall|name: Seq<char>, id: Seq<char>, n: Seq<char>, d: Seq<char>| #[trigger]
            says(text, middle, name, id) && #[trigger] says(text, middle, n, d) ==> name == n && id
                == d,
{
    if exists|start: Seq<char>, name: Seq<char>, id: Seq<char>, end: Seq<char>| #[trigger]
        is_cut(text, middle, start, name, id, end) {
        let (start, name, id, end) = choose|
            start: Seq<char>,
            name: Seq<char>,
            id: Seq<char>,
            end: Seq<char>,
        | #[trigger] is_cut(text, middle, start, name, id, end);
        lemma_cut_matches(text, middle, start, name, id, end);
        let found = name_in(text, split_start(), middle)->0;
        lemma_says(text, middle, found.0, found.1);
        assert(says(text, middle, found.0, found.1));
    }
    assert forall|name: Seq<char>, id: Seq<char>, n: Seq<char>, d: Seq<char>| #[trigger]
        says(text, middle, name, id) && #[trigger] says(text, middle, n, d) implies name == n && id
        == d by {
        lemma_says(text, middle, name, id);
        lemma_says(text, middle, n, d);
    }
}

/// Whether an import says a name and an identifier.
pub open spec fn import_says(module: &InputModule, k: int, name: Seq<char>, id: Seq<char>) -> bool {
    0 <= k < module.imports@.len() && says(module.imports@[k].name@, "00_import_"@, name, id)
}

/// Whether an export says a name and an identifier.
pub open spec fn export_says(module: &InputModule, k: int, name: Seq<char>, id: Seq<char>) -> bool {
    0 <= k < module.exports@.len() && says(module.exports@[k].name@, "00_export_"@, name, id)
}

/// Whether an import is the last one that says a name and an identifier.
pub open spec fn is_last_import(
    module: &InputModule,
    k: int,
    name: Seq<char>,
    id: Seq<char>,
) -> bool {
    import_says(module, k, name, id) && forall|j: int| #[trigger]
        import_says(module, j, name, id) ==> j <= k
}

/// Whether an export is the last one that says a name and an identifier.
pub open spec fn is_last_export(
    module: &InputModule,
    k: int,
    name: Seq<char>,
    id: Seq<char>,
) -> bool {
    export_says(module, k, name, id) && forall|j: int| #[trigger]
        export_says(module, j, name, id) ==> j <= k
}

/// What imports and exports say is what is found in their names.
proof fn lemma_found(module: &InputModule, k: int, name: Seq<char>, id: Seq<char>)
    ensures
        import_says(module, k, name, id) <==> 0 <= k < module.imports@.len() && import_names(
            module,
        )[k] == Some((name, id)),
        export_says(module, k, name, id) <==> 0 <= k < module.exports@.len() && export_names(
            module,
        )[k] == Some((name, id)),
{
    if 0 <= k < module.imports@.len() {
        lemma_says(module.imports@[k].name@, import_middle(), name, id);
    }
    if 0 <= k < module.exports@.len() {
        lemma_says(module.exports@[k].name@, export_middle(), name, id);
    }
}

/// Which imports are the last ones.
proof fn lemma_last_import(module: &InputModule, k: int, name: Seq<char>, id: Seq<char>)
    ensures
        is_last_import(module, k, name, id) <==> is_last(import_names(module), k) && import_names(
            module,
        )[k] == Some((name, id)),
{
    let names = import_names(module);
    assert forall|j: int| #[trigger] import_says(module, j, name, id) <==> 0 <= j < names.len()
        && names[j] == Some((name, id)) by {
        lemma_found(module, j, name, id);
    }
    if is_last_import(module, k, name, id) {
        assert forall|j: int| k < j < names.len() implies #[trigger] names[j] != names[k] by {
            assert(import_says(module, j, name, id) <==> names[j] == Some((name, id)));
        }
    }
    if is_last(names, k) && names[k] == Some((name, id)) {
        assert forall|j: int| #[trigger] import_says(module, j, name, id) implies j <= k by {
            if k < j {
                assert(names[j] != names[k]);
            }
        }
    }
}

/// The last position with a key.
proof fn lemma_last_with_key(names: Seq<Option<NameView>>, key: NameView, n: int)
    requires
        0 <= n <= names.len(),
    ensures
        match last_with(names, key, n) {
            Some(e) => 0 <= e < n && names[e] == Some(key) && forall|j: int|
                e < j < n ==> #[trigger] names[j] != Some(key),
            None => forall|j: int| 0 <= j < n ==> #[trigger] names[j] != Some(key),
        },
    decreases n,
{
    if n > 0 && names[n - 1] != Some(key) {
        lemma_last_with_key(names, key, n - 1);
    }
}

/// Which exports are the last ones.
proof fn lemma_last_export(module: &InputModule, e: int, name: Seq<char>, id: Seq<char>)
    ensures
        is_last_export(module, e, name, id) <==> last_with(
            export_names(module),
            (name, id),
            export_names(module).len() as int,
        ) == Some(e),
        last_with(export_names(module), (name, id), export_names(module).len() as int) is None
            <==> forall|j: int| !#[trigger] export_says(module, j, name, id),
        is_last_export(module, e, name, id) <==> is_last(export_names(module), e) && export_names(
            module,
        )[e] == Some((name, id)),
{
    let names = export_names(module);
    let n = names.len() as int;
    lemma_last_with_key(names, (name, id), n);
    assert forall|j: int| #[trigger] export_says(module, j, name, id) <==> 0 <= j < names.len()
        && names[j] == Some((name, id)) by {
        lemma_found(module, j, name, id);
    }
    match last_with(names, (name, id), n) {
        Some(x) => {
            assert(export_says(module, x, name, id));
            assert forall|j: int| #[trigger] export_says(module, j, name, id) implies j <= x by {
                if x < j {
                    assert(names[j] != Some((name, id)));
                }
            }
        },
        None => {
            assert forall|j: int| !#[trigger] export_says(module, j, name, id) by {}
        },
    }
    if is_last_export(module, e, name, id) {
        assert forall|j: int| e < j < names.len() implies #[trigger] names[j] != names[e] by {
            assert(export_says(module, j, name, id) <==> names[j] == Some((name, id)));
        }
    }
    if is_last(names, e) && names[e] == Some((name, id)) {
        assert forall|j: int| #[trigger] export_says(module, j, name, id) implies j <= e by {
            if e < j {
                assert(names[j] != names[e]);
            }
        }
    }
}

/// Which positions are the last ones with their names and identifiers.
proof fn lemma_last_positions(names: Seq<Option<NameView>>, n: int)
    requires
        0 <= n <= names.len(),
    ensures
        forall|k: int| #[trigger]
            last_positions(names, n).contains(k) <==> 0 <= k < n && is_last(names, k),
        forall|i: int, j: int|
            0 <= i < j < last_positions(names, n).len() ==> #[trigger] last_positions(names, n)[i]
                < #[trigger] last_positions(names, n)[j],
    decreases n,
{
    if n > 0 {
        lemma_last_positions(names, n - 1);
        let before = last_positions(names, n - 1);
        let now = last_positions(names, n);
        assert forall|i: int| 0 <= i < before.len() implies #[trigger] before[i] < n - 1 by {
            assert(before.contains(before[i]));
        }
        if is_last(names, n - 1) {
            assert forall|k: int| #[trigger] now.contains(k) <==> before.contains(k) || k == n
                - 1 by {
                if before.contains(k) {
                    let i = choose|i: int| 0 <= i < before.len() && before[i] == k;
                    assert(now[i] == k);
                }
                assert(now[before.len() as int] == n - 1);
            }
        }
    }
}

/// Whether a split point is made of an import and an export that say the same name and identifier,
/// and of the functions that they are.
pub open spec fn is_pair(
    module: &InputModule,
    point: SplitPoint,
    name: Seq<char>,
    id: Seq<char>,
) -> bool {
    &&& is_last_import(module, point.import as int, name, id)
    &&& is_last_export(module, point.export as int, name, id)
    &&& module.exports@[point.export as int].kind == ExternalKind::Func
    &&& point.export_func == module.exports@[point.export as int].index
    &&& module.imported_func_map@.contains_key(point.import)
    &&& point.import_func == module.imported_func_map@[point.import]
    &&& point.module_name@ == name
}

/// For each name and identifier that an import says there is one split point, and there are no
/// others. Of several imports or exports that say the same ones, the last one counts.
pub proof fn lemma_points_found(
    module: &InputModule,
    found: Result<Vec<SplitPoint>, SplitError>,
    points: Seq<SplitPoint>,
    p: int,
    name: Seq<char>,
    id: Seq<char>,
)
    requires
        pairs_up(module, import_names(module), export_names(module), found),
        found matches Ok(list) && list@ == points,
    ensures
        (exists|k: int| #[trigger] import_says(module, k, name, id)) ==> exists|q: int|
            0 <= q < points.len() && is_pair(module, #[trigger] points[q], name, id),
        0 <= p < points.len() ==> exists|n: Seq<char>, d: Seq<char>| #[trigger]
            is_pair(module, points[p], n, d),
        forall|i: int, j: int|
            0 <= i < j < points.len() ==> (#[trigger] points[i]).import < (
            #[trigger] points[j]).import,
{
    let imports = import_names(module);
    let exports = export_names(module);
    let n = imports.len() as int;
    let positions = last_positions(imports, n);
    lemma_last_positions(imports, n);
    assert(are_points(module, imports, exports, positions, points));
    assert forall|q: int| 0 <= q < points.len() implies (#[trigger] points[q]).import
        == positions[q] && is_pair(
        module,
        points[q],
        (imports[positions[q]]->0).0,
        (imports[positions[q]]->0).1,
    ) by {
        let k = positions[q];
        assert(positions.contains(k));
        assert(is_point(module, imports, exports, k, points[q]));
        let key = imports[k]->0;
        lemma_last_import(module, k, key.0, key.1);
        lemma_last_export(module, points[q].export as int, key.0, key.1);
        lemma_last_with_key(exports, key, exports.len() as int);
        assert((key.0, key.1) == key);
    }
    assert forall|i: int, j: int| 0 <= i < j < points.len() implies (#[trigger] points[i]).import
        < (#[trigger] points[j]).import by {
        assert(positions[i] < positions[j]);
    }
    if exists|k: int| #[trigger] import_says(module, k, name, id) {
        let k = choose|k: int| #[trigger] import_says(module, k, name, id);
        lemma_found(module, k, name, id);
        lemma_last_with_key(imports, (name, id), n);
        let last = last_with(imports, (name, id), n)->0;
        assert(imports[k] == Some((name, id)));
        assert(is_last(imports, last));
        assert(positions.contains(last));
        let q = choose|q: int| 0 <= q < positions.len() && positions[q] == last;
        assert(is_pair(module, points[q], name, id));
    }
    if 0 <= p < points.len() {
        assert(is_pair(
            module,
            points[p],
            (imports[positions[p]]->0).0,
            (imports[positions[p]]->0).1,
        ));
    }
}

/// Whether no export says a name and an identifier.
pub open spec fn has_no_export(module: &InputModule, name: Seq<char>, id: Seq<char>) -> bool {
    forall|e: int| !#[trigger] export_says(module, e, name, id)
}

/// If there are no split points, then an import lacks an export, an export is not a function, or an
/// import is none.
pub proof fn lemma_points_refused(
    module: &InputModule,
    found: Result<Vec<SplitPoint>, SplitError>,
    error: SplitError,
)
    requires
        pairs_up(module, import_names(module), export_names(module), found),
        found matches Err(e) && e == error,
    ensures
        match error {
            SplitError::NoExport { import } => exists|name: Seq<char>, id: Seq<char>| #[trigger]
                is_last_import(module, import as int, name, id) && has_no_export(module, name, id),
            SplitError::ExpectedExportedFunction { export } => module.exports@[export as int].kind
                != ExternalKind::Func && exists|import: int, name: Seq<char>, id: Seq<char>|
                {
                    &&& #[trigger] is_last_import(module, import, name, id)
                    &&& is_last_export(module, export as int, name, id)
                },
            SplitError::ExpectedImportedFunction { import } =>
                !module.imported_func_map@.contains_key(import) && exists|
                export: int,
                name: Seq<char>,
                id: Seq<char>,
            |
                {
                    &&& is_last_import(module, import as int, name, id)
                    &&& #[trigger] is_last_export(module, export, name, id)
                    &&& module.exports@[export].kind == ExternalKind::Func
                },
        },
{
    let imports = import_names(module);
    let exports = export_names(module);
    let n = imports.len() as int;
    let positions = last_positions(imports, n);
    lemma_last_positions(imports, n);
    let i = choose|i: int|
        {
            &&& 0 <= i < positions.len()
            &&& point_error(module, imports, exports, #[trigger] positions[i]) == Some(error)
            &&& forall|j: int|
                0 <= j < i ==> point_error(module, imports, exports, #[trigger] positions[j]) is None
        };
    let k = positions[i];
    assert(positions.contains(k));
    assert(module.imports.len() == module.imports@.len());
    assert(module.exports.len() == module.exports@.len());
    let key = imports[k]->0;
    assert((key.0, key.1) == key);
    lemma_last_import(module, k, key.0, key.1);
    lemma_last_with_key(exports, key, exports.len() as int);
    match last_with(exports, key, exports.len() as int) {
        None => {
            lemma_last_export(module, 0, key.0, key.1);
            assert(k as usize == k);
            assert(error == SplitError::NoExport { import: k as usize });
            assert(has_no_export(module, key.0, key.1));
            assert(is_last_import(module, (k as usize) as int, key.0, key.1));
            let import = error->NoExport_import;
            assert(import as int == k);
            assert(is_last_import(module, import as int, key.0, key.1) && has_no_export(
                module,
                key.0,
                key.1,
            ));
        },
        Some(e) => {
            lemma_last_export(module, e, key.0, key.1);
            assert(k as usize == k && e as usize == e);
            assert(!(error is NoExport));
            assert(is_last_import(module, k, key.0, key.1));
            assert(is_last_export(module, e, key.0, key.1));
        },
    }
}

/// The exports without an import are those that say, last of all, a name and an identifier that no
/// import says.
pub proof fn lemma_unmatched(module: &InputModule, names: SplitNames, k: int)
    requires
        are_split_names(module, names),
    ensures
        is_unmatched(found_views(names.imports@), found_views(names.exports@), k) <==> exists|
            name: Seq<char>,
            id: Seq<char>,
        |
            #[trigger] is_last_export(module, k, name, id) && forall|j: int| !#[trigger]
                import_says(module, j, name, id),
{
    let imports = import_names(module);
    let exports = export_names(module);
    if is_unmatched(imports, exports, k) {
        let key = exports[k]->0;
        lemma_last_export(module, k, key.0, key.1);
        assert((key.0, key.1) == key);
        assert forall|j: int| !#[trigger] import_says(module, j, key.0, key.1) by {
            lemma_found(module, j, key.0, key.1);
            if import_says(module, j, key.0, key.1) {
                assert(imports[j] == exports[k]);
            }
        }
        assert(is_last_export(module, k, key.0, key.1));
    }
    if exists|name: Seq<char>, id: Seq<char>| #[trigger]
        is_last_export(module, k, name, id) && forall|j: int| !#[trigger]
            import_says(module, j, name, id) {
        let (name, id) = choose|name: Seq<char>, id: Seq<char>| #[trigger]
            is_last_export(module, k, name, id) && forall|j: int| !#[trigger]
                import_says(module, j, name, id);
        lemma_last_export(module, k, name, id);
        if imports.contains(exports[k]) {
            let j = choose|j: int| 0 <= j < imports.len() && imports[j] == exports[k];
            lemma_found(module, j, name, id);
            assert(import_says(module, j, name, id));
        }
    }
}

/// Whether `group` are the split points with a name, and `from` their positions, in order.
pub open spec fn are_from(
    points: Seq<SplitPoint>,
    name: Seq<char>,
    group: Seq<&SplitPoint>,
    from: Seq<int>,
) -> bool {
    &&& from.len() == group.len()
    &&& forall|j: int|
        0 <= j < from.len() ==> 0 <= #[trigger] from[j] < points.len() && *group[j]
            == points[from[j]] && points[from[j]].module_name@ == name
    &&& forall|a: int, b: int| 0 <= a < b < from.len() ==> #[trigger] from[a] < #[trigger] from[b]
    &&& forall|k: int|
        0 <= k < points.len() && (#[trigger] points[k]).module_name@ == name ==> from.contains(k)
}

/// Split points are grouped by the names of their modules: each is in the group with its name, in
/// the order of the split points, and a group holds no others.
pub proof fn lemma_points_grouped(
    groups: Seq<(String, Vec<&SplitPoint>)>,
    points: Seq<SplitPoint>,
    k: int,
    g: int,
)
    requires
        groups_points(groups, points),
    ensures
        0 <= k < points.len() ==> exists|i: int, j: int|
            0 <= i < groups.len() && 0 <= j < groups[i].1@.len() && groups[i].0@
                == points[k].module_name@ && *(#[trigger] groups[i].1@[j]) == points[k],
        0 <= g < groups.len() ==> {
            &&& groups[g].1@.len() >= 1
            &&& exists|from: Seq<int>| #[trigger] are_from(points, groups[g].0@, groups[g].1@, from)
        },
        forall|i: int, j: int|
            0 <= i < j < groups.len() ==> (#[trigger] groups[i]).0@ != (#[trigger] groups[j]).0@,
{
    if 0 <= k < points.len() {
        let name = points[k].module_name@;
        assert(is_declared(points, name));
        let i = choose|i: int| 0 <= i < groups.len() && (#[trigger] groups[i]).0@ == name;
        let from = lemma_filtered(points, name);
        assert(from.contains(k));
        let j = choose|j: int| 0 <= j < from.len() && from[j] == k;
        assert(groups[i].1@.unref() == points_of(points, name));
        assert(groups[i].1@.unref()[j] == points[k]);
        assert(*groups[i].1@[j] == points[k]);
    }
    if 0 <= g < groups.len() {
        let name = groups[g].0@;
        let from = lemma_filtered(points, name);
        assert(groups[g].1@.unref() == points_of(points, name));
        assert forall|j: int| 0 <= j < from.len() implies *groups[g].1@[j]
            == points[#[trigger] from[j]] by {
            assert(groups[g].1@.unref()[j] == points[from[j]]);
        }
        assert(are_from(points, name, groups[g].1@, from));
        assert(is_declared(points, name));
        let i = choose|i: int| 0 <= i < points.len() && (#[trigger] points[i]).module_name@ == name;
        assert(from.contains(i));
    }
}

/// Where the split points with a name are.
proof fn lemma_filtered(points: Seq<SplitPoint>, name: Seq<char>) -> (from: Seq<int>)
    ensures
        from.len() == points_of(points, name).len(),
        forall|j: int|
            0 <= j < from.len() ==> 0 <= #[trigger] from[j] < points.len() && points_of(
                points,
                name,
            )[j] == points[from[j]] && points[from[j]].module_name@ == name,
        forall|a: int, b: int| 0 <= a < b < from.len() ==> #[trigger] from[a] < #[trigger] from[b],
        forall|k: int|
            0 <= k < points.len() && (#[trigger] points[k]).module_name@ == name ==> from.contains(
                k,
            ),
    decreases points.len(),
{
    reveal(Seq::filter);
    if points.len() == 0 {
        Seq::empty()
    } else {
        let rest = points.drop_last();
        let last = points.len() - 1;
        let before = lemma_filtered(rest, name);
        assert forall|k: int| 0 <= k < last implies #[trigger] points[k] == rest[k] by {}
        if points[last].module_name@ == name {
            let from = before.push(last);
            assert forall|k: int|
                0 <= k < points.len() && (
                #[trigger] points[k]).module_name@ == name implies from.contains(k) by {
                if k < last {
                    assert(rest[k].module_name@ == name);
                    let j = choose|j: int| 0 <= j < before.len() && before[j] == k;
                    assert(from[j] == k);
                } else {
                    assert(from[before.len() as int] == k);
                }
            }
            from
        } else {
            assert forall|k: int|
                0 <= k < points.len() && (
                #[trigger] points[k]).module_name@ == name implies before.contains(k) by {
                assert(rest[k].module_name@ == name);
            }
            before
        }
    }
}

} // verus!
