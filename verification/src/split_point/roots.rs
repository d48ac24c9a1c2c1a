//! What each module starts from.
use crate::dep_graph::{DepGraph, DepNode};
use crate::keyed::KeySet;
use crate::order::same_text;
use crate::read::{Export, ExportId, ExternalKind, Import, ImportId, InputFuncId, InputModule};
use vstd::prelude::*;

verus! {

/// A place where the program calls into a module that is loaded later.
#[derive(Debug, PartialEq, Eq)]
pub struct SplitPoint {
    /// The declared module.
    pub module_name: String,
    /// The import that is called.
    pub import: ImportId,
    /// The function index of the import.
    pub import_func: InputFuncId,
    /// The export that implements it.
    pub export: ExportId,
    /// The function index of the export.
    pub export_func: InputFuncId,
}

impl Clone for SplitPoint {
    fn clone(&self) -> (copy: Self)
        ensures
            copy == *self,
    {
        SplitPoint {
            module_name: self.module_name.clone(),
            import: self.import,
            import_func: self.import_func,
            export: self.export,
            export_func: self.export_func,
        }
    }
}

/// The part of a module with the given kind and index.
pub open spec fn node_of(kind: ExternalKind, index: usize) -> DepNode {
    match kind {
        ExternalKind::Func | ExternalKind::FuncExact => DepNode::Function(index),
        ExternalKind::Table => DepNode::Table(index),
        ExternalKind::Memory => DepNode::Memory(index),
        ExternalKind::Global => DepNode::Global(index),
        ExternalKind::Tag => DepNode::Tag(index),
    }
}

/// The part of a module with the given kind and index.
fn node(kind: ExternalKind, index: usize) -> (node: DepNode)
    ensures
        node == node_of(kind, index),
{
    match kind {
        ExternalKind::Func | ExternalKind::FuncExact => DepNode::Function(index),
        ExternalKind::Table => DepNode::Table(index),
        ExternalKind::Memory => DepNode::Memory(index),
        ExternalKind::Global => DepNode::Global(index),
        ExternalKind::Tag => DepNode::Tag(index),
    }
}

/// The first `count` parts of a kind.
pub open spec fn first_nodes(kind: ExternalKind, count: usize) -> Set<DepNode> {
    Set::new(|n: DepNode| n == node_of(kind, n.index()) && n.index() < count)
}

/// Adds the first `count` parts of a kind.
fn add_first(roots: &mut KeySet<DepNode>, kind: ExternalKind, count: usize)
    ensures
        final(roots)@ == old(roots)@.union(first_nodes(kind, count)),
{
    for i in 0..count
        invariant
            roots@ =~= old(roots)@.union(first_nodes(kind, i)),
    {
        roots.insert(node(kind, i));
        assert(first_nodes(kind, (i + 1) as usize) =~= first_nodes(kind, i).insert(
            node_of(kind, i),
        ));
    }
}

/// Whether an export only marks a split program.
pub open spec fn is_marker(module: &InputModule, export: Export) -> bool {
    export.kind == ExternalKind::Global && module.reloc_info.split_marker_globals@.contains(
        export.index as usize,
    )
}

/// The parts of a module that are exported, other than markers.
pub open spec fn exported_nodes(module: &InputModule) -> Set<DepNode> {
    Set::new(
        |n: DepNode|
            exists|i: int|
                0 <= i < module.exports@.len() && !is_marker(module, #[trigger] module.exports@[i])
                    && n == node_of(module.exports@[i].kind, module.exports@[i].index as usize),
    )
}

/// The functions in the indirect table that must stay visible.
pub open spec fn indirect_nodes(module: &InputModule) -> Set<DepNode> {
    Set::new(
        |n: DepNode|
            n == DepNode::Function(n.index()) && module.reloc_info.visible_indirects@.contains(
                n.index(),
            ),
    )
}

/// The functions of split points, on both sides.
pub open spec fn split_nodes(split_points: Seq<SplitPoint>) -> Set<DepNode> {
    Set::new(
        |n: DepNode|
            exists|i: int|
                0 <= i < split_points.len() && (n == DepNode::Function(
                    (#[trigger] split_points[i]).export_func,
                ) || n == DepNode::Function(split_points[i].import_func)),
    )
}

/// What the main module starts from: all that the host sees of the module, and what may be called
/// indirectly, but not what belongs to split points.
pub open spec fn main_roots(module: &InputModule, split_points: Seq<SplitPoint>) -> Set<DepNode> {
    let start: Set<DepNode> = match module.start {
        Some(id) => set![DepNode::Function(id)],
        None => Set::empty(),
    };
    start.union(first_nodes(ExternalKind::Func, module.imported_funcs.len())).union(
        first_nodes(ExternalKind::Global, module.imported_globals_num),
    ).union(first_nodes(ExternalKind::Table, module.imported_tables_num)).union(
        first_nodes(ExternalKind::Tag, module.imported_tags_num),
    ).union(first_nodes(ExternalKind::Memory, module.imported_memories_num)).insert(
        DepNode::Memory(0),
    ).union(exported_nodes(module)).union(indirect_nodes(module)).difference(
        split_nodes(split_points),
    )
}

/// Adds all exports other than markers.
fn add_exports(roots: &mut KeySet<DepNode>, module: &InputModule)
    ensures
        final(roots)@ == old(roots)@.union(exported_nodes(module)),
{
    for i in 0..module.exports.len()
        invariant
            forall|n: DepNode| #[trigger]
                roots@.contains(n) <==> old(roots)@.contains(n) || exists|j: int|
                    0 <= j < i && !is_marker(module, #[trigger] module.exports@[j]) && n == node_of(
                        module.exports@[j].kind,
                        module.exports@[j].index as usize,
                    ),
    {
        let export = &module.exports[i];
        let index: usize = export.index as usize;
        let marker = export.kind == ExternalKind::Global
            && module.reloc_info.split_marker_globals.contains(&index);
        if !marker {
            roots.insert(node(export.kind, index));
        }
    }
    assert(roots@ =~= old(roots)@.union(exported_nodes(module)));
}

/// Adds the functions in the indirect table that must stay visible.
fn add_indirects(roots: &mut KeySet<DepNode>, module: &InputModule)
    ensures
        final(roots)@ == old(roots)@.union(indirect_nodes(module)),
{
    let visible = module.reloc_info.visible_indirects.to_vec();
    for i in 0..visible.len()
        invariant
            visible@.to_set() == module.reloc_info.visible_indirects@,
            forall|n: DepNode| #[trigger]
                roots@.contains(n) <==> old(roots)@.contains(n) || exists|j: int|
                    0 <= j < i && n == DepNode::Function(#[trigger] visible@[j]),
    {
        roots.insert(DepNode::Function(visible[i]));
    }
    proof {
        assert forall|n: DepNode| roots@.contains(n) <==> old(roots)@.union(
            indirect_nodes(module),
        ).contains(n) by {
            if indirect_nodes(module).contains(n) {
                assert(visible@.to_set().contains(n.index()));
                let j = choose|j: int| 0 <= j < visible@.len() && visible@[j] == n.index();
                assert(n == DepNode::Function(visible@[j]));
            }
            if exists|j: int|
                0 <= j < visible@.len() && n == DepNode::Function(#[trigger] visible@[j]) {
                let j = choose|j: int|
                    0 <= j < visible@.len() && n == DepNode::Function(#[trigger] visible@[j]);
                assert(visible@.to_set().contains(visible@[j]));
            }
        }
        assert(roots@ =~= old(roots)@.union(indirect_nodes(module)));
    }
}

/// Takes out what belongs to split points.
fn remove_split_points(roots: &mut KeySet<DepNode>, split_points: &[SplitPoint])
    ensures
        final(roots)@ == old(roots)@.difference(split_nodes(split_points@)),
{
    for i in 0..split_points.len()
        invariant
            forall|n: DepNode| #[trigger]
                roots@.contains(n) <==> old(roots)@.contains(n) && !exists|j: int|
                    0 <= j < i && (n == DepNode::Function(
                        (#[trigger] split_points@[j]).export_func,
                    ) || n == DepNode::Function(split_points@[j].import_func)),
    {
        let split_point = &split_points[i];
        roots.remove(&DepNode::Function(split_point.export_func));
        roots.remove(&DepNode::Function(split_point.import_func));
    }
    assert(roots@ =~= old(roots)@.difference(split_nodes(split_points@)));
}

/// Finds what the main module starts from.
pub fn get_main_module_roots(module: &InputModule, split_points: &[SplitPoint]) -> (roots: KeySet<
    DepNode,
>)
    ensures
        roots@ == main_roots(module, split_points@),
{
    let mut roots: KeySet<DepNode> = KeySet::new();
    if let Some(id) = module.start {
        roots.insert(DepNode::Function(id));
        assert(roots@ =~= set![DepNode::Function(id)]);
    }
    add_first(&mut roots, ExternalKind::Func, module.imported_funcs.len());
    add_first(&mut roots, ExternalKind::Global, module.imported_globals_num);
    add_first(&mut roots, ExternalKind::Table, module.imported_tables_num);
    add_first(&mut roots, ExternalKind::Tag, module.imported_tags_num);
    add_first(&mut roots, ExternalKind::Memory, module.imported_memories_num);
    roots.insert(module.main_memory());
    add_exports(&mut roots, module);
    add_indirects(&mut roots, module);
    remove_split_points(&mut roots, split_points);
    roots
}

/// Whether an import stands for a cast that the host's bindings are still to describe.
pub open spec fn is_describe_cast(import: Import) -> bool {
    &&& import.module@ == "__wbindgen_placeholder__"@
    &&& import.ty == ExternalKind::Func
    &&& import.name@ == "__wbindgen_describe_cast"@
}

/// Every import of a cast description has a function index.
pub open spec fn casts_have_index(module: &InputModule) -> bool {
    forall|i: int|
        0 <= i < module.imports@.len() && is_describe_cast(#[trigger] module.imports@[i])
            ==> module.imported_func_map@.contains_key(i as usize)
}

/// The functions whose callers must be in the main module.
pub open spec fn cast_nodes(module: &InputModule) -> Set<DepNode> {
    Set::new(
        |n: DepNode|
            exists|i: int|
                0 <= i < module.imports@.len() && is_describe_cast(#[trigger] module.imports@[i])
                    && n == DepNode::Function(module.imported_func_map@[i as usize]),
    )
}

/// Finds the functions whose callers must be in the main module.
///
/// The host's bindings replace the callers of a cast description by imports, which only the main
/// module can have.
pub fn wbg_rooting_funs(_dep_graph: &DepGraph, module: &InputModule) -> (funs: KeySet<DepNode>)
    requires
        casts_have_index(module),
    ensures
        funs@ == cast_nodes(module),
{
    let mut users_must_be_in_main: KeySet<DepNode> = KeySet::new();
    for import_id in 0..module.imports.len()
        invariant
            casts_have_index(module),
            forall|n: DepNode| #[trigger]
                users_must_be_in_main@.contains(n) <==> exists|i: int|
                    0 <= i < import_id && is_describe_cast(#[trigger] module.imports@[i]) && n
                        == DepNode::Function(module.imported_func_map@[i as usize]),
    {
        let import = &module.imports[import_id];
        if same_text(import.module.as_str(), "__wbindgen_placeholder__") && import.ty
            == ExternalKind::Func && same_text(import.name.as_str(), "__wbindgen_describe_cast") {
            assert(is_describe_cast(module.imports@[import_id as int]));
            if let Some(func_id) = module.imported_func_map.get(&import_id) {
                users_must_be_in_main.insert(DepNode::Function(*func_id));
            }
        }
    }
    assert(users_must_be_in_main@ =~= cast_nodes(module));
    users_must_be_in_main
}

/// The exported functions of split points.
pub open spec fn export_nodes(split_points: Seq<SplitPoint>) -> Set<DepNode> {
    Set::new(
        |n: DepNode|
            exists|i: int|
                0 <= i < split_points.len() && n == DepNode::Function(
                    (#[trigger] split_points[i]).export_func,
                ),
    )
}

/// Finds what a declared module starts from.
pub fn get_split_roots(splits_in_module: &[&SplitPoint]) -> (roots: KeySet<DepNode>)
    ensures
        roots@ == export_nodes(splits_in_module@.unref()),
{
    let mut roots: KeySet<DepNode> = KeySet::new();
    let ghost points = splits_in_module@.unref();
    for k in 0..splits_in_module.len()
        invariant
            points == splits_in_module@.unref(),
            forall|n: DepNode| #[trigger]
                roots@.contains(n) <==> exists|i: int|
                    0 <= i < k && n == DepNode::Function((#[trigger] points[i]).export_func),
    {
        assert(points[k as int] == *splits_in_module@[k as int]);
        roots.insert(DepNode::Function(splits_in_module[k].export_func));
    }
    assert(roots@ =~= export_nodes(points));
    roots
}

} // verus!
