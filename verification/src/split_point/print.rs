//! What the contents of modules look like in traces.
use crate::dep_graph::DepNode;
use crate::keyed::KeySet;
use crate::read::{InputFuncId, InputModule};
use crate::reloc::print::{print_symbol, symbol_text};
use crate::split_point::output::{OutputModuleInfo, ReachabilityGraph};
use crate::text::{decimal, optional_text, print_optional, to_decimal, to_decimal_wide};
use vstd::prelude::*;
use vstd::string::*;

verus! {

/// Whether traces are wanted, and there is someone to receive them.
pub fn trace_enabled(verbose: bool, level_enabled: bool) -> (enabled: bool)
    ensures
        enabled == (verbose && level_enabled),
{
    verbose && level_enabled
}

/// The name of a function, if it has one.
pub open spec fn func_name(module: &InputModule, index: InputFuncId) -> Option<Seq<char>> {
    if module.names.functions@.contains_key(index) {
        Some(module.names.functions@[index]@)
    } else {
        None
    }
}

/// How a part of a module is printed.
pub open spec fn node_text(module: &InputModule, node: DepNode) -> Seq<char> {
    match node {
        DepNode::Function(index) => "func["@ + decimal(index as nat) + "] <"@ + optional_text(
            func_name(module, index),
        ) + ">"@,
        DepNode::DataSymbol(index) => symbol_text(module.reloc_info.symbols@[index as int]),
        DepNode::Global(index) => "global["@ + decimal(index as nat) + "]"@,
        DepNode::Table(index) => "table["@ + decimal(index as nat) + "]"@,
        DepNode::Tag(index) => "tag["@ + decimal(index as nat) + "]"@,
        DepNode::Memory(index) => "memory["@ + decimal(index as nat) + "]"@,
    }
}

/// How many bytes a part of a module has: those of its body if it is a function that is defined, and
/// none otherwise.
pub open spec fn node_size(module: &InputModule, node: DepNode) -> nat {
    match node {
        DepNode::Function(index) => if index < module.imported_funcs@.len() {
            0
        } else {
            let body = module.defined_funcs@[index - module.imported_funcs@.len()].body;
            if body.start <= body.end {
                (body.end - body.start) as nat
            } else {
                0
            }
        },
        _ => 0,
    }
}

/// The line that is printed for a part of a module.
pub open spec fn node_line(module: &InputModule, node: DepNode) -> Seq<char> {
    match node {
        DepNode::Function(_) => "   "@ + node_text(module, node) + " size="@ + decimal(
            node_size(module, node),
        ),
        _ => "   "@ + node_text(module, node),
    }
}

/// How many bytes parts of a module have together.
pub open spec fn total_size(module: &InputModule, nodes: Seq<DepNode>) -> nat
    decreases nodes.len(),
{
    if nodes.len() == 0 {
        0
    } else {
        total_size(module, nodes.drop_last()) + node_size(module, nodes.last())
    }
}

/// Whether what is to be printed of a part exists.
pub open spec fn can_print(module: &InputModule, node: DepNode) -> bool {
    match node {
        DepNode::Function(index) => index < module.imported_funcs@.len()
            + module.defined_funcs@.len(),
        DepNode::DataSymbol(index) => index < module.reloc_info.symbols@.len(),
        _ => true,
    }
}

/// `lines` are printed for a module that holds `nodes`.
pub open spec fn are_lines(
    module_name: Seq<char>,
    module: &InputModule,
    nodes: Seq<DepNode>,
    lines: Seq<String>,
) -> bool {
    &&& lines.len() == nodes.len() + 2
    &&& lines[0]@ == "SPLIT: ============== "@ + module_name
    &&& forall|i: int|
        0 <= i < nodes.len() ==> (#[trigger] lines[i + 1])@ == node_line(module, nodes[i])
    &&& lines.last()@ == "SPLIT: ============== "@ + module_name + "  : total size: "@
        + decimal(total_size(module, nodes))
}

/// Prints an index in square brackets.
fn print_index(kind: &str, index: usize) -> (text: String)
    ensures
        text@ == kind@ + decimal(index as nat) + "]"@,
{
    let mut text = kind.to_owned();
    text.append(to_decimal(index).as_str());
    text.append("]");
    text
}

/// Prints a part of a module.
fn format_dep(module: &InputModule, node: &DepNode) -> (text: String)
    requires
        can_print(module, *node),
    ensures
        text@ == node_text(module, *node),
{
    match node {
        DepNode::Function(index) => {
            let name: Option<&str> = match module.names.functions.get(index) {
                Some(name) => Some(name.as_str()),
                None => None,
            };
            let mut text = "func[".to_owned();
            text.append(to_decimal(*index).as_str());
            text.append("] <");
            text.append(print_optional(name).as_str());
            text.append(">");
            text
        },
        DepNode::DataSymbol(index) => print_symbol(&module.reloc_info.symbols[*index]),
        DepNode::Global(index) => print_index("global[", *index),
        DepNode::Table(index) => print_index("table[", *index),
        DepNode::Tag(index) => print_index("tag[", *index),
        DepNode::Memory(index) => print_index("memory[", *index),
    }
}

/// Finds how many bytes a part of a module has.
fn size_of_node(module: &InputModule, node: &DepNode) -> (size: usize)
    requires
        can_print(module, *node),
    ensures
        size == node_size(module, *node),
{
    match node {
        DepNode::Function(index) => {
            let imported: usize = module.imported_funcs.len();
            if *index < imported {
                0
            } else {
                let body = &module.defined_funcs[*index - imported].body;
                if body.start <= body.end {
                    body.end - body.start
                } else {
                    0
                }
            }
        },
        _ => 0,
    }
}

/// Prints the line for a part of a module.
fn print_node(module: &InputModule, node: &DepNode) -> (line: String)
    requires
        can_print(module, *node),
    ensures
        line@ == node_line(module, *node),
{
    let mut line = "   ".to_owned();
    line.append(format_dep(module, node).as_str());
    if let DepNode::Function(_) = node {
        line.append(" size=");
        line.append(to_decimal(size_of_node(module, node)).as_str());
    }
    line
}

/// Prints the parts of a module, in no particular order.
fn print_deps(module_name: &str, module: &InputModule, reachable: &KeySet<DepNode>) -> (lines: Vec<
    String,
>)
    requires
        forall|node: DepNode| #[trigger] reachable@.contains(node) ==> can_print(module, node),
    ensures
        exists|nodes: Seq<DepNode>|
            nodes.no_duplicates() && nodes.to_set() == reachable@ && #[trigger] are_lines(
                module_name@,
                module,
                nodes,
                lines@,
            ),
{
    let nodes = reachable.to_vec();
    let mut lines: Vec<String> = Vec::new();
    let mut head = "SPLIT: ============== ".to_owned();
    head.append(module_name);
    lines.push(head);
    let mut size: u128 = 0;
    assert(nodes@.take(0) =~= Seq::<DepNode>::empty());
    for i in 0..nodes.len()
        invariant
            nodes@.to_set() == reachable@,
            forall|node: DepNode| #[trigger] reachable@.contains(node) ==> can_print(module, node),
            lines@.len() == i + 1,
            lines@[0]@ == "SPLIT: ============== "@ + module_name@,
            forall|j: int|
                0 <= j < i ==> (#[trigger] lines@[j + 1])@ == node_line(module, nodes@[j]),
            size == total_size(module, nodes@.take(i as int)),
            size <= i * usize::MAX,
    {
        let node = &nodes[i];
        assert(nodes@.to_set().contains(*node));
        let ghost before = lines@;
        lines.push(print_node(module, node));
        let more: usize = size_of_node(module, node);
        proof {
            assert(nodes@.take(i + 1).drop_last() =~= nodes@.take(i as int));
            assert(i * usize::MAX + usize::MAX == (i + 1) * usize::MAX) by (nonlinear_arith);
            assert((i + 1) * usize::MAX <= u128::MAX) by (nonlinear_arith)
                requires
                    i + 1 <= 0xffff_ffff_ffff_ffff,
                    0 <= i,
                    usize::MAX <= 0xffff_ffff_ffff_ffff,
            ;
            assert forall|j: int| 0 <= j < i + 1 implies (#[trigger] lines@[j + 1])@ == node_line(
                module,
                nodes@[j],
            ) by {
                if j < i {
                    assert(lines@[j + 1] == before[j + 1]);
                }
            }
        }
        size = size + more as u128;
    }
    let ghost before = lines@;
    let mut last = "SPLIT: ============== ".to_owned();
    last.append(module_name);
    last.append("  : total size: ");
    last.append(to_decimal_wide(size).as_str());
    lines.push(last);
    proof {
        assert(nodes@.take(nodes@.len() as int) =~= nodes@);
        assert forall|j: int| 0 <= j < nodes@.len() implies (#[trigger] lines@[j + 1])@
            == node_line(module, nodes@[j]) by {
            assert(lines@[j + 1] == before[j + 1]);
        }
        assert(are_lines(module_name@, module, nodes@, lines@));
    }
    lines
}

impl OutputModuleInfo {
    /// Prints the contents of the module, in no particular order.
    pub fn print(&self, module_name: &str, module: &InputModule) -> (lines: Vec<String>)
        requires
            forall|node: DepNode| #[trigger]
                self.included_symbols@.contains(node) ==> can_print(module, node),
        ensures
            exists|nodes: Seq<DepNode>|
                nodes.no_duplicates() && nodes.to_set() == self.included_symbols@
                    && #[trigger] are_lines(module_name@, module, nodes, lines@),
    {
        print_deps(module_name, module, &self.included_symbols)
    }
}

impl From<ReachabilityGraph> for OutputModuleInfo {
    fn from(reachability: ReachabilityGraph) -> (info: Self)
        ensures
            info.included_symbols@ == reachability.reachable@,
            info.used_shared_deps@ == Set::<DepNode>::empty(),
            !info.is_empty,
    {
        OutputModuleInfo {
            included_symbols: reachability.reachable,
            ..OutputModuleInfo::default()
        }
    }
}

impl vstd::std_specs::convert::FromSpecImpl<ReachabilityGraph> for OutputModuleInfo {
    open spec fn obeys_from_spec() -> bool {
        false
    }

    open spec fn from_spec(reachability: ReachabilityGraph) -> Self {
        arbitrary()
    }
}

} // verus!
