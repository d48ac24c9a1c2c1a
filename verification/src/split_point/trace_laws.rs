//! What traces say of each part of a module.
use crate::dep_graph::DepNode;
use crate::read::InputModule;
use crate::reloc::print_laws::{lemma_says_symbol, says_symbol};
use crate::split_point::print::{are_lines, node_size, total_size};
use crate::text::{decimal, quoted};
use vstd::prelude::*;
use vstd::string::*;

verus! {

/// How long the body of a function is, which is nothing if it is imported.
pub open spec fn body_len(module: &InputModule, index: usize) -> int {
    let imported = module.imported_funcs@.len();
    if imported <= index < imported + module.defined_funcs@.len()
        && module.defined_funcs@[index - imported].body.start
        <= module.defined_funcs@[index - imported].body.end {
        module.defined_funcs@[index - imported].body.end
            - module.defined_funcs@[index - imported].body.start
    } else {
        0
    }
}

/// Whether a line is what is said of a part: what it is, its index, and its name and size if it is
/// a function.
pub open spec fn says_part(module: &InputModule, v: DepNode, line: Seq<char>) -> bool {
    match v {
        DepNode::Function(index) => line == "   func["@ + decimal(index as nat) + "] <"@ + (
        if module.names.functions@.contains_key(index) {
            "Some("@ + quoted(module.names.functions@[index]@) + ")"@
        } else {
            "None"@
        }) + "> size="@ + decimal(body_len(module, index) as nat),
        DepNode::DataSymbol(index) => line.len() >= 3 && line.take(3) == "   "@ && says_symbol(
            module.reloc_info.symbols@[index as int],
            line.skip(3),
        ),
        DepNode::Global(index) => line == "   global["@ + decimal(index as nat) + "]"@,
        DepNode::Table(index) => line == "   table["@ + decimal(index as nat) + "]"@,
        DepNode::Tag(index) => line == "   tag["@ + decimal(index as nat) + "]"@,
        DepNode::Memory(index) => line == "   memory["@ + decimal(index as nat) + "]"@,
    }
}

/// How long the bodies of functions are together.
pub open spec fn bodies_len(module: &InputModule, parts: Seq<DepNode>) -> int
    decreases parts.len(),
{
    if parts.len() == 0 {
        0
    } else {
        bodies_len(module, parts.drop_first()) + match parts[0] {
            DepNode::Function(index) => body_len(module, index),
            _ => 0,
        }
    }
}

/// Whether a part that is a function exists.
pub open spec fn exists_if_func(module: &InputModule, v: DepNode) -> bool {
    v matches DepNode::Function(index) ==> index < module.imported_funcs@.len()
        + module.defined_funcs@.len()
}

/// Sizes can be added from either end.
proof fn lemma_total(module: &InputModule, parts: Seq<DepNode>)
    requires
        forall|i: int| 0 <= i < parts.len() ==> exists_if_func(module, #[trigger] parts[i]),
    ensures
        total_size(module, parts) == bodies_len(module, parts),
    decreases parts.len(),
{
    if parts.len() > 0 {
        let front = parts.drop_last();
        let back = parts.drop_first();
        assert forall|i: int| 0 <= i < front.len() implies exists_if_func(
            module,
            #[trigger] front[i],
        ) by {
            assert(exists_if_func(module, parts[i]));
        }
        assert forall|i: int| 0 <= i < back.len() implies exists_if_func(
            module,
            #[trigger] back[i],
        ) by {
            assert(exists_if_func(module, parts[i + 1]));
        }
        assert(exists_if_func(module, parts.last()) && exists_if_func(module, parts[0])) by {
            assert(exists_if_func(module, parts[parts.len() - 1]));
        }
        lemma_total(module, front);
        lemma_total(module, back);
        if parts.len() == 1 {
            assert(front =~= Seq::<DepNode>::empty());
            assert(back =~= Seq::<DepNode>::empty());
        } else {
            assert forall|i: int| 0 <= i < back.drop_last().len() implies exists_if_func(
                module,
                #[trigger] back.drop_last()[i],
            ) by {
                assert(exists_if_func(module, parts[i + 1]));
            }
            lemma_total(module, back.drop_last());
            assert(back.drop_last() =~= front.drop_first());
        }
    }
}

/// A trace of a module has a line with its name, a line for each part, and a line with its size,
/// which is that of its functions together.
pub proof fn lemma_trace(
    name: Seq<char>,
    module: &InputModule,
    parts: Seq<DepNode>,
    lines: Seq<String>,
    i: int,
)
    requires
        are_lines(name, module, parts, lines),
        forall|j: int| 0 <= j < parts.len() ==> exists_if_func(module, #[trigger] parts[j]),
    ensures
        lines.len() == parts.len() + 2,
        lines[0]@ == "SPLIT: ============== "@ + name,
        0 <= i < parts.len() ==> says_part(module, parts[i], lines[i + 1]@),
        lines[parts.len() as int + 1]@ == "SPLIT: ============== "@ + name + "  : total size: "@ + decimal(
            bodies_len(module, parts) as nat,
        ),
{
    lemma_total(module, parts);
    if 0 <= i < parts.len() {
        let line = lines[i + 1]@;
        assert(exists_if_func(module, parts[i]));
        reveal_strlit("   ");
        match parts[i] {
            DepNode::Function(index) => {
                reveal_strlit("func[");
                reveal_strlit("   func[");
                reveal_strlit(">");
                reveal_strlit(" size=");
                reveal_strlit("> size=");
                assert("   "@ + "func["@ =~= "   func["@);
                assert(">"@ + " size="@ =~= "> size="@);
                assert(node_size(module, parts[i]) == body_len(module, index));
                let known = if module.names.functions@.contains_key(index) {
                    "Some("@ + quoted(module.names.functions@[index]@) + ")"@
                } else {
                    "None"@
                };
                let size = decimal(body_len(module, index) as nat);
                assert(line =~= "   "@ + ("func["@ + decimal(index as nat) + "] <"@ + known + ">"@)
                    + " size="@ + size);
                assert(line =~= ("   "@ + "func["@) + decimal(index as nat) + "] <"@ + known + (">"@
                    + " size="@) + size);
            },
            DepNode::DataSymbol(index) => {
                let symbol = module.reloc_info.symbols@[index as int];
                lemma_says_symbol(symbol);
                assert(line.take(3) =~= "   "@);
                assert(line.skip(3) =~= crate::reloc::print::symbol_text(symbol));
            },
            DepNode::Global(index) => {
                reveal_strlit("global[");
                reveal_strlit("   global[");
                assert("   "@ + "global["@ =~= "   global["@);
                assert(line =~= "   global["@ + decimal(index as nat) + "]"@);
            },
            DepNode::Table(index) => {
                reveal_strlit("table[");
                reveal_strlit("   table[");
                assert("   "@ + "table["@ =~= "   table["@);
                assert(line =~= "   table["@ + decimal(index as nat) + "]"@);
            },
            DepNode::Tag(index) => {
                reveal_strlit("tag[");
                reveal_strlit("   tag[");
                assert("   "@ + "tag["@ =~= "   tag["@);
                assert(line =~= "   tag["@ + decimal(index as nat) + "]"@);
            },
            DepNode::Memory(index) => {
                reveal_strlit("memory[");
                reveal_strlit("   memory[");
                assert("   "@ + "memory["@ =~= "   memory["@);
                assert(line =~= "   memory["@ + decimal(index as nat) + "]"@);
            },
        }
    }
}

} // verus!
