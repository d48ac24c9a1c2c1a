//! Which function each relocation of the code section is in.
use crate::data_deps::{all_fit, fits, reloc_end, reloc_start};
use crate::read::{DefinedFunc, InputFuncId, InputModule};
use crate::reloc::apply::{relocs_in_order, section_relocs};
use crate::reloc::info::RelocationEntry;
use crate::util::{exponential_partition_point, shift_range, true_until};
use vstd::prelude::*;
use vstd::slice::slice_subrange;

verus! {

/// Why relocations cannot be assigned to functions.
#[derive(Debug, PartialEq, Eq, Clone, Copy, Structural)]
pub enum FuncRelocError {
    /// The end of a relocation is too large.
    TooFar {
        /// The relocation.
        reloc: usize,
    },
    /// All functions end before the end of a relocation.
    NoFunction {
        /// The relocation.
        reloc: usize,
    },
}

/// The functions are in the order of their ends.
pub open spec fn funcs_in_order(funcs: Seq<DefinedFunc>) -> bool {
    forall|i: int, j: int|
        0 <= i < j < funcs.len() ==> (#[trigger] funcs[i]).body.end <= (
        #[trigger] funcs[j]).body.end
}

/// The first function that does not end before `end`, if the functions are in order; or the number of
/// functions if there is none.
pub open spec fn func_place(funcs: Seq<DefinedFunc>, end: int) -> int
    decreases funcs.len(),
{
    if funcs.len() > 0 && funcs[0].body.end < end {
        1 + func_place(funcs.drop_first(), end)
    } else {
        0
    }
}

/// How far relocation `i` and those before it reach.
pub open spec fn reach_of(relocs: Seq<RelocationEntry>, base: usize, i: int) -> int
    decreases i,
{
    let end = reloc_end(base, relocs[i]);
    if i <= 0 || reach_of(relocs, base, i - 1) <= end {
        end
    } else {
        reach_of(relocs, base, i - 1)
    }
}

/// The start of the code section.
pub open spec fn code_base(module: &InputModule) -> usize {
    module.reloc_info.section_ranges@[module.reloc_info.code_section_index as int].start
}

/// The relocations of the code section.
pub open spec fn code_relocs(module: &InputModule) -> Seq<RelocationEntry> {
    section_relocs(&module.reloc_info, module.reloc_info.code_section_index)
}

/// The position of the function that relocation `i` of the code section is in.
pub open spec fn func_of(module: &InputModule, i: int) -> int {
    func_place(module.defined_funcs@, reach_of(code_relocs(module), code_base(module), i))
}

/// The error for relocation `i` of the code section, if no function can be found for it.
pub open spec fn func_error(module: &InputModule, i: int) -> Option<FuncRelocError> {
    if !fits(code_relocs(module)[i]) {
        Some(FuncRelocError::TooFar { reloc: i as usize })
    } else if func_of(module, i) >= module.defined_funcs@.len() {
        Some(FuncRelocError::NoFunction { reloc: i as usize })
    } else {
        None
    }
}

/// Whether relocation `i` of the code section is in a function.
pub open spec fn is_in(module: &InputModule, i: int, func: InputFuncId) -> bool {
    &&& func_error(module, i) is None
    &&& func == module.imported_funcs@.len() + func_of(module, i)
}

/// Whether relocations of the code section can be assigned to functions: the places that they are at
/// exist, and the functions are in order.
pub open spec fn can_assign(module: &InputModule) -> bool {
    &&& module.reloc_info.code_section_index < module.reloc_info.section_ranges@.len()
    &&& all_fit(code_relocs(module), code_base(module))
    &&& funcs_in_order(module.defined_funcs@)
    &&& module.imported_funcs@.len() + module.defined_funcs@.len() <= usize::MAX
}

/// What the first function that does not end before `end` is like.
proof fn lemma_func_place(funcs: Seq<DefinedFunc>, end: int)
    requires
        funcs_in_order(funcs),
    ensures
        0 <= func_place(funcs, end) <= funcs.len(),
        forall|i: int|
            0 <= i < funcs.len() ==> ((#[trigger] funcs[i]).body.end < end <==> i < func_place(
                funcs,
                end,
            )),
    decreases funcs.len(),
{
    if funcs.len() > 0 && funcs[0].body.end < end {
        let rest = funcs.drop_first();
        assert forall|i: int, j: int| 0 <= i < j < rest.len() implies (
        #[trigger] rest[i]).body.end <= (#[trigger] rest[j]).body.end by {
            assert(funcs[i + 1].body.end <= funcs[j + 1].body.end);
        }
        lemma_func_place(rest, end);
        assert forall|i: int| 0 <= i < funcs.len() implies ((#[trigger] funcs[i]).body.end < end
            <==> i < func_place(funcs, end)) by {
            if i > 0 {
                assert(rest[i - 1] == funcs[i]);
            }
        }
    }
}

/// The place with the right functions before and behind it is the one.
proof fn lemma_func_place_is(funcs: Seq<DefinedFunc>, end: int, k: int)
    requires
        funcs_in_order(funcs),
        0 <= k <= funcs.len(),
        forall|i: int| 0 <= i < k ==> (#[trigger] funcs[i]).body.end < end,
        k < funcs.len() ==> funcs[k].body.end >= end,
    ensures
        func_place(funcs, end) == k,
{
    lemma_func_place(funcs, end);
    let p = func_place(funcs, end);
    if p < k {
        assert(funcs[p].body.end < end);
    }
}

/// Finds the function that each relocation of the code section is in, up to the first error.
pub fn iter_functions_with_relocs(module: &InputModule) -> (found: (
    Vec<InputFuncId>,
    Option<FuncRelocError>,
))
    requires
        can_assign(module),
    ensures
        forall|i: int| 0 <= i < found.0@.len() ==> is_in(module, i, #[trigger] found.0@[i]),
        match found.1 {
            Some(error) => found.0@.len() < code_relocs(module).len() && func_error(
                module,
                found.0@.len() as int,
            ) == Some(error),
            None => found.0@.len() == code_relocs(module).len(),
        },
{
    let relocs = module.reloc_info.iter_code_relocs();
    let base: usize = module.reloc_info.code_section_offset();
    let funcs = module.defined_funcs.as_slice();
    let imported: usize = module.imported_funcs.len();
    let mut found: Vec<InputFuncId> = Vec::new();
    let mut function_index: usize = 0;
    for i in 0..relocs.len()
        invariant
            can_assign(module),
            relocs@ == code_relocs(module),
            base == code_base(module),
            funcs@ == module.defined_funcs@,
            imported == module.imported_funcs@.len(),
            found@.len() == i,
            forall|j: int| 0 <= j < found@.len() ==> is_in(module, j, #[trigger] found@[j]),
            function_index <= funcs@.len(),
            i > 0 ==> function_index == func_of(module, i - 1) && function_index < funcs@.len(),
            i == 0 ==> function_index == 0,
    {
        let range = match relocs[i].relocation_range() {
            Ok(range) => {
                assert(fits(relocs@[i as int]));
                shift_range(range, base)
            },
            Err(_) => return (found, Some(FuncRelocError::TooFar { reloc: i })),
        };
        let rest = slice_subrange(funcs, function_index, funcs.len());
        let end: usize = range.end;
        let ends_before = |func: &DefinedFunc| -> (before: bool)
            ensures
                before == (end > func.body.end),
            { end > func.body.end };
        let step: usize = exponential_partition_point(rest, ends_before);
        proof {
            let all = funcs@;
            assert(end == reloc_end(base, relocs@[i as int]));
            lemma_func_place(all, end as int);
            let here = func_place(all, end as int);
            // What is left of the functions turns where all of them do, or at once.
            let k = if here >= function_index {
                here - function_index
            } else {
                0
            };
            assert(true_until(ends_before, rest@, k)) by {
                assert forall|j: int, b: bool|
                    0 <= j < rest@.len() && #[trigger] ends_before.ensures(
                        (&rest@[j],),
                        b,
                    ) implies b == (j < k) by {
                    assert(rest@[j] == all[j + function_index]);
                }
            }
            assert(step == k);
            if i > 0 {
                let far = reach_of(relocs@, base, i - 1);
                lemma_func_place(all, far);
                if far <= end {
                    assert(function_index <= here) by {
                        if here < function_index {
                            assert(all[here].body.end < far);
                        }
                    }
                } else {
                    assert(here <= function_index) by {
                        if function_index < here {
                            assert(all[function_index as int].body.end < end);
                        }
                    }
                }
            }
            assert(function_index + step == func_of(module, i as int));
        }
        function_index = function_index + step;
        if function_index >= funcs.len() {
            return (found, Some(FuncRelocError::NoFunction { reloc: i }));
        }
        found.push(imported + function_index);
    }
    (found, None)
}

/// The bodies of functions follow each other.
pub open spec fn bodies_apart(funcs: Seq<DefinedFunc>) -> bool {
    forall|i: int, j: int|
        0 <= i < j < funcs.len() ==> (#[trigger] funcs[i]).body.end <= (
        #[trigger] funcs[j]).body.start && funcs[j].body.start <= funcs[j].body.end
}

/// Whether the body of a function contains a relocation.
pub open spec fn body_contains(
    funcs: Seq<DefinedFunc>,
    base: usize,
    j: int,
    reloc: RelocationEntry,
) -> bool {
    0 <= j < funcs.len() && funcs[j].body.start <= reloc_start(base, reloc) && reloc_end(base, reloc)
        <= funcs[j].body.end
}

/// Whether the body of some function contains a relocation.
pub open spec fn in_some_body(
    funcs: Seq<DefinedFunc>,
    base: usize,
    reloc: RelocationEntry,
) -> bool {
    exists|f: int| #[trigger] body_contains(funcs, base, f, reloc)
}

/// Nothing up to a relocation reaches behind the function that contains it.
proof fn lemma_reach_inside(
    funcs: Seq<DefinedFunc>,
    relocs: Seq<RelocationEntry>,
    base: usize,
    i: int,
    j: int,
)
    requires
        bodies_apart(funcs),
        funcs_in_order(funcs),
        0 <= i < relocs.len(),
        relocs_in_order(relocs),
        forall|a: int|
            0 <= a < relocs.len() ==> in_some_body(funcs, base, #[trigger] relocs[a]),
        body_contains(funcs, base, j, relocs[i]),
    ensures
        reloc_end(base, relocs[i]) <= reach_of(relocs, base, i) <= funcs[j].body.end,
    decreases i,
{
    if i > 0 {
        let before = relocs[i - 1];
        let f = choose|f: int| #[trigger] body_contains(funcs, base, f, before);
        lemma_reach_inside(funcs, relocs, base, i - 1, f);
        assert(relocs[i - 1].offset <= relocs[i].offset);
        if j < f {
            assert(funcs[j].body.end <= funcs[f].body.start);
        } else if f < j {
            assert(funcs[f].body.end <= funcs[j].body.end);
        }
    }
}

/// A relocation is assigned to the function whose body contains it.
pub proof fn lemma_func_contains(module: &InputModule, i: int, j: int)
    requires
        bodies_apart(module.defined_funcs@),
        funcs_in_order(module.defined_funcs@),
        0 <= i < code_relocs(module).len(),
        relocs_in_order(code_relocs(module)),
        forall|a: int|
            0 <= a < code_relocs(module).len() ==> in_some_body(
                module.defined_funcs@,
                code_base(module),
                #[trigger] code_relocs(module)[a],
            ),
        body_contains(module.defined_funcs@, code_base(module), j, code_relocs(module)[i]),
    ensures
        func_of(module, i) == j,
{
    let funcs = module.defined_funcs@;
    let relocs = code_relocs(module);
    let base = code_base(module);
    lemma_reach_inside(funcs, relocs, base, i, j);
    assert forall|k: int| 0 <= k < j implies (#[trigger] funcs[k]).body.end < reach_of(
        relocs,
        base,
        i,
    ) by {
        assert(funcs[k].body.end <= funcs[j].body.start);
    }
    lemma_func_place_is(funcs, reach_of(relocs, base, i), j);
}

} // verus!
