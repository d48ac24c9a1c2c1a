//! Functions that only call others, for which the linker gives no relocations.
use crate::name_map::NameMap;
use crate::order::same_text;
use crate::read::InputFuncId;
use crate::wasm::{body_operators, operator_views, read_operators, RawOperator};
use vstd::prelude::*;

verus! {

/// Whether a character is a letter or a number.
pub uninterp spec fn is_letter_or_number(c: char) -> bool;

/// Whether a character is one of the letters and digits of ASCII.
pub open spec fn is_ascii_letter_or_digit(c: char) -> bool {
    'a' <= c <= 'z' || 'A' <= c <= 'Z' || '0' <= c <= '9'
}

/// `char::is_alphanumeric`: whether a character is a letter or a number by the tables of Unicode.
///
/// Of the characters of ASCII these are the letters and digits. Which other ones there are is named,
/// not described.
pub assume_specification[ char::is_alphanumeric ](c: char) -> (is: bool)
    ensures
        is == is_letter_or_number(c),
        (c as u32) < 128 ==> is == is_ascii_letter_or_digit(c),
;

/// Whether a character can be in the name of an instruction.
pub open spec fn is_name_char(c: char) -> bool {
    if (c as u32) < 128 {
        is_ascii_letter_or_digit(c) || c == '_'
    } else {
        is_letter_or_number(c)
    }
}

/// How many characters at the start of a text can be in the name of an instruction.
pub open spec fn name_len(text: Seq<char>) -> int
    decreases text.len(),
{
    if text.len() > 0 && is_name_char(text[0]) {
        1 + name_len(text.drop_first())
    } else {
        0
    }
}

/// The name at the start of a printed instruction.
pub open spec fn short_name(text: Seq<char>) -> Seq<char> {
    text.take(name_len(text))
}

/// Finds the name at the start of a printed instruction.
pub fn op_short_name(text: &str) -> (name: String)
    ensures
        name@ == short_name(text@),
{
    let len: usize = text.unicode_len();
    let mut end: usize = 0;
    assert(text@.skip(0) =~= text@);
    while end < len
        invariant_except_break
            name_len(text@) == end + name_len(text@.skip(end as int)),
        invariant
            end <= len == text@.len(),
        ensures
            name_len(text@) == end,
        decreases len - end,
    {
        let c = text.get_char(end);
        assert(text@.skip(end as int)[0] == c);
        if !(c.is_alphanumeric() || c == '_') {
            break;
        }
        assert(text@.skip(end as int).drop_first() =~= text@.skip(end + 1));
        end += 1;
    }
    assert(text@.subrange(0, end as int) =~= text@.take(end as int));
    text.substring_char(0, end).to_owned()
}

/// An instruction: how it is printed, and which function it calls if it is a call.
pub type OperatorView = (Seq<char>, Option<u32>);

/// Whether an instruction refers to something that would need a relocation.
pub open spec fn needs_reloc(op: OperatorView) -> bool {
    let name = short_name(op.0);
    ||| op.1 is Some
    ||| name == "ReturnCall"@
    ||| name == "CallIndirect"@
    ||| name == "ReturnCallIndirect"@
    ||| name == "RefFunc"@
    ||| name == "GlobalGet"@
    ||| name == "GlobalSet"@
    ||| name == "TableGet"@
    ||| name == "TableSet"@
    ||| name == "TableSize"@
    ||| name == "TableGrow"@
    ||| name == "TableFill"@
    ||| name == "TableInit"@
    ||| name == "TableCopy"@
    ||| name == "MemoryInit"@
    ||| name == "DataDrop"@
    ||| name == "ElemDrop"@
}

/// Whether an instruction is one that stubs consist of.
pub open spec fn suits_stub(op: OperatorView) -> bool {
    let name = short_name(op.0);
    op.1 is Some || name == "LocalGet"@ || name == "Return"@ || name == "End"@
}

/// Whether one of the first instructions would need a relocation.
pub open spec fn any_needs(ops: Seq<OperatorView>, n: int) -> bool {
    exists|i: int| 0 <= i < n && needs_reloc(#[trigger] ops[i])
}

/// Whether an instruction shows that a function is no stub, and that relocations for it are missing.
pub open spec fn is_unexpected(ops: Seq<OperatorView>, i: int) -> bool {
    !suits_stub(ops[i]) && any_needs(ops, i + 1)
}

/// Whether instruction `i` is the first unexpected one.
pub open spec fn first_unexpected(ops: Seq<OperatorView>, i: int) -> bool {
    0 <= i < ops.len() && is_unexpected(ops, i) && forall|j: int|
        0 <= j < i ==> !#[trigger] is_unexpected(ops, j)
}

/// Whether some instruction is unexpected.
pub open spec fn any_unexpected(ops: Seq<OperatorView>) -> bool {
    exists|i: int| #[trigger] first_unexpected(ops, i)
}

/// The functions that instructions call, in order.
pub open spec fn called(ops: Seq<OperatorView>) -> Seq<InputFuncId>
    decreases ops.len(),
{
    if ops.len() == 0 {
        Seq::empty()
    } else {
        match ops.last().1 {
            Some(index) => called(ops.drop_last()).push(index as usize),
            None => called(ops.drop_last()),
        }
    }
}

/// The functions that a stub calls, or nothing for a function that is no stub.
pub open spec fn stub_targets(ops: Seq<OperatorView>) -> Option<Seq<InputFuncId>> {
    if called(ops).len() > 0 && forall|i: int| 0 <= i < ops.len() ==> suits_stub(#[trigger] ops[i]) {
        Some(called(ops))
    } else {
        None
    }
}

/// Instructions that were not expected in a function without relocations: for each name, in how many
/// functions it was met, and the first one of these.
pub type UnexpectedOps = NameMap<(usize, InputFuncId)>;

/// What one more function with an unexpected instruction changes.
pub open spec fn counted(
    before: Map<Seq<char>, (usize, InputFuncId)>,
    name: Seq<char>,
    func: InputFuncId,
) -> Map<Seq<char>, (usize, InputFuncId)> {
    if before.contains_key(name) {
        before.insert(name, ((before[name].0 + 1) as usize, before[name].1))
    } else {
        before.insert(name, (1, func))
    }
}

/// Counts an instruction in a function.
fn count_op(unexpected: &mut UnexpectedOps, name: &str, func: InputFuncId)
    requires
        old(unexpected).wf(),
        old(unexpected)@.contains_key(name@) ==> old(unexpected)@[name@].0 < usize::MAX,
    ensures
        final(unexpected).wf(),
        final(unexpected)@ == counted(old(unexpected)@, name@, func),
{
    let entry: (usize, InputFuncId) = match unexpected.get(name) {
        Some((count, sample)) => (*count + 1, *sample),
        None => (1, func),
    };
    unexpected.insert(name, entry);
}

/// Whether an instruction refers to something that would need a relocation.
///
/// Some instructions that do so may be missing. A function that only has such ones is not reported.
fn surely_needs_reloc_information(name: &str, is_call: bool) -> (needs: bool)
    ensures
        forall|text: Seq<char>, callee: Option<u32>|
            name@ == short_name(text) && is_call == callee is Some ==> needs
                == #[trigger] needs_reloc((text, callee)),
{
    is_call || same_text(name, "ReturnCall") || same_text(name, "CallIndirect") || same_text(
        name,
        "ReturnCallIndirect",
    ) || same_text(name, "RefFunc") || same_text(name, "GlobalGet") || same_text(name, "GlobalSet")
        || same_text(name, "TableGet") || same_text(name, "TableSet") || same_text(
        name,
        "TableSize",
    ) || same_text(name, "TableGrow") || same_text(name, "TableFill") || same_text(
        name,
        "TableInit",
    ) || same_text(name, "TableCopy") || same_text(name, "MemoryInit") || same_text(
        name,
        "DataDrop",
    ) || same_text(name, "ElemDrop")
}

/// What a function without relocations is.
#[derive(Debug)]
pub enum StubCheck {
    /// A stub that calls functions.
    Stub(Vec<InputFuncId>),
    /// Something else.
    Other,
    /// A function whose instructions cannot all be read.
    Unreadable,
}

/// `check` says what a function with the given instructions is, of which some cannot be read if it
/// `failed`, and unexpected instructions are counted.
pub open spec fn checks(
    ops: Seq<OperatorView>,
    failed: bool,
    func: InputFuncId,
    before: Map<Seq<char>, (usize, InputFuncId)>,
    check: StubCheck,
    after: Map<Seq<char>, (usize, InputFuncId)>,
) -> bool {
    if any_unexpected(ops) {
        &&& check is Other
        &&& forall|i: int| #[trigger]
            first_unexpected(ops, i) ==> after == counted(before, short_name(ops[i].0), func)
    } else {
        &&& after == before
        &&& if failed {
            check is Unreadable
        } else {
            match stub_targets(ops) {
                Some(targets) => check matches StubCheck::Stub(found) && found@ == targets,
                None => check is Other,
            }
        }
    }
}

/// Tells what a function without relocations is by its instructions.
///
/// A function can have no relocations because it is a stub for which the linker gives none, or
/// because it refers to nothing. Otherwise they are missing, which is noted.
pub fn check_operators(
    ops: &Vec<RawOperator>,
    failed: bool,
    func: InputFuncId,
    unexpected: &mut UnexpectedOps,
) -> (check: StubCheck)
    requires
        old(unexpected).wf(),
        forall|name: Seq<char>| #[trigger]
            old(unexpected)@.contains_key(name) ==> old(unexpected)@[name].0 < usize::MAX,
    ensures
        final(unexpected).wf(),
        checks(
            operator_views(ops@),
            failed,
            func,
            old(unexpected)@,
            check,
            final(unexpected)@,
        ),
{
    let ghost views = operator_views(ops@);
    let mut targets: Vec<InputFuncId> = Vec::new();
    let mut needs_reloc_info = false;
    let mut is_simple_stub = true;
    let ghost before = *unexpected;
    assert(views.take(0) =~= Seq::<OperatorView>::empty());
    for i in 0..ops.len()
        invariant
            *unexpected == before,
            before == *old(unexpected),
            before.wf(),
            forall|name: Seq<char>| #[trigger]
                before@.contains_key(name) ==> before@[name].0 < usize::MAX,
            views == operator_views(ops@),
            targets@ == called(views.take(i as int)),
            needs_reloc_info == any_needs(views, i as int),
            is_simple_stub == (forall|j: int| 0 <= j < i ==> suits_stub(#[trigger] views[j])),
            forall|j: int| 0 <= j < i ==> !#[trigger] is_unexpected(views, j),
    {
        let name = op_short_name(ops[i].0.as_str());
        let is_call = ops[i].1.is_some();
        let needs = surely_needs_reloc_information(name.as_str(), is_call);
        proof {
            assert(views[i as int] == (ops@[i as int].0@, ops@[i as int].1));
            assert(needs == needs_reloc(views[i as int]));
            assert(any_needs(views, i + 1) == (any_needs(views, i as int) || needs)) by {
                if any_needs(views, i as int) {
                    let j = choose|j: int| 0 <= j < i && needs_reloc(#[trigger] views[j]);
                    assert(needs_reloc(views[j]));
                }
            }
            assert(views.take(i + 1).drop_last() =~= views.take(i as int));
            assert(views.take(i + 1).last() == views[i as int]);
        }
        needs_reloc_info = needs_reloc_info || needs;
        match ops[i].1 {
            Some(function_index) => {
                targets.push(function_index as usize);
                assert(suits_stub(views[i as int]));
            },
            None => {
                if same_text(name.as_str(), "LocalGet") || same_text(name.as_str(), "Return")
                    || same_text(name.as_str(), "End") {
                    assert(suits_stub(views[i as int]));
                } else if needs_reloc_info {
                    proof {
                        assert(is_unexpected(views, i as int));
                        assert(first_unexpected(views, i as int));
                        assert forall|k: int| #[trigger] first_unexpected(views, k) implies k
                            == i by {
                            if k < i {
                                assert(is_unexpected(views, k));
                            } else if i < k {
                                assert(!is_unexpected(views, i as int));
                            }
                        }
                    }
                    count_op(unexpected, name.as_str(), func);
                    return StubCheck::Other;
                } else {
                    assert(!suits_stub(views[i as int]));
                    is_simple_stub = false;
                }
            },
        }
        assert(!is_unexpected(views, i as int));
    }
    proof {
        assert(views.take(views.len() as int) =~= views);
        assert(!any_unexpected(views)) by {
            assert forall|i: int| !#[trigger] first_unexpected(views, i) by {}
        }
    }
    if failed {
        StubCheck::Unreadable
    } else if is_simple_stub && targets.len() > 0 {
        StubCheck::Stub(targets)
    } else {
        StubCheck::Other
    }
}

/// Tells what a function without relocations is by the bytes of its body, which starts at `offset`
/// in the input module.
pub fn validate_no_reloc_stub(
    body: &[u8],
    offset: usize,
    func: InputFuncId,
    unexpected: &mut UnexpectedOps,
) -> (check: StubCheck)
    requires
        offset + body@.len() <= usize::MAX,
        old(unexpected).wf(),
        forall|name: Seq<char>| #[trigger]
            old(unexpected)@.contains_key(name) ==> old(unexpected)@[name].0 < usize::MAX,
    ensures
        final(unexpected).wf(),
        checks(
            body_operators(body@).0,
            body_operators(body@).1,
            func,
            old(unexpected)@,
            check,
            final(unexpected)@,
        ),
{
    let (ops, error) = read_operators(body, offset);
    check_operators(&ops, error.is_some(), func, unexpected)
}

} // verus!
