//! What is found out of functions without relocations, told by their instructions.
use crate::read::InputFuncId;
use crate::stubs::{
    any_needs, any_unexpected, called, checks, counted, first_unexpected, is_letter_or_number,
    is_name_char, is_unexpected, name_len, needs_reloc, short_name, stub_targets, suits_stub,
    OperatorView, StubCheck,
};
use vstd::prelude::*;

verus! {

/// Whether a printed instruction is the one with a name: what is printed is the name, or goes on
/// with a space behind it.
pub open spec fn is_named(text: Seq<char>, name: Seq<char>) -> bool {
    &&& name.len() <= text.len()
    &&& text.take(name.len() as int) == name
    &&& text.len() == name.len() || text[name.len() as int] == ' '
}

/// Whether a name consists of ASCII letters and digits.
pub open spec fn is_word(name: Seq<char>) -> bool {
    forall|i: int|
        0 <= i < name.len() ==> {
            let c = #[trigger] name[i];
            ('a' <= c && c <= 'z') || ('A' <= c && c <= 'Z') || ('0' <= c && c <= '9')
        }
}

/// Whether an instruction is what stubs consist of: a call, a parameter, a return, or the end.
pub open spec fn is_stub_op(op: (Seq<char>, Option<u32>)) -> bool {
    op.1 is Some || is_named(op.0, "LocalGet"@) || is_named(op.0, "Return"@) || is_named(
        op.0,
        "End"@,
    )
}

/// Whether an instruction refers to a function, a global, a table, a data segment or an element
/// segment.
pub open spec fn refers_to_part(op: (Seq<char>, Option<u32>)) -> bool {
    ||| op.1 is Some
    ||| is_named(op.0, "ReturnCall"@)
    ||| is_named(op.0, "CallIndirect"@)
    ||| is_named(op.0, "ReturnCallIndirect"@)
    ||| is_named(op.0, "RefFunc"@)
    ||| is_named(op.0, "GlobalGet"@)
    ||| is_named(op.0, "GlobalSet"@)
    ||| is_named(op.0, "TableGet"@)
    ||| is_named(op.0, "TableSet"@)
    ||| is_named(op.0, "TableSize"@)
    ||| is_named(op.0, "TableGrow"@)
    ||| is_named(op.0, "TableFill"@)
    ||| is_named(op.0, "TableInit"@)
    ||| is_named(op.0, "TableCopy"@)
    ||| is_named(op.0, "MemoryInit"@)
    ||| is_named(op.0, "DataDrop"@)
    ||| is_named(op.0, "ElemDrop"@)
}

/// How long the name of an instruction is.
proof fn lemma_name_len(text: Seq<char>, n: int)
    requires
        0 <= n <= text.len(),
        forall|i: int| 0 <= i < n ==> is_name_char(#[trigger] text[i]),
        n < text.len() ==> !is_name_char(text[n]),
    ensures
        name_len(text) == n,
    decreases n,
{
    if n > 0 {
        let rest = text.drop_first();
        assert forall|i: int| 0 <= i < n - 1 implies is_name_char(#[trigger] rest[i]) by {
            assert(rest[i] == text[i + 1]);
        }
        if n - 1 < rest.len() {
            assert(rest[n - 1] == text[n]);
        }
        assert(is_name_char(text[0]));
        lemma_name_len(rest, n - 1);
    }
}

/// The name that is cut out of a printed instruction is the name of the instruction.
pub proof fn lemma_name_cut_out(text: Seq<char>, name: Seq<char>)
    requires
        is_named(text, name),
        is_word(name),
    ensures
        short_name(text) == name,
{
    let n = name.len() as int;
    assert forall|i: int| 0 <= i < n implies is_name_char(#[trigger] text[i]) by {
        assert(text.take(n)[i] == text[i]);
        assert(name[i] == text[i]);
    }
    lemma_name_len(text, n);
}

/// The names that matter consist of letters.
proof fn lemma_words()
    ensures
        is_word("LocalGet"@),
        is_word("Return"@),
        is_word("End"@),
        is_word("ReturnCall"@),
        is_word("CallIndirect"@),
        is_word("ReturnCallIndirect"@),
        is_word("RefFunc"@),
        is_word("GlobalGet"@),
        is_word("GlobalSet"@),
        is_word("TableGet"@),
        is_word("TableSet"@),
        is_word("TableSize"@),
        is_word("TableGrow"@),
        is_word("TableFill"@),
        is_word("TableInit"@),
        is_word("TableCopy"@),
        is_word("MemoryInit"@),
        is_word("DataDrop"@),
        is_word("ElemDrop"@),
{
    reveal_strlit("LocalGet");
    reveal_strlit("Return");
    reveal_strlit("End");
    reveal_strlit("ReturnCall");
    reveal_strlit("CallIndirect");
    reveal_strlit("ReturnCallIndirect");
    reveal_strlit("RefFunc");
    reveal_strlit("GlobalGet");
    reveal_strlit("GlobalSet");
    reveal_strlit("TableGet");
    reveal_strlit("TableSet");
    reveal_strlit("TableSize");
    reveal_strlit("TableGrow");
    reveal_strlit("TableFill");
    reveal_strlit("TableInit");
    reveal_strlit("TableCopy");
    reveal_strlit("MemoryInit");
    reveal_strlit("DataDrop");
    reveal_strlit("ElemDrop");
}

/// An instruction that stubs consist of is taken for one.
pub(crate) proof fn lemma_stub_op_suits(op: OperatorView)
    requires
        is_stub_op(op),
    ensures
        suits_stub(op),
{
    lemma_words();
    if op.1 is None {
        if is_named(op.0, "LocalGet"@) {
            lemma_name_cut_out(op.0, "LocalGet"@);
        } else if is_named(op.0, "Return"@) {
            lemma_name_cut_out(op.0, "Return"@);
        } else {
            lemma_name_cut_out(op.0, "End"@);
        }
    }
}

/// An instruction that refers to a part of the module is taken for one.
proof fn lemma_refers(op: OperatorView)
    requires
        refers_to_part(op),
    ensures
        needs_reloc(op),
{
    lemma_words();
    if op.1 is None {
        if is_named(op.0, "ReturnCall"@) {
            lemma_name_cut_out(op.0, "ReturnCall"@);
        } else if is_named(op.0, "CallIndirect"@) {
            lemma_name_cut_out(op.0, "CallIndirect"@);
        } else if is_named(op.0, "ReturnCallIndirect"@) {
            lemma_name_cut_out(op.0, "ReturnCallIndirect"@);
        } else if is_named(op.0, "RefFunc"@) {
            lemma_name_cut_out(op.0, "RefFunc"@);
        } else if is_named(op.0, "GlobalGet"@) {
            lemma_name_cut_out(op.0, "GlobalGet"@);
        } else if is_named(op.0, "GlobalSet"@) {
            lemma_name_cut_out(op.0, "GlobalSet"@);
        } else if is_named(op.0, "TableGet"@) {
            lemma_name_cut_out(op.0, "TableGet"@);
        } else if is_named(op.0, "TableSet"@) {
            lemma_name_cut_out(op.0, "TableSet"@);
        } else if is_named(op.0, "TableSize"@) {
            lemma_name_cut_out(op.0, "TableSize"@);
        } else if is_named(op.0, "TableGrow"@) {
            lemma_name_cut_out(op.0, "TableGrow"@);
        } else if is_named(op.0, "TableFill"@) {
            lemma_name_cut_out(op.0, "TableFill"@);
        } else if is_named(op.0, "TableInit"@) {
            lemma_name_cut_out(op.0, "TableInit"@);
        } else if is_named(op.0, "TableCopy"@) {
            lemma_name_cut_out(op.0, "TableCopy"@);
        } else if is_named(op.0, "MemoryInit"@) {
            lemma_name_cut_out(op.0, "MemoryInit"@);
        } else if is_named(op.0, "DataDrop"@) {
            lemma_name_cut_out(op.0, "DataDrop"@);
        } else {
            lemma_name_cut_out(op.0, "ElemDrop"@);
        }
    }
}

/// The functions that instructions call, in order.
pub open spec fn callees(ops: Seq<(Seq<char>, Option<u32>)>) -> Seq<InputFuncId> {
    ops.filter(|op: (Seq<char>, Option<u32>)| op.1 is Some).map_values(
        |op: (Seq<char>, Option<u32>)| op.1->0 as usize,
    )
}

/// The functions that are found are those that are called.
proof fn lemma_called(ops: Seq<OperatorView>)
    ensures
        called(ops) == callees(ops),
    decreases ops.len(),
{
    reveal(Seq::filter);
    if ops.len() > 0 {
        lemma_called(ops.drop_last());
        let p = |op: (Seq<char>, Option<u32>)| op.1 is Some;
        let f = |op: (Seq<char>, Option<u32>)| op.1->0 as usize;
        let rest = ops.drop_last().filter(p);
        if p(ops.last()) {
            assert(ops.filter(p) == rest.push(ops.last()));
            assert(rest.push(ops.last()).map_values(f) =~= rest.map_values(f).push(f(ops.last())));
        } else {
            assert(ops.filter(p) == rest);
        }
    } else {
        assert(callees(ops) =~= Seq::empty());
    }
    assert(called(ops) =~= callees(ops));
}

/// An instruction that calls a function makes for a callee.
pub(crate) proof fn lemma_callees(ops: Seq<OperatorView>, i: int)
    requires
        0 <= i < ops.len(),
        ops[i].1 is Some,
    ensures
        called(ops).contains(ops[i].1->0 as usize),
    decreases ops.len(),
{
    let rest = ops.drop_last();
    if i < ops.len() - 1 {
        lemma_callees(rest, i);
        let j = choose|j: int|
            0 <= j < called(rest).len() && called(rest)[j] == ops[i].1->0 as usize;
        assert(called(ops)[j] == ops[i].1->0 as usize);
    } else {
        assert(called(ops)[called(rest).len() as int] == ops[i].1->0 as usize);
    }
}

/// A function that can be read, and only passes parameters on to functions that it calls, is a stub
/// that calls them. Nothing is counted.
pub proof fn lemma_stub_found(
    ops: Seq<(Seq<char>, Option<u32>)>,
    func: InputFuncId,
    before: Map<Seq<char>, (usize, InputFuncId)>,
    check: StubCheck,
    after: Map<Seq<char>, (usize, InputFuncId)>,
    i: int,
)
    requires
        checks(ops, false, func, before, check, after),
        forall|k: int| 0 <= k < ops.len() ==> is_stub_op(#[trigger] ops[k]),
        0 <= i < ops.len(),
        ops[i].1 is Some,
    ensures
        check matches StubCheck::Stub(found) && found@ == callees(ops),
        after == before,
{
    assert forall|k: int| 0 <= k < ops.len() implies suits_stub(#[trigger] ops[k]) by {
        lemma_stub_op_suits(ops[k]);
    }
    assert forall|k: int| !#[trigger] first_unexpected(ops, k) by {
        if 0 <= k < ops.len() {
            assert(suits_stub(ops[k]));
        }
    }
    lemma_callees(ops, i);
    lemma_called(ops);
}

/// Only a function that can be read, calls a function, and has no instruction but calls,
/// parameters, returns and ends is taken for a stub.
pub proof fn lemma_only_stubs(
    ops: Seq<(Seq<char>, Option<u32>)>,
    failed: bool,
    func: InputFuncId,
    before: Map<Seq<char>, (usize, InputFuncId)>,
    check: StubCheck,
    after: Map<Seq<char>, (usize, InputFuncId)>,
    k: int,
    name: Seq<char>,
)
    requires
        checks(ops, failed, func, before, check, after),
        check is Stub,
        0 <= k < ops.len(),
        is_named(ops[k].0, name),
        is_word(name),
    ensures
        !failed,
        ops[k].1 is Some || name == "LocalGet"@ || name == "Return"@ || name == "End"@,
        callees(ops).len() > 0,
        check->Stub_0@ == callees(ops),
{
    lemma_name_cut_out(ops[k].0, name);
    lemma_called(ops);
    assert(suits_stub(ops[k]));
}

/// A function that refers to a part of the module, and then does something that stubs do not, is no
/// stub. The instruction is counted under its name, with the first function that has it.
pub proof fn lemma_unexpected_counted(
    ops: Seq<(Seq<char>, Option<u32>)>,
    failed: bool,
    func: InputFuncId,
    before: Map<Seq<char>, (usize, InputFuncId)>,
    check: StubCheck,
    after: Map<Seq<char>, (usize, InputFuncId)>,
    i: int,
    j: int,
    name: Seq<char>,
)
    requires
        checks(ops, failed, func, before, check, after),
        0 <= i <= j < ops.len(),
        refers_to_part(ops[i]),
        forall|k: int| 0 <= k < j ==> is_stub_op(#[trigger] ops[k]),
        ops[j].1 is None,
        is_named(ops[j].0, name),
        is_word(name),
        name != "LocalGet"@ && name != "Return"@ && name != "End"@,
    ensures
        check is Other,
        after.contains_key(name),
        before.contains_key(name) ==> after[name].0 == (before[name].0 + 1) as usize
            && after[name].1 == before[name].1,
        !before.contains_key(name) ==> after[name] == (1usize, func),
        forall|other: Seq<char>|
            other != name ==> (#[trigger] after.contains_key(other) <==> before.contains_key(other)),
        forall|other: Seq<char>|
            other != name && #[trigger] after.contains_key(other) ==> after[other] == before[other],
{
    lemma_name_cut_out(ops[j].0, name);
    lemma_refers(ops[i]);
    assert(any_needs(ops, j + 1));
    assert(is_unexpected(ops, j));
    assert forall|k: int| 0 <= k < j implies !#[trigger] is_unexpected(ops, k) by {
        lemma_stub_op_suits(ops[k]);
    }
    assert(first_unexpected(ops, j));
    assert(any_unexpected(ops));
}

/// A function without an instruction that refers to a part of the module is no stub, and nothing is
/// counted for it. If it cannot be read, that is said.
pub proof fn lemma_nothing_missing(
    ops: Seq<(Seq<char>, Option<u32>)>,
    failed: bool,
    func: InputFuncId,
    before: Map<Seq<char>, (usize, InputFuncId)>,
    check: StubCheck,
    after: Map<Seq<char>, (usize, InputFuncId)>,
    names: Seq<Seq<char>>,
)
    requires
        checks(ops, failed, func, before, check, after),
        names.len() == ops.len(),
        forall|k: int|
            0 <= k < ops.len() ==> is_named((#[trigger] ops[k]).0, names[k]) && is_word(names[k])
                && !refers_to_part(ops[k]),
    ensures
        after == before,
        if failed {
            check is Unreadable
        } else {
            check is Other
        },
{
    assert forall|k: int| 0 <= k < ops.len() implies !needs_reloc(#[trigger] ops[k]) by {
        lemma_name_cut_out(ops[k].0, names[k]);
        assert(short_name(ops[k].0) == names[k]);
    }
    assert forall|k: int| !#[trigger] first_unexpected(ops, k) by {
        if 0 <= k < ops.len() {
            assert(!any_needs(ops, k + 1));
        }
    }
    lemma_called(ops);
    assert(stub_targets(ops) is None) by {
        if called(ops).len() > 0 {
            lemma_called_from(ops);
        }
    }
}

/// A callee is called by an instruction.
pub(crate) proof fn lemma_called_from(ops: Seq<OperatorView>)
    requires
        called(ops).len() > 0,
    ensures
        exists|i: int| 0 <= i < ops.len() && (#[trigger] ops[i]).1 is Some,
    decreases ops.len(),
{
    if ops.len() > 0 {
        if ops.last().1 is Some {
            assert(ops[ops.len() - 1].1 is Some);
        } else {
            lemma_called_from(ops.drop_last());
            let i = choose|i: int|
                0 <= i < ops.drop_last().len() && (#[trigger] ops.drop_last()[i]).1 is Some;
            assert(ops[i].1 is Some);
        }
    }
}

/// Whether a character can be in the name of an instruction: an ASCII letter or digit, an
/// underscore, or a letter or number beyond ASCII.
pub open spec fn is_in_name(c: char) -> bool {
    if (c as u32) < 128 {
        ('a' <= c && c <= 'z') || ('A' <= c && c <= 'Z') || ('0' <= c && c <= '9') || c == '_'
    } else {
        is_letter_or_number(c)
    }
}

/// Whether a printed instruction begins with a name, and the name ends there.
pub open spec fn begins(text: Seq<char>, name: Seq<char>) -> bool {
    &&& name.len() <= text.len()
    &&& text.take(name.len() as int) == name
    &&& forall|i: int| 0 <= i < name.len() ==> is_in_name(#[trigger] name[i])
    &&& text.len() == name.len() || !is_in_name(text[name.len() as int])
}

/// The name that a printed instruction begins with is what is cut out of it.
proof fn lemma_begins(text: Seq<char>, name: Seq<char>)
    ensures
        begins(text, name) <==> name == short_name(text),
{
    lemma_name_end(text);
    if begins(text, name) {
        let n = name.len() as int;
        assert forall|i: int| 0 <= i < n implies is_name_char(#[trigger] text[i]) by {
            assert(text.take(n)[i] == name[i]);
            assert(is_in_name(name[i]));
        }
        lemma_name_len(text, n);
    }
    if name == short_name(text) {
        assert(text.take(name.len() as int) =~= name);
        assert forall|i: int| 0 <= i < name.len() implies is_in_name(#[trigger] name[i]) by {
            assert(is_name_char(text[i]));
        }
    }
}

/// Where the name of an instruction ends.
proof fn lemma_name_end(text: Seq<char>)
    ensures
        0 <= name_len(text) <= text.len(),
        forall|i: int| 0 <= i < name_len(text) ==> is_name_char(#[trigger] text[i]),
        name_len(text) < text.len() ==> !is_name_char(text[name_len(text)]),
    decreases text.len(),
{
    if text.len() > 0 && is_name_char(text[0]) {
        let rest = text.drop_first();
        lemma_name_end(rest);
        assert forall|i: int| 0 <= i < name_len(text) implies is_name_char(#[trigger] text[i]) by {
            if i > 0 {
                assert(text[i] == rest[i - 1]);
            }
        }
    }
}

/// Whether an instruction is a call, a parameter, a return, or an end.
pub open spec fn passes_on(op: (Seq<char>, Option<u32>)) -> bool {
    op.1 is Some || begins(op.0, "LocalGet"@) || begins(op.0, "Return"@) || begins(op.0, "End"@)
}

/// Whether an instruction is one of those that use a function, a global, a table, a data segment or
/// an element segment.
pub open spec fn uses_part(op: (Seq<char>, Option<u32>)) -> bool {
    ||| op.1 is Some
    ||| begins(op.0, "ReturnCall"@)
    ||| begins(op.0, "CallIndirect"@)
    ||| begins(op.0, "ReturnCallIndirect"@)
    ||| begins(op.0, "RefFunc"@)
    ||| begins(op.0, "GlobalGet"@)
    ||| begins(op.0, "GlobalSet"@)
    ||| begins(op.0, "TableGet"@)
    ||| begins(op.0, "TableSet"@)
    ||| begins(op.0, "TableSize"@)
    ||| begins(op.0, "TableGrow"@)
    ||| begins(op.0, "TableFill"@)
    ||| begins(op.0, "TableInit"@)
    ||| begins(op.0, "TableCopy"@)
    ||| begins(op.0, "MemoryInit"@)
    ||| begins(op.0, "DataDrop"@)
    ||| begins(op.0, "ElemDrop"@)
}

/// Whether an instruction does something that stubs do not, and it or one before it uses a part of
/// the module.
pub open spec fn is_missing_at(ops: Seq<(Seq<char>, Option<u32>)>, j: int) -> bool {
    &&& 0 <= j < ops.len()
    &&& !passes_on(ops[j])
    &&& exists|i: int| 0 <= i <= j && uses_part(#[trigger] ops[i])
}

/// Whether the first instruction of that kind has a name.
pub open spec fn is_missing(ops: Seq<(Seq<char>, Option<u32>)>, name: Seq<char>) -> bool {
    exists|j: int|
        {
            &&& #[trigger] is_missing_at(ops, j)
            &&& forall|k: int| 0 <= k < j ==> !#[trigger] is_missing_at(ops, k)
            &&& begins(ops[j].0, name)
        }
}

/// What instructions are taken for.
pub(crate) proof fn lemma_passes_on(op: OperatorView)
    ensures
        passes_on(op) <==> suits_stub(op),
        uses_part(op) <==> needs_reloc(op),
{
    lemma_begins(op.0, "LocalGet"@);
    lemma_begins(op.0, "Return"@);
    lemma_begins(op.0, "End"@);
    lemma_begins(op.0, "ReturnCall"@);
    lemma_begins(op.0, "CallIndirect"@);
    lemma_begins(op.0, "ReturnCallIndirect"@);
    lemma_begins(op.0, "RefFunc"@);
    lemma_begins(op.0, "GlobalGet"@);
    lemma_begins(op.0, "GlobalSet"@);
    lemma_begins(op.0, "TableGet"@);
    lemma_begins(op.0, "TableSet"@);
    lemma_begins(op.0, "TableSize"@);
    lemma_begins(op.0, "TableGrow"@);
    lemma_begins(op.0, "TableFill"@);
    lemma_begins(op.0, "TableInit"@);
    lemma_begins(op.0, "TableCopy"@);
    lemma_begins(op.0, "MemoryInit"@);
    lemma_begins(op.0, "DataDrop"@);
    lemma_begins(op.0, "ElemDrop"@);
}

/// Which instructions are unexpected.
pub(crate) proof fn lemma_missing(ops: Seq<OperatorView>, name: Seq<char>)
    ensures
        is_missing(ops, name) <==> exists|j: int| #[trigger]
            first_unexpected(ops, j) && short_name(ops[j].0) == name,
        forall|i: int, j: int| #[trigger]
            first_unexpected(ops, i) && #[trigger] first_unexpected(ops, j) ==> i == j,
{
    assert forall|j: int| #[trigger] is_missing_at(ops, j) <==> 0 <= j < ops.len() && is_unexpected(
        ops,
        j,
    ) by {
        if 0 <= j < ops.len() {
            lemma_passes_on(ops[j]);
            if exists|i: int| 0 <= i <= j && uses_part(#[trigger] ops[i]) {
                let i = choose|i: int| 0 <= i <= j && uses_part(#[trigger] ops[i]);
                lemma_passes_on(ops[i]);
                assert(needs_reloc(ops[i]));
            }
            if any_needs(ops, j + 1) {
                let i = choose|i: int| 0 <= i < j + 1 && needs_reloc(#[trigger] ops[i]);
                lemma_passes_on(ops[i]);
                assert(uses_part(ops[i]));
            }
        }
    }
    if is_missing(ops, name) {
        let j = choose|j: int|
            {
                &&& #[trigger] is_missing_at(ops, j)
                &&& forall|k: int| 0 <= k < j ==> !#[trigger] is_missing_at(ops, k)
                &&& begins(ops[j].0, name)
            };
        lemma_begins(ops[j].0, name);
        assert forall|k: int| 0 <= k < j implies !#[trigger] is_unexpected(ops, k) by {
            assert(!is_missing_at(ops, k));
        }
        assert(first_unexpected(ops, j));
    }
    if exists|j: int| #[trigger] first_unexpected(ops, j) && short_name(ops[j].0) == name {
        let j = choose|j: int| #[trigger]
            first_unexpected(ops, j) && short_name(ops[j].0) == name;
        lemma_begins(ops[j].0, name);
        assert(is_missing_at(ops, j));
        assert forall|k: int| 0 <= k < j implies !#[trigger] is_missing_at(ops, k) by {
            assert(!is_unexpected(ops, k));
        }
    }
    assert forall|i: int, j: int| #[trigger]
        first_unexpected(ops, i) && #[trigger] first_unexpected(ops, j) implies i == j by {
        if i < j {
            assert(!is_unexpected(ops, i));
        } else if j < i {
            assert(!is_unexpected(ops, j));
        }
    }
}

/// A function with an instruction that shows that relocations are missing is no stub, and the first
/// such instruction is counted. Otherwise nothing is counted, and the function is a stub if it can
/// be read, calls functions, and does nothing but that.
pub proof fn lemma_checked(
    ops: Seq<(Seq<char>, Option<u32>)>,
    failed: bool,
    func: InputFuncId,
    before: Map<Seq<char>, (usize, InputFuncId)>,
    check: StubCheck,
    after: Map<Seq<char>, (usize, InputFuncId)>,
    name: Seq<char>,
)
    requires
        checks(ops, failed, func, before, check, after),
    ensures
        is_missing(ops, name) ==> {
            &&& check is Other
            &&& after.dom() == before.dom().insert(name)
            &&& after[name] == if before.contains_key(name) {
                ((before[name].0 + 1) as usize, before[name].1)
            } else {
                (1usize, func)
            }
            &&& forall|other: Seq<char>|
                other != name && #[trigger] before.contains_key(other) ==> after[other]
                    == before[other]
        },
        (forall|n: Seq<char>| !#[trigger] is_missing(ops, n)) ==> {
            &&& after == before
            &&& if failed {
                check is Unreadable
            } else if callees(ops).len() > 0 && forall|k: int|
                0 <= k < ops.len() ==> passes_on(#[trigger] ops[k]) {
                check matches StubCheck::Stub(found) && found@ == callees(ops)
            } else {
                check is Other
            }
        },
{
    lemma_missing(ops, name);
    if is_missing(ops, name) {
        let j = choose|j: int| #[trigger]
            first_unexpected(ops, j) && short_name(ops[j].0) == name;
        assert(after == counted(before, name, func));
        assert(after.dom() =~= before.dom().insert(name));
    }
    if forall|n: Seq<char>| !#[trigger] is_missing(ops, n) {
        if any_unexpected(ops) {
            let j = choose|j: int| #[trigger] first_unexpected(ops, j);
            lemma_missing(ops, short_name(ops[j].0));
            assert(is_missing(ops, short_name(ops[j].0)));
        }
        lemma_called(ops);
        assert forall|k: int| 0 <= k < ops.len() implies (passes_on(#[trigger] ops[k])
            <==> suits_stub(ops[k])) by {
            lemma_passes_on(ops[k]);
        }
    }
}

} // verus!
