//! How modules are named, ordered and joined.
use crate::dep_graph::DepNode;
use crate::keyed::KeySet;
use crate::names::NameSet;
use crate::order::{increasing, lemma_names_total, lex_at, names_less};
use crate::read::InputModule;
use crate::split_point::identifier::{
    join, lemma_module_for_one, module_for, modules_less, ModuleId, SplitModuleIdentifier,
};
use crate::split_point::output::ids;
use crate::split_point::program::{splits, SplitProgramInfo};
use crate::split_point::roots::SplitPoint;
use crate::text::hexadecimal;
use crate::text_laws::{is_hexadecimal, lemma_hexadecimal, number};
use std::collections::hash_map::DefaultHasher;
use vstd::prelude::*;
use vstd::std_specs::hash::DefaultHasherAdditionalSpecFns;
use vstd::string::*;
use vstd::utf8::encode_utf8;

verus! {

/// Whether a name comes before another: where their bytes first differ, it has the smaller one, or
/// it ends.
pub open spec fn comes_before(a: Seq<char>, b: Seq<char>) -> bool {
    let x = encode_utf8(a);
    let y = encode_utf8(b);
    exists|n: int|
        {
            &&& 0 <= n <= x.len()
            &&& n < y.len()
            &&& #[trigger] x.take(n) == y.take(n)
            &&& n < x.len() ==> x[n] < y[n]
        }
}

/// Names are ordered by their bytes.
proof fn lemma_comes_before(a: Seq<char>, b: Seq<char>)
    requires
        names_less()(a, b),
    ensures
        comes_before(a, b),
{
    let x = encode_utf8(a);
    let y = encode_utf8(b);
    let n = choose|n: int| lex_at(crate::order::byte_less(), x, y, n);
    assert(x.take(n) =~= y.take(n)) by {
        assert forall|j: int| 0 <= j < n implies #[trigger] x.take(n)[j] == y.take(n)[j] by {
            assert(x[j] == y[j]);
        }
    }
}

/// Whether lists of names are in order: where they first differ, the first one has the smaller
/// name, or it ends.
pub open spec fn list_before(a: Seq<Seq<char>>, b: Seq<Seq<char>>) -> bool {
    exists|n: int|
        {
            &&& 0 <= n <= a.len()
            &&& n < b.len()
            &&& #[trigger] a.take(n) == b.take(n)
            &&& n < a.len() ==> comes_before(a[n], b[n])
        }
}

/// The main module comes first, then the declared ones in the order of their names, and then the
/// shared ones in the order of their lists of names. The names in such a list are in order, too.
pub proof fn lemma_modules_ordered(
    module: &InputModule,
    graph: Map<DepNode, KeySet<DepNode>>,
    points: Seq<SplitPoint>,
    version: Seq<u8>,
    info: SplitProgramInfo,
    i: int,
    j: int,
)
    requires
        splits(module, graph, points, version, info),
        0 <= i < j < info.output_modules@.len(),
    ensures
        match (info.output_modules@[i].0, info.output_modules@[j].0) {
            (_, SplitModuleIdentifier::Main) => false,
            (SplitModuleIdentifier::Main, _) => true,
            (
                SplitModuleIdentifier::Split(a),
                SplitModuleIdentifier::Split(b),
            ) => comes_before(a@, b@),
            (SplitModuleIdentifier::Split(_), SplitModuleIdentifier::Chunk(_)) => true,
            (SplitModuleIdentifier::Chunk(_), SplitModuleIdentifier::Split(_)) => false,
            (
                SplitModuleIdentifier::Chunk(a),
                SplitModuleIdentifier::Chunk(b),
            ) => list_before(a@, b@),
        },
{
    let all = ids(info.output_modules@);
    assert(modules_less()(all[i], all[j]));
    match (info.output_modules@[i].0, info.output_modules@[j].0) {
        (SplitModuleIdentifier::Split(a), SplitModuleIdentifier::Split(b)) => {
            lemma_comes_before(a@, b@);
        },
        (SplitModuleIdentifier::Chunk(a), SplitModuleIdentifier::Chunk(b)) => {
            let n = choose|n: int| lex_at(names_less(), a@, b@, n);
            assert(a@.take(n) =~= b@.take(n)) by {
                assert forall|k: int| 0 <= k < n implies #[trigger] a@.take(n)[k] == b@.take(
                    n,
                )[k] by {
                    assert(a@[k] == b@[k]);
                }
            }
            if n < a@.len() {
                lemma_comes_before(a@[n], b@[n]);
            }
        },
        _ => {},
    }
}

/// The names of those who share a module are in order.
pub proof fn lemma_sharers_ordered(
    module: &InputModule,
    graph: Map<DepNode, KeySet<DepNode>>,
    points: Seq<SplitPoint>,
    version: Seq<u8>,
    info: SplitProgramInfo,
    i: int,
    sharers: NameSet,
    a: int,
    b: int,
)
    requires
        splits(module, graph, points, version, info),
        0 <= i < info.output_modules@.len(),
        info.output_modules@[i].0 == SplitModuleIdentifier::Chunk(sharers),
        0 <= a < b < sharers@.len(),
    ensures
        comes_before(sharers@[a], sharers@[b]),
{
    assert(info.output_modules@[i].0.wf());
    assert(names_less()(sharers@[a], sharers@[b]));
    lemma_comes_before(sharers@[a], sharers@[b]);
}

/// It is known of every part that is in a module where it is.
pub proof fn lemma_positions_known(
    module: &InputModule,
    graph: Map<DepNode, KeySet<DepNode>>,
    points: Seq<SplitPoint>,
    version: Seq<u8>,
    info: SplitProgramInfo,
    i: int,
    v: DepNode,
)
    requires
        splits(module, graph, points, version, info),
    ensures
        0 <= i < info.output_modules@.len() && info.output_modules@[i].1.included_symbols@.contains(
            v,
        ) ==> info.symbol_output_module@.contains_key(v) && info.symbol_output_module@[v] == i,
        info.symbol_output_module@.contains_key(v) ==> info.symbol_output_module@[v]
            < info.output_modules@.len()
            && info.output_modules@[info.symbol_output_module@[v] as int].1.included_symbols@.contains(
        v),
{
    let positions = info.symbol_output_module@;
    if 0 <= i < info.output_modules@.len() && info.output_modules@[i].1.included_symbols@.contains(
        v,
    ) {
        assert(positions.contains_key(v));
        let j = positions[v] as int;
        assert(crate::split_point::laws::holds(info, i, v));
        assert(crate::split_point::laws::holds(info, j, v));
        crate::split_point::laws::lemma_placed_once(module, graph, points, version, info, i, j, v);
    }
}

/// The name that tells programs apart is a fixed text and a hexadecimal number of at most 64 bits,
/// which is the hash of the version and the bytes of the program.
pub proof fn lemma_canary_text(
    module: &InputModule,
    graph: Map<DepNode, KeySet<DepNode>>,
    points: Seq<SplitPoint>,
    version: Seq<u8>,
    info: SplitProgramInfo,
)
    requires
        splits(module, graph, points, version, info),
    ensures
        ({
            let name = info.canary_export_name@;
            &&& name.len() > 9
            &&& name.take(9) == "__canary_"@
            &&& number(name.skip(9), 16) == DefaultHasher::spec_finish(seq![version, module.raw@])
            &&& forall|k: int| 9 <= k < name.len() ==> is_hexadecimal(#[trigger] name[k])
        }),
{
    let name = info.canary_export_name@;
    let hash = DefaultHasher::spec_finish(seq![version, module.raw@]) as nat;
    lemma_hexadecimal(hash);
    reveal_strlit("__canary_");
    assert(name.take(9) =~= "__canary_"@);
    assert(name.skip(9) =~= hexadecimal(hash));
    assert forall|k: int| 9 <= k < name.len() implies is_hexadecimal(#[trigger] name[k]) by {
        assert(name[k] == hexadecimal(hash)[k - 9]);
    }
}

/// Whether a module is needed by a declared one.
pub open spec fn needs(id: SplitModuleIdentifier, name: Seq<char>) -> bool {
    match id {
        SplitModuleIdentifier::Main => false,
        SplitModuleIdentifier::Split(own) => own@ == name,
        SplitModuleIdentifier::Chunk(sharers) => exists|k: int|
            0 <= k < sharers@.len() && #[trigger] sharers@[k] == name,
    }
}

/// What is needed is the names of a module.
proof fn lemma_needs(id: SplitModuleIdentifier, name: Seq<char>)
    ensures
        needs(id, name) <==> id@.names().contains(name),
{
    if let SplitModuleIdentifier::Chunk(sharers) = id {
        if sharers@.contains(name) {
            let k = choose|k: int| 0 <= k < sharers@.len() && sharers@[k] == name;
            assert(sharers@[k] == name);
        }
    }
}

/// What two modules need goes into the main module if one of them is that. Otherwise it goes into
/// the module for all who need one of the two, which is a declared one if that is the only one.
pub proof fn lemma_joined(
    before: SplitModuleIdentifier,
    other: SplitModuleIdentifier,
    after: SplitModuleIdentifier,
    name: Seq<char>,
)
    requires
        before.wf(),
        other.wf(),
        after.wf(),
        after@ == join(before@, other@),
    ensures
        after is Main <==> before is Main || other is Main,
        !(after is Main) ==> (needs(after, name) <==> needs(before, name) || needs(other, name)),
        match after {
            SplitModuleIdentifier::Chunk(sharers) => sharers@.len() != 1,
            _ => true,
        },
{
    if !(before is Main) && !(other is Main) {
        lemma_needs(before, name);
        lemma_needs(other, name);
        lemma_needs(after, name);
        let names = before@.names().union(other@.names());
        assert(after@ == module_for(names));
        if exists|n: Seq<char>| names == set![n] {
            let n = choose|n: Seq<char>| names == set![n];
            lemma_module_for_one(n);
        } else {
            lemma_all_listed(before, other);
            let s = crate::names::listing(names);
            assert(after@ == ModuleId::Chunk(s));
            assert(s.to_set() == names);
            if s.len() == 1 {
                assert(s.to_set() =~= set![s[0]]) by {
                    assert forall|m: Seq<char>| s.to_set().contains(m) <==> m == s[0] by {
                        if s.contains(m) {
                            let k = choose|k: int| 0 <= k < s.len() && s[k] == m;
                        }
                        assert(s.contains(s[0]));
                    }
                }
            }
        }
    }
}

/// The names of two modules can be listed in order.
proof fn lemma_all_listed(a: SplitModuleIdentifier, b: SplitModuleIdentifier)
    requires
        a.wf(),
        b.wf(),
    ensures
        ({
            let names = a@.names().union(b@.names());
            let s = crate::names::listing(names);
            increasing(names_less(), s) && s.to_set() == names
        }),
{
    let x = lemma_listed(a);
    let names = a@.names().union(b@.names());
    let y = lemma_listed(b);
    let s = lemma_merged(x, y, y.len() as int);
    assert(y.take(y.len() as int) =~= y);
    assert(increasing(names_less(), s) && s.to_set() == names);
}

/// The names of a module in order.
proof fn lemma_listed(id: SplitModuleIdentifier) -> (s: Seq<Seq<char>>)
    requires
        id.wf(),
    ensures
        increasing(names_less(), s),
        s.to_set() == id@.names(),
{
    match id {
        SplitModuleIdentifier::Main => {
            let s = Seq::<Seq<char>>::empty();
            assert(s.to_set() =~= Set::empty());
            s
        },
        SplitModuleIdentifier::Split(name) => {
            let s = seq![name@];
            assert(s.to_set() =~= set![name@]) by {
                assert(s.contains(s[0]));
            }
            s
        },
        SplitModuleIdentifier::Chunk(sharers) => sharers@,
    }
}

/// Names in order, and the first `n` of others, in order.
proof fn lemma_merged(x: Seq<Seq<char>>, y: Seq<Seq<char>>, n: int) -> (s: Seq<Seq<char>>)
    requires
        increasing(names_less(), x),
        0 <= n <= y.len(),
    ensures
        increasing(names_less(), s),
        s.to_set() == x.to_set().union(y.take(n).to_set()),
    decreases n,
{
    if n == 0 {
        assert(y.take(0).to_set() =~= Set::empty());
        assert(x.to_set() =~= x.to_set().union(y.take(0).to_set()));
        x
    } else {
        let before = lemma_merged(x, y, n - 1);
        let s = lemma_added(before, y[n - 1], before.len() as int);
        crate::keyed::lemma_take_to_set(y, n - 1);
        assert(s.to_set() =~= x.to_set().union(y.take(n).to_set()));
        s
    }
}

/// Names in order, and one more, in order. Those from `n` on come behind it.
proof fn lemma_added(x: Seq<Seq<char>>, name: Seq<char>, n: int) -> (s: Seq<Seq<char>>)
    requires
        increasing(names_less(), x),
        0 <= n <= x.len(),
        forall|i: int| n <= i < x.len() ==> names_less()(name, #[trigger] x[i]),
    ensures
        increasing(names_less(), s),
        s.to_set() == x.to_set().insert(name),
    decreases n,
{
    lemma_names_total();
    let less = names_less();
    if n > 0 && x[n - 1] == name {
        assert(x.contains(name));
        assert(x.to_set().insert(name) =~= x.to_set());
        x
    } else if n > 0 && less(name, x[n - 1]) {
        lemma_added(x, name, n - 1)
    } else {
        let s = x.insert(n, name);
        assert forall|i: int| 0 <= i < n implies less(#[trigger] x[i], name) by {
            assert(less(x[n - 1], name) || less(name, x[n - 1]) || x[n - 1] == name);
            if i < n - 1 {
                assert(less(x[i], x[n - 1]));
            }
        }
        assert forall|i: int, j: int| 0 <= i < j < s.len() implies less(
            #[trigger] s[i],
            #[trigger] s[j],
        ) by {
            let a = if i < n {
                i
            } else {
                i - 1
            };
            let b = if j < n {
                j
            } else {
                j - 1
            };
            if i == n {
                assert(less(name, x[b]));
            } else if j == n {
                assert(less(x[a], name));
            } else {
                assert(less(x[a], x[b]));
            }
        }
        assert forall|m: Seq<char>| #[trigger] s.to_set().contains(m) <==> x.to_set().insert(
            name,
        ).contains(m) by {
            if s.contains(m) {
                let k = choose|k: int| 0 <= k < s.len() && s[k] == m;
                if k < n {
                    assert(x[k] == m);
                } else if k > n {
                    assert(x[k - 1] == m);
                }
            }
            if x.contains(m) {
                let k = choose|k: int| 0 <= k < x.len() && x[k] == m;
                if k < n {
                    assert(s[k] == m);
                } else {
                    assert(s[k + 1] == m);
                }
            }
            assert(s[n] == name);
        }
        assert(s.to_set() =~= x.to_set().insert(name));
        s
    }
}

} // verus!
