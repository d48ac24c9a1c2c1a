//! What the script that links split modules does with each part and each module of a program.
use crate::dep_graph::DepNode;
use crate::js::{
    are_reexported, chunk_files, chunk_text, chunk_vars, chunks_text, declared_from, is_chunk_of,
    joined, link_text, links, list_of, loader_text, loaders_text, main_position, own_file,
    shares_text, EmitState, Modules, Snippets,
};
use crate::names::texts;
use crate::split_point::identifier::{lemma_modules_total, modules_less, ModuleId};
use crate::split_point::output::{ids, in_order};
use crate::split_point::{OutputModuleInfo, SplitModuleIdentifier, SplitProgramInfo};
use crate::text::decimal;
use vstd::prelude::*;
use vstd::string::*;

verus! {

/// Whether a part of the main module is one that other modules get through the script.
pub open spec fn is_handed_out(info: &SplitProgramInfo, main: OutputModuleInfo, d: DepNode) -> bool {
    info.shared_deps@.contains(d) && main.included_symbols@.contains(d) && match d {
        DepNode::Global(_) | DepNode::Table(_) | DepNode::Tag(_) | DepNode::Memory(_) => true,
        DepNode::Function(_) | DepNode::DataSymbol(_) => false,
    }
}

/// The names of parts, each followed by a comma.
pub open spec fn named(names: Map<DepNode, String>, deps: Seq<DepNode>) -> Seq<char>
    decreases deps.len(),
{
    if deps.len() == 0 {
        Seq::empty()
    } else {
        names[deps[0]]@ + ", "@ + named(names, deps.drop_first())
    }
}

/// Names can be listed from either end.
proof fn lemma_named(names: Map<DepNode, String>, deps: Seq<DepNode>)
    ensures
        shares_text(names, deps) == named(names, deps),
    decreases deps.len(),
{
    if deps.len() > 0 {
        let front = deps.drop_last();
        lemma_named(names, front);
        if deps.len() == 1 {
            assert(front =~= Seq::<DepNode>::empty());
            assert(deps.drop_first() =~= Seq::<DepNode>::empty());
            assert(shares_text(names, deps) =~= named(names, deps));
        } else {
            let back = deps.drop_first();
            lemma_named(names, back);
            lemma_named(names, back.drop_last());
            assert(back.drop_last() =~= front.drop_first());
            assert(shares_text(names, deps) =~= named(names, front) + names[deps.last()]@ + ", "@);
            assert(named(names, front) =~= names[deps[0]]@ + ", "@ + named(
                names,
                back.drop_last(),
            ));
            assert(named(names, back) =~= named(names, back.drop_last()) + names[deps.last()]@
                + ", "@);
            assert(shares_text(names, deps) =~= named(names, deps));
        }
    }
}

/// A listed part has its name in the list, followed by a comma.
proof fn lemma_named_at(names: Map<DepNode, String>, deps: Seq<DepNode>, k: int)
    requires
        0 <= k < deps.len(),
    ensures
        exists|a: Seq<char>, b: Seq<char>|
            named(names, deps) == #[trigger] (a + (names[deps[k]]@ + ", "@) + b),
    decreases deps.len(),
{
    let rest = deps.drop_first();
    if k == 0 {
        let a = Seq::<char>::empty();
        assert(named(names, deps) =~= a + (names[deps[k]]@ + ", "@) + named(names, rest));
    } else {
        lemma_named_at(names, rest, k - 1);
        let (a, b) = choose|a: Seq<char>, b: Seq<char>|
            named(names, rest) == #[trigger] (a + (names[rest[k - 1]]@ + ", "@) + b);
        let c = names[deps[0]]@ + ", "@ + a;
        assert(named(names, deps) =~= c + (names[deps[k]]@ + ", "@) + b);
    }
}

/// What the script checks modules with.
pub open spec fn checked(info: &SplitProgramInfo, state: &EmitState) -> Seq<char> {
    if state.input_module.options.debug_assertions {
        info.canary_export_name@ + ": ~0xdead,"@
    } else {
        Seq::empty()
    }
}

/// What comes before the list of what the main module hands out.
pub open spec fn head(path: Seq<char>, info: &SplitProgramInfo, state: &EmitState) -> Seq<char> {
    "import { initSync } from \""@ + path + "\";\n"@
        + "let sharedImports = undefined;\nfunction getSharedImports() {\n    if (sharedImports === undefined) {\n        sharedImports = { __wasm_split: { "@
        + checked(info, state)
        + " } };\n        const mainExports = initSync(undefined, undefined);\n        const { "@
}

/// What comes after it.
pub open spec fn hand_out(list: Seq<char>) -> Seq<char> {
    " } = mainExports;\n        Object.assign(sharedImports.__wasm_split, { "@ + list
        + " });\n    }\n    return sharedImports;\n}\n"@
}

/// The fixed parts of the script.
pub open spec fn fixed(state: &EmitState, snippets: Snippets) -> Seq<char> {
    if state.input_module.options.debug_assertions {
        snippets.split_wasm@ + snippets.make_fetch_debug@
    } else {
        snippets.split_wasm@ + snippets.make_fetch@
    }
}

/// Lines one behind the other.
pub open spec fn all_of(lines: Seq<Seq<char>>) -> Seq<char>
    decreases lines.len(),
{
    if lines.len() == 0 {
        Seq::empty()
    } else {
        all_of(lines.drop_last()) + lines.last()
    }
}

/// Texts with a comma between each two.
pub open spec fn commas(parts: Seq<Seq<char>>) -> Seq<char>
    decreases parts.len(),
{
    if parts.len() == 0 {
        Seq::empty()
    } else if parts.len() == 1 {
        parts[0]
    } else {
        parts[0] + ", "@ + commas(parts.drop_first())
    }
}

/// Texts can be joined from either end.
proof fn lemma_commas(parts: Seq<Seq<char>>)
    ensures
        joined(parts) == commas(parts),
    decreases parts.len(),
{
    if parts.len() > 1 {
        let front = parts.drop_last();
        let back = parts.drop_first();
        lemma_commas(front);
        lemma_commas(back);
        if parts.len() == 2 {
            assert(joined(front) == parts[0]);
            assert(commas(back) == parts[1]);
            assert(joined(parts) =~= commas(parts));
        } else {
            lemma_commas(back.drop_last());
            assert(back.drop_last() =~= front.drop_first());
            assert(commas(front) =~= parts[0] + ", "@ + commas(back.drop_last()));
            assert(joined(back) =~= joined(back.drop_last()) + ", "@ + parts.last());
            assert(joined(parts) =~= commas(parts));
        }
    }
}

/// `chunks` are the positions of the modules that the declared module `name` shares with others.
pub open spec fn are_chunks(modules: Modules, name: Seq<char>, chunks: Seq<int>) -> bool {
    &&& forall|i: int, j: int| 0 <= i < j < chunks.len() ==> #[trigger] chunks[i] < #[trigger] chunks[j]
    &&& forall|m: int| #[trigger]
        chunks.contains(m) <==> 0 <= m < modules.len() && (modules[m].0 matches
            SplitModuleIdentifier::Chunk(names) && names@.contains(name))
}

/// The loaders of shared modules, each the name of a variable.
pub open spec fn variables(chunks: Seq<int>) -> Seq<Seq<char>> {
    Seq::new(chunks.len(), |j: int| "__chunk_"@ + decimal(chunks[j] as nat))
}

/// What is loaded for a module: nothing if it is empty, and otherwise a file next to the script.
pub open spec fn loaded(empty: bool, file: Seq<char>) -> Seq<char> {
    if empty {
        "undefined"@
    } else {
        "new URL(\"./"@ + file + ".wasm\", import.meta.url)"@
    }
}

/// The line of a shared module, which says who shares it.
pub open spec fn is_chunk_line(modules: Modules, m: int, line: Seq<char>) -> bool {
    match modules[m].0 {
        SplitModuleIdentifier::Chunk(names) => line == "/* "@ + commas(names@) + " */\n"@
            + "const __chunk_"@ + decimal(m as nat) + " = makeLoad("@ + loaded(
            modules[m].1.is_empty,
            "chunk_"@ + decimal(m as nat),
        ) + ", []);\n"@,
        SplitModuleIdentifier::Main | SplitModuleIdentifier::Split(_) => line == Seq::<
            char,
        >::empty(),
    }
}

/// The line of a declared module, which loads what it shares with others, too.
pub open spec fn is_loader_line(modules: Modules, m: int, line: Seq<char>) -> bool {
    match modules[m].0 {
        SplitModuleIdentifier::Split(name) => exists|chunks: Seq<int>| #[trigger]
            are_chunks(modules, name@, chunks) && line == "export const __wasm_split_load_"@ + name@
                + " = wrapAsyncCb(makeLoad("@ + loaded(modules[m].1.is_empty, "split_"@ + name@)
                + ", ["@ + commas(variables(chunks)) + "]));\n"@,
        SplitModuleIdentifier::Main | SplitModuleIdentifier::Chunk(_) => line == Seq::<
            char,
        >::empty(),
    }
}

/// The positions of the modules that a declared module shares with others, among the first `n`.
proof fn lemma_chunk_vars(modules: Modules, n: int, name: Seq<char>) -> (chunks: Seq<int>)
    requires
        0 <= n <= modules.len(),
    ensures
        forall|i: int, j: int|
            0 <= i < j < chunks.len() ==> #[trigger] chunks[i] < #[trigger] chunks[j],
        forall|m: int| #[trigger]
            chunks.contains(m) <==> 0 <= m < n && (modules[m].0 matches
                SplitModuleIdentifier::Chunk(names) && names@.contains(name)),
        chunk_vars(modules, n, name) == variables(chunks),
    decreases n,
{
    if n == 0 {
        let chunks = Seq::<int>::empty();
        assert(chunk_vars(modules, n, name) =~= variables(chunks));
        chunks
    } else {
        let before = lemma_chunk_vars(modules, n - 1, name);
        assert forall|i: int| 0 <= i < before.len() implies #[trigger] before[i] < n - 1 by {
            assert(before.contains(before[i]));
        }
        if is_chunk_of(modules, n - 1, name) {
            let chunks = before.push(n - 1);
            assert forall|m: int| #[trigger] chunks.contains(m) <==> before.contains(m) || m == n
                - 1 by {
                if before.contains(m) {
                    let j = choose|j: int| 0 <= j < before.len() && before[j] == m;
                    assert(chunks[j] == m);
                }
                assert(chunks[before.len() as int] == n - 1);
            }
            assert(chunk_vars(modules, n, name) =~= variables(chunks));
            chunks
        } else {
            before
        }
    }
}

/// The line of a shared module.
proof fn lemma_chunk_line(modules: Modules, m: int)
    requires
        0 <= m < modules.len(),
    ensures
        is_chunk_line(modules, m, chunk_text(modules, m)),
{
    reveal_strlit("const ");
    reveal_strlit("__chunk_");
    reveal_strlit("const __chunk_");
    reveal_strlit("new URL(");
    reveal_strlit("\"./");
    reveal_strlit("new URL(\"./");
    reveal_strlit(".wasm\"");
    reveal_strlit(", import.meta.url)");
    reveal_strlit(".wasm\", import.meta.url)");
    if let SplitModuleIdentifier::Chunk(names) = modules[m].0 {
        lemma_commas(names@);
        let line = chunk_text(modules, m);
        assert("const "@ + "__chunk_"@ =~= "const __chunk_"@);
        assert("new URL("@ + "\"./"@ =~= "new URL(\"./"@);
        assert(".wasm\""@ + ", import.meta.url)"@ =~= ".wasm\", import.meta.url)"@);
        let file = "chunk_"@ + decimal(m as nat);
        assert("new URL("@ + ("\"./"@ + file + ".wasm\""@) + ", import.meta.url)"@
            =~= "new URL(\"./"@ + file + ".wasm\", import.meta.url)"@);
        assert(line =~= "/* "@ + commas(names@) + " */\n"@ + "const __chunk_"@ + decimal(m as nat)
            + " = makeLoad("@ + loaded(modules[m].1.is_empty, file) + ", []);\n"@);
    }
}

/// The line of a declared module.
proof fn lemma_loader_line(modules: Modules, m: int)
    requires
        0 <= m < modules.len(),
    ensures
        is_loader_line(modules, m, loader_text(modules, m)),
{
    reveal_strlit("export const ");
    reveal_strlit("__wasm_split_load_");
    reveal_strlit("export const __wasm_split_load_");
    reveal_strlit(" = ");
    reveal_strlit("wrapAsyncCb(makeLoad(");
    reveal_strlit(" = wrapAsyncCb(makeLoad(");
    reveal_strlit("]))");
    reveal_strlit(";\n");
    reveal_strlit("]));\n");
    reveal_strlit("new URL(");
    reveal_strlit("\"./");
    reveal_strlit("new URL(\"./");
    reveal_strlit(".wasm\"");
    reveal_strlit(", import.meta.url)");
    reveal_strlit(".wasm\", import.meta.url)");
    if let SplitModuleIdentifier::Split(name) = modules[m].0 {
        let chunks = lemma_chunk_vars(modules, modules.len() as int, name@);
        lemma_commas(variables(chunks));
        assert(are_chunks(modules, name@, chunks));
        assert("export const "@ + "__wasm_split_load_"@ =~= "export const __wasm_split_load_"@);
        assert(" = "@ + "wrapAsyncCb(makeLoad("@ =~= " = wrapAsyncCb(makeLoad("@);
        assert("]))"@ + ";\n"@ =~= "]));\n"@);
        assert("new URL("@ + "\"./"@ =~= "new URL(\"./"@);
        assert(".wasm\""@ + ", import.meta.url)"@ =~= ".wasm\", import.meta.url)"@);
        let file = "split_"@ + name@;
        assert("new URL("@ + ("\"./"@ + file + ".wasm\""@) + ", import.meta.url)"@
            =~= "new URL(\"./"@ + file + ".wasm\", import.meta.url)"@);
        assert(loader_text(modules, m) =~= "export const __wasm_split_load_"@ + name@
            + " = wrapAsyncCb(makeLoad("@ + loaded(modules[m].1.is_empty, file) + ", ["@ + commas(
            variables(chunks),
        ) + "]));\n"@);
    }
}

/// The lines of shared modules.
proof fn lemma_chunk_lines(modules: Modules, n: int)
    requires
        0 <= n,
    ensures
        chunks_text(modules, n) == all_of(Seq::new(n as nat, |m: int| chunk_text(modules, m))),
    decreases n,
{
    let lines = Seq::new(n as nat, |m: int| chunk_text(modules, m));
    if n > 0 {
        lemma_chunk_lines(modules, n - 1);
        assert(lines.drop_last() =~= Seq::new((n - 1) as nat, |m: int| chunk_text(modules, m)));
    }
}

/// The lines of declared modules, the last one first.
proof fn lemma_loader_lines(modules: Modules, m: int)
    requires
        0 <= m <= modules.len(),
    ensures
        loaders_text(modules, m) == all_of(
            Seq::new(
                (modules.len() - m) as nat,
                |j: int| loader_text(modules, modules.len() - 1 - j),
            ),
        ),
    decreases modules.len() - m,
{
    let lines = Seq::new(
        (modules.len() - m) as nat,
        |j: int| loader_text(modules, modules.len() - 1 - j),
    );
    if m < modules.len() {
        lemma_loader_lines(modules, m + 1);
        assert(lines.drop_last() =~= Seq::new(
            (modules.len() - (m + 1)) as nat,
            |j: int| loader_text(modules, modules.len() - 1 - j),
        ));
    }
}

/// The main module has one position.
proof fn lemma_main_position(modules: Modules, main: int)
    requires
        in_order(modules),
        0 <= main < modules.len(),
        modules[main].0 is Main,
    ensures
        main_position(modules) == main,
{
    lemma_modules_total();
    let less = modules_less();
    assert(modules[main].0@ == ModuleId::Main);
    let k = main_position(modules);
    assert(0 <= k < modules.len() && modules[k].0@ == ModuleId::Main);
    assert(!less(ModuleId::Main, ModuleId::Main));
    if main < k {
        assert(less(ids(modules)[main], ids(modules)[k]));
    } else if k < main {
        assert(less(ids(modules)[k], ids(modules)[main]));
    }
}

/// The text of the script: it hands out the globals, tables, tags and memories of the main module
/// that other modules share, and then has a line for each shared module and one for each declared
/// one, of which the last one comes first.
pub open spec fn is_script(
    path: Seq<char>,
    info: &SplitProgramInfo,
    state: &EmitState,
    snippets: Snippets,
    script: Seq<char>,
    deps: Seq<DepNode>,
    chunks: Seq<Seq<char>>,
    loaders: Seq<Seq<char>>,
) -> bool {
    let modules = info.output_modules@;
    let list = named(state.names@, deps);
    &&& script == head(path, info, state) + list + hand_out(list) + fixed(state, snippets) + all_of(
        chunks,
    ) + all_of(loaders)
    &&& chunks.len() == modules.len()
    &&& loaders.len() == modules.len()
    &&& forall|m: int| 0 <= m < modules.len() ==> is_chunk_line(modules, m, #[trigger] chunks[m])
    &&& forall|j: int|
        0 <= j < modules.len() ==> is_loader_line(
            modules,
            modules.len() - 1 - j,
            #[trigger] loaders[j],
        )
}

/// `deps` are the parts that the script hands out, each once.
pub open spec fn are_handed_out(
    info: &SplitProgramInfo,
    main: OutputModuleInfo,
    deps: Seq<DepNode>,
) -> bool {
    &&& deps.no_duplicates()
    &&& forall|d: DepNode| #[trigger] deps.contains(d) <==> is_handed_out(info, main, d)
}

/// What the script consists of.
pub proof fn lemma_script_text(
    path: Seq<char>,
    info: &SplitProgramInfo,
    state: &EmitState,
    snippets: Snippets,
    script: Seq<char>,
    files: Map<Seq<char>, Vec<String>>,
    main: int,
)
    requires
        in_order(info.output_modules@),
        links(path, info, state, snippets, script, files),
        0 <= main < info.output_modules@.len(),
        info.output_modules@[main].0 is Main,
    ensures
        exists|deps: Seq<DepNode>, chunks: Seq<Seq<char>>, loaders: Seq<Seq<char>>|
            are_handed_out(info, info.output_modules@[main].1, deps) && #[trigger] is_script(
                path,
                info,
                state,
                snippets,
                script,
                deps,
                chunks,
                loaders,
            ),
{
    let modules = info.output_modules@;
    let n = modules.len() as int;
    lemma_main_position(modules, main);
    let part = modules[main].1;
    let deps = choose|deps: Seq<DepNode>|
        are_reexported(info, &part, deps) && script == link_text(
            path,
            info,
            state.input_module.options.debug_assertions,
            snippets,
            #[trigger] shares_text(state.names@, deps),
        );
    assert(are_handed_out(info, part, deps));
    lemma_named(state.names@, deps);
    let list = named(state.names@, deps);
    let chunks = Seq::new(n as nat, |m: int| chunk_text(modules, m));
    let loaders = Seq::new(n as nat, |j: int| loader_text(modules, n - 1 - j));
    lemma_chunk_lines(modules, n);
    lemma_loader_lines(modules, 0);
    assert(loaders =~= Seq::new((n - 0) as nat, |j: int| loader_text(modules, n - 1 - j)));
    assert forall|m: int| 0 <= m < n implies is_chunk_line(modules, m, #[trigger] chunks[m]) by {
        lemma_chunk_line(modules, m);
    }
    assert forall|j: int| 0 <= j < n implies is_loader_line(
        modules,
        n - 1 - j,
        #[trigger] loaders[j],
    ) by {
        lemma_loader_line(modules, n - 1 - j);
    }
    assert(script =~= head(path, info, state) + list + hand_out(list) + fixed(state, snippets)
        + all_of(chunks) + all_of(loaders));
    assert(is_script(path, info, state, snippets, script, deps, chunks, loaders));
}

/// Whether a name stands in a list, followed by a comma.
pub open spec fn lists(list: Seq<char>, name: Seq<char>) -> bool {
    exists|a: Seq<char>, b: Seq<char>| list == #[trigger] (a + (name + ", "@) + b)
}

/// Whether the script takes the names in `list` from the exports of the main module, and hands them
/// to other modules.
pub open spec fn takes(script: Seq<char>, list: Seq<char>) -> bool {
    exists|before: Seq<char>, after: Seq<char>|
        script == #[trigger] (before + ("const { "@ + list
            + " } = mainExports;\n        Object.assign(sharedImports.__wasm_split, { "@ + list
            + " });"@) + after)
}

/// Where the list of names stands.
proof fn lemma_script_cut(a: Seq<char>, list: Seq<char>, b: Seq<char>)
    ensures
        takes(
            a + " } };\n        const mainExports = initSync(undefined, undefined);\n        const { "@
                + list + hand_out(list) + b,
            list,
        ),
{
    let start = " } };\n        const mainExports = initSync(undefined, undefined);\n        "@;
    let opens = " } };\n        const mainExports = initSync(undefined, undefined);\n        const { "@;
    let end = "\n    }\n    return sharedImports;\n}\n"@;
    let closes = " });\n    }\n    return sharedImports;\n}\n"@;
    let middle = " } = mainExports;\n        Object.assign(sharedImports.__wasm_split, { "@;
    assert(opens =~= start + "const { "@) by {
        reveal_strlit(" } };\n        const mainExports = initSync(undefined, undefined);\n        ");
        reveal_strlit("const { ");
        reveal_strlit(
            " } };\n        const mainExports = initSync(undefined, undefined);\n        const { ",
        );
    }
    assert(closes =~= " });"@ + end) by {
        reveal_strlit("\n    }\n    return sharedImports;\n}\n");
        reveal_strlit(" });");
        reveal_strlit(" });\n    }\n    return sharedImports;\n}\n");
    }
    let before = a + start;
    let after = end + b;
    assert(a + (start + "const { "@) + list + (middle + list + (" });"@ + end)) + b =~= before + (
    "const { "@ + list + middle + list + " });"@) + after);
}

/// Each global, table, tag and memory of the main module that other modules share is among the
/// names that the script takes from its exports.
pub proof fn lemma_handed_out(
    path: Seq<char>,
    info: &SplitProgramInfo,
    state: &EmitState,
    snippets: Snippets,
    script: Seq<char>,
    files: Map<Seq<char>, Vec<String>>,
    main: int,
    d: DepNode,
)
    requires
        in_order(info.output_modules@),
        links(path, info, state, snippets, script, files),
        0 <= main < info.output_modules@.len(),
        info.output_modules@[main].0 is Main,
        info.shared_deps@.contains(d),
        info.output_modules@[main].1.included_symbols@.contains(d),
        d is Global || d is Table || d is Tag || d is Memory,
    ensures
        exists|list: Seq<char>| #[trigger] takes(script, list) && lists(list, state.names@[d]@),
{
    lemma_script_text(path, info, state, snippets, script, files, main);
    let (deps, chunks, loaders) = choose|
        deps: Seq<DepNode>,
        chunks: Seq<Seq<char>>,
        loaders: Seq<Seq<char>>,
    |
        are_handed_out(info, info.output_modules@[main].1, deps) && #[trigger] is_script(
            path,
            info,
            state,
            snippets,
            script,
            deps,
            chunks,
            loaders,
        );
    assert(deps.contains(d));
    let k = choose|k: int| 0 <= k < deps.len() && deps[k] == d;
    lemma_named_at(state.names@, deps, k);
    let list = named(state.names@, deps);
    lemma_script_cut(
        "import { initSync } from \""@ + path + "\";\n"@
            + "let sharedImports = undefined;\nfunction getSharedImports() {\n    if (sharedImports === undefined) {\n        sharedImports = { __wasm_split: { "@
            + checked(info, state),
        list,
        fixed(state, snippets) + all_of(chunks) + all_of(loaders),
    );
    assert(script =~= head(path, info, state) + list + hand_out(list) + (fixed(state, snippets)
        + all_of(chunks) + all_of(loaders)));
    assert(takes(script, list));
}

/// The files of shared modules.
pub open spec fn chunk_names(chunks: Seq<int>) -> Seq<Seq<char>> {
    Seq::new(chunks.len(), |j: int| "chunk_"@ + decimal(chunks[j] as nat))
}

/// `chunks` are the positions of the modules that the declared module `name` shares with others,
/// and that hold something.
pub open spec fn are_full_chunks(modules: Modules, name: Seq<char>, chunks: Seq<int>) -> bool {
    &&& forall|i: int, j: int| 0 <= i < j < chunks.len() ==> #[trigger] chunks[i] < #[trigger] chunks[j]
    &&& forall|m: int| #[trigger]
        chunks.contains(m) <==> 0 <= m < modules.len() && !modules[m].1.is_empty && (
        modules[m].0 matches SplitModuleIdentifier::Chunk(names) && names@.contains(name))
}

/// The files of the shared modules among the first `n` that a declared module needs.
proof fn lemma_chunk_files(modules: Modules, n: int, name: Seq<char>) -> (chunks: Seq<int>)
    requires
        0 <= n <= modules.len(),
    ensures
        forall|i: int, j: int|
            0 <= i < j < chunks.len() ==> #[trigger] chunks[i] < #[trigger] chunks[j],
        forall|m: int| #[trigger]
            chunks.contains(m) <==> 0 <= m < n && !modules[m].1.is_empty && (modules[m].0 matches
                SplitModuleIdentifier::Chunk(names) && names@.contains(name)),
        chunk_files(modules, n, name) == chunk_names(chunks),
    decreases n,
{
    if n == 0 {
        let chunks = Seq::<int>::empty();
        assert(chunk_files(modules, n, name) =~= chunk_names(chunks));
        chunks
    } else {
        let before = lemma_chunk_files(modules, n - 1, name);
        assert forall|i: int| 0 <= i < before.len() implies #[trigger] before[i] < n - 1 by {
            assert(before.contains(before[i]));
        }
        if is_chunk_of(modules, n - 1, name) && !modules[n - 1].1.is_empty {
            let chunks = before.push(n - 1);
            assert forall|m: int| #[trigger] chunks.contains(m) <==> before.contains(m) || m == n
                - 1 by {
                if before.contains(m) {
                    let j = choose|j: int| 0 <= j < before.len() && before[j] == m;
                    assert(chunks[j] == m);
                }
                assert(chunks[before.len() as int] == n - 1);
            }
            assert(chunk_files(modules, n, name) =~= chunk_names(chunks));
            chunks
        } else {
            before
        }
    }
}

/// Whether there is a declared module with a name, and it holds something.
pub open spec fn is_full(modules: Modules, name: Seq<char>) -> bool {
    exists|m: int|
        0 <= m < modules.len() && !(#[trigger] modules[m]).1.is_empty && (modules[m].0 matches
            SplitModuleIdentifier::Split(own) && own@ == name)
}

/// The file of a declared module.
proof fn lemma_own_file(modules: Modules, m: int, name: Seq<char>)
    requires
        in_order(modules),
        0 <= m <= modules.len(),
    ensures
        own_file(modules, m, name) == if exists|k: int|
            m <= k < modules.len() && !(#[trigger] modules[k]).1.is_empty && modules[k].0@
                == ModuleId::Split(name) {
            seq!["split_"@ + name]
        } else {
            Seq::empty()
        },
    decreases modules.len() - m,
{
    let now = exists|k: int|
        m <= k < modules.len() && !(#[trigger] modules[k]).1.is_empty && modules[k].0@
            == ModuleId::Split(name);
    if m < modules.len() {
        lemma_own_file(modules, m + 1, name);
        let later = exists|k: int|
            m + 1 <= k < modules.len() && !(#[trigger] modules[k]).1.is_empty && modules[k].0@
                == ModuleId::Split(name);
        if modules[m].0@ == ModuleId::Split(name) && !modules[m].1.is_empty {
            assert(now);
            assert(!later) by {
                lemma_modules_total();
                let less = modules_less();
                if later {
                    let k = choose|k: int|
                        m + 1 <= k < modules.len() && !(#[trigger] modules[k]).1.is_empty
                            && modules[k].0@ == ModuleId::Split(name);
                    assert(less(ids(modules)[m], ids(modules)[k]));
                    assert(!less(modules[m].0@, modules[m].0@));
                }
            }
            assert(own_file(modules, m, name) =~= seq!["split_"@ + name]);
        } else {
            assert(now == later) by {
                if now {
                    let k = choose|k: int|
                        m <= k < modules.len() && !(#[trigger] modules[k]).1.is_empty
                            && modules[k].0@ == ModuleId::Split(name);
                    assert(m + 1 <= k);
                }
            }
        }
    }
}

/// What is worth loading early for a declared module: the files of the modules that it shares with
/// others, and then its own one, but of none that is empty. There is a list, though it may be
/// empty, for each declared module.
pub proof fn lemma_loaded_early(
    path: Seq<char>,
    info: &SplitProgramInfo,
    state: &EmitState,
    snippets: Snippets,
    script: Seq<char>,
    files: Map<Seq<char>, Vec<String>>,
    name: Seq<char>,
)
    requires
        in_order(info.output_modules@),
        links(path, info, state, snippets, script, files),
    ensures
        files.contains_key(name) ==> exists|chunks: Seq<int>| #[trigger]
            are_full_chunks(info.output_modules@, name, chunks) && texts(files[name]@)
                == chunk_names(chunks) + if is_full(info.output_modules@, name) {
                seq!["split_"@ + name]
            } else {
                Seq::empty()
            },
        files.contains_key(name) <==> (exists|m: int|
            0 <= m < info.output_modules@.len() && (#[trigger] info.output_modules@[m]).0@
                == ModuleId::Split(name)) || exists|m: int|
            0 <= m < info.output_modules@.len() && !(#[trigger] info.output_modules@[m]).1.is_empty
                && (info.output_modules@[m].0 matches SplitModuleIdentifier::Chunk(names)
                && names@.contains(name)),
{
    let modules = info.output_modules@;
    let n = modules.len() as int;
    let chunks = lemma_chunk_files(modules, n, name);
    lemma_own_file(modules, 0, name);
    assert(are_full_chunks(modules, name, chunks));
    assert(list_of(files, name) == chunk_files(modules, n, name) + own_file(modules, 0, name));
    let full = exists|k: int|
        0 <= k < modules.len() && !(#[trigger] modules[k]).1.is_empty && modules[k].0@
            == ModuleId::Split(name);
    assert(full == is_full(modules, name)) by {
        if full {
            let k = choose|k: int|
                0 <= k < modules.len() && !(#[trigger] modules[k]).1.is_empty && modules[k].0@
                    == ModuleId::Split(name);
            assert(modules[k].0 is Split);
        }
        if is_full(modules, name) {
            let k = choose|k: int|
                0 <= k < modules.len() && !(#[trigger] modules[k]).1.is_empty && (
                modules[k].0 matches SplitModuleIdentifier::Split(own) && own@ == name);
            assert(modules[k].0@ == ModuleId::Split(name));
        }
    }
    assert(files.contains_key(name) <==> chunk_files(modules, n, name).len() > 0 || declared_from(
        modules,
        0,
        name,
    ));
    if chunks.len() > 0 {
        assert(chunks.contains(chunks[0]));
        assert(!modules[chunks[0]].1.is_empty);
    }
    if exists|m: int|
        0 <= m < modules.len() && !(#[trigger] modules[m]).1.is_empty && (modules[m].0 matches
            SplitModuleIdentifier::Chunk(names) && names@.contains(name)) {
        let m = choose|m: int|
            0 <= m < modules.len() && !(#[trigger] modules[m]).1.is_empty && (
            modules[m].0 matches SplitModuleIdentifier::Chunk(names) && names@.contains(name));
        assert(chunks.contains(m));
        assert(chunks.len() > 0);
    }
}

} // verus!
