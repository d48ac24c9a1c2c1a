//! The script that links split modules to the main module.
use crate::dep_graph::DepNode;
use crate::keyed::KeyMap;
use crate::name_map::NameMap;
use crate::names::texts;
use crate::order::{lemma_names_total, names_less};
use crate::read::InputModule;
use crate::split_point::identifier::{lemma_modules_total, modules_less, ModuleId};
use crate::split_point::output::{has_module, ids, in_order};
use crate::split_point::{OutputModuleInfo, SplitModuleIdentifier, SplitProgramInfo};
use crate::text::{decimal, to_decimal};
use vstd::prelude::*;
use vstd::string::*;

verus! {

/// For each declared module, the files that are worth loading early.
pub type PrefetchMap = NameMap<Vec<String>>;

/// The modules of a program.
pub type Modules = Seq<(SplitModuleIdentifier, OutputModuleInfo)>;

/// The list of a name, which is empty if there is none.
pub open spec fn list_of(map: Map<Seq<char>, Vec<String>>, name: Seq<char>) -> Seq<Seq<char>> {
    if map.contains_key(name) {
        texts(map[name]@)
    } else {
        Seq::empty()
    }
}

/// Adds a text to the list of a name.
fn push_to(map: &mut NameMap<Vec<String>>, name: &str, text: String)
    requires
        old(map).wf(),
    ensures
        final(map).wf(),
        final(map)@.dom() == old(map)@.dom().insert(name@),
        list_of(final(map)@, name@) == list_of(old(map)@, name@).push(text@),
        forall|other: Seq<char>|
            other != name@ ==> #[trigger] list_of(final(map)@, other) == list_of(old(map)@, other),
{
    let ghost before = map@;
    let mut list = match map.remove(name) {
        Some(list) => list,
        None => Vec::new(),
    };
    let ghost shorter = list@;
    list.push(text);
    map.insert(name, list);
    proof {
        assert(texts(list@) =~= texts(shorter).push(text@));
        assert(list_of(before, name@) =~= texts(shorter));
        assert(map@.dom() =~= before.dom().insert(name@));
    }
}

/// Makes sure that a name has a list.
fn touch(map: &mut NameMap<Vec<String>>, name: &str)
    requires
        old(map).wf(),
    ensures
        final(map).wf(),
        final(map)@.dom() == old(map)@.dom().insert(name@),
        forall|other: Seq<char>| #[trigger]
            list_of(final(map)@, other) == list_of(old(map)@, other),
{
    let ghost before = map@;
    if map.get(name).is_none() {
        map.insert(name, Vec::new());
    }
    proof {
        assert(map@.dom() =~= before.dom().insert(name@));
        assert forall|other: Seq<char>| #[trigger] list_of(map@, other) == list_of(
            before,
            other,
        ) by {
            assert(list_of(map@, other) =~= list_of(before, other));
        }
    }
}

/// Texts with commas between them.
pub open spec fn joined(parts: Seq<Seq<char>>) -> Seq<char>
    decreases parts.len(),
{
    if parts.len() == 0 {
        Seq::empty()
    } else if parts.len() == 1 {
        parts[0]
    } else {
        joined(parts.drop_last()) + ", "@ + parts.last()
    }
}

/// Puts commas between texts.
fn join(parts: &Vec<String>) -> (text: String)
    ensures
        text@ == joined(texts(parts@)),
{
    let mut text = String::new();
    assert(texts(parts@).take(0) =~= Seq::<Seq<char>>::empty());
    assert(text@ =~= Seq::<char>::empty());
    for i in 0..parts.len()
        invariant
            text@ == joined(texts(parts@).take(i as int)),
            i == 0 ==> text@ == Seq::<char>::empty(),
    {
        let ghost part = texts(parts@).take(i as int);
        let ghost more = texts(parts@).take(i + 1);
        proof {
            assert(more.drop_last() =~= part);
            assert(more.last() == parts@[i as int]@);
        }
        if i > 0 {
            text.append(", ");
        }
        let ghost before = text@;
        text.append(parts[i].as_str());
        assert(i == 0 ==> text@ =~= parts@[0]@);
    }
    assert(texts(parts@).take(parts@.len() as int) =~= texts(parts@));
    text
}

/// The name of the file that a module is written to.
pub open spec fn file_name(id: ModuleId, index: int) -> Seq<char> {
    match id {
        ModuleId::Split(name) => "split_"@ + name,
        _ => "chunk_"@ + decimal(index as nat),
    }
}

/// The variable that holds the loader of a shared module.
pub open spec fn chunk_var(index: int) -> Seq<char> {
    "__chunk_"@ + decimal(index as nat)
}

/// What is fetched for a module.
pub open spec fn fetch_text(empty: bool, file: Seq<char>) -> Seq<char> {
    if empty {
        "undefined"@
    } else {
        "new URL("@ + file + ", import.meta.url)"@
    }
}

/// The path of a module's file, as a string of the script.
pub open spec fn path_text(id: ModuleId, index: int) -> Seq<char> {
    "\"./"@ + file_name(id, index) + ".wasm\""@
}

/// The lines for the shared module at a position.
pub open spec fn chunk_text(modules: Modules, m: int) -> Seq<char> {
    match modules[m].0@ {
        ModuleId::Chunk(names) => "/* "@ + joined(names) + " */\n"@ + "const "@ + chunk_var(m)
            + " = makeLoad("@ + fetch_text(modules[m].1.is_empty, path_text(modules[m].0@, m))
            + ", []);\n"@,
        _ => Seq::empty(),
    }
}

/// The lines for the shared modules among the first `n`.
pub open spec fn chunks_text(modules: Modules, n: int) -> Seq<char>
    decreases n,
{
    if n <= 0 {
        Seq::empty()
    } else {
        chunks_text(modules, n - 1) + chunk_text(modules, n - 1)
    }
}

/// Whether the module at a position is one that a declared module shares with others.
pub open spec fn is_chunk_of(modules: Modules, m: int, name: Seq<char>) -> bool {
    modules[m].0@ is Chunk && modules[m].0@->Chunk_0.contains(name)
}

/// The variables of the shared modules among the first `n` that a declared module needs.
pub open spec fn chunk_vars(modules: Modules, n: int, name: Seq<char>) -> Seq<Seq<char>>
    decreases n,
{
    if n <= 0 {
        Seq::empty()
    } else if is_chunk_of(modules, n - 1, name) {
        chunk_vars(modules, n - 1, name).push(chunk_var(n - 1))
    } else {
        chunk_vars(modules, n - 1, name)
    }
}

/// The files of the shared modules among the first `n` that a declared module needs.
pub open spec fn chunk_files(modules: Modules, n: int, name: Seq<char>) -> Seq<Seq<char>>
    decreases n,
{
    if n <= 0 {
        Seq::empty()
    } else if is_chunk_of(modules, n - 1, name) && !modules[n - 1].1.is_empty {
        chunk_files(modules, n - 1, name).push(file_name(modules[n - 1].0@, n - 1))
    } else {
        chunk_files(modules, n - 1, name)
    }
}

/// The line for the declared module at a position.
pub open spec fn loader_text(modules: Modules, m: int) -> Seq<char> {
    match modules[m].0@ {
        ModuleId::Split(name) => "export const "@ + ("__wasm_split_load_"@ + name) + " = "@ + (
        "wrapAsyncCb(makeLoad("@ + fetch_text(
            modules[m].1.is_empty,
            path_text(modules[m].0@, m),
        ) + ", ["@ + joined(chunk_vars(modules, modules.len() as int, name)) + "]))"@) + ";\n"@,
        _ => Seq::empty(),
    }
}

/// The lines for the declared modules from position `m` on, the last one first.
pub open spec fn loaders_text(modules: Modules, m: int) -> Seq<char>
    decreases modules.len() - m,
{
    if m < 0 || m >= modules.len() {
        Seq::empty()
    } else {
        loaders_text(modules, m + 1) + loader_text(modules, m)
    }
}

/// The file of a declared module from position `m` on, unless it is empty.
pub open spec fn own_file(modules: Modules, m: int, name: Seq<char>) -> Seq<Seq<char>>
    decreases modules.len() - m,
{
    if m < 0 || m >= modules.len() {
        Seq::empty()
    } else if modules[m].0@ == ModuleId::Split(name) && !modules[m].1.is_empty {
        own_file(modules, m + 1, name).push(file_name(modules[m].0@, m))
    } else {
        own_file(modules, m + 1, name)
    }
}

/// Whether a module is declared, from position `m` on.
pub open spec fn declared_from(modules: Modules, m: int, name: Seq<char>) -> bool {
    exists|k: int|
        m <= k < modules.len() && (#[trigger] modules[k]).0@ == ModuleId::Split(name)
}

/// `map` holds the files that are worth loading early: for each declared module those of the shared
/// modules that it needs, and its own one.
pub open spec fn prefetches(modules: Modules, map: Map<Seq<char>, Vec<String>>) -> bool {
    let n = modules.len() as int;
    &&& forall|name: Seq<char>| #[trigger]
        list_of(map, name) == chunk_files(modules, n, name) + own_file(modules, 0, name)
    &&& forall|name: Seq<char>| #[trigger]
        map.contains_key(name) <==> chunk_files(modules, n, name).len() > 0 || declared_from(
            modules,
            0,
            name,
        )
}

/// The first line, which imports the main module.
pub open spec fn main_import_text(path: Seq<char>) -> Seq<char> {
    "import { initSync } from \""@ + path + "\";\n"@
}

/// What is checked when modules are linked, if the user asked for that.
pub open spec fn canary_text(check: bool, canary: Seq<char>) -> Seq<char> {
    if check {
        canary + ": ~0xdead,"@
    } else {
        Seq::empty()
    }
}

/// The function that hands out what the main module shares.
pub open spec fn shared_imports_text(canary: Seq<char>, shares: Seq<char>) -> Seq<char> {
    "let sharedImports = undefined;\nfunction getSharedImports() {\n    if (sharedImports === undefined) {\n        sharedImports = { __wasm_split: { "@
        + canary
        + " } };\n        const mainExports = initSync(undefined, undefined);\n        const { "@
        + shares
        + " } = mainExports;\n        Object.assign(sharedImports.__wasm_split, { "@
        + shares + " });\n    }\n    return sharedImports;\n}\n"@
}

/// The fixed parts of the script.
pub struct Snippets {
    /// What loads modules.
    pub split_wasm: String,
    /// What fetches them.
    pub make_fetch: String,
    /// What fetches them, with checks.
    pub make_fetch_debug: String,
}

/// The fixed parts of the script that are used.
pub open spec fn runtime_text(check: bool, snippets: Snippets) -> Seq<char> {
    snippets.split_wasm@ + if check {
        snippets.make_fetch_debug@
    } else {
        snippets.make_fetch@
    }
}

/// What is known when modules are written.
pub struct EmitState<'p> {
    /// The input module.
    pub input_module: &'p InputModule,
    /// The names under which modules share parts.
    pub names: KeyMap<DepNode, String>,
}

impl<'p> EmitState<'p> {
    /// The input module.
    pub fn input(&self) -> (input: &'p InputModule)
        ensures
            input == self.input_module,
    {
        self.input_module
    }

    /// The name under which modules share a part.
    pub fn name_for(&self, dep: &DepNode) -> (name: &str)
        requires
            self.names@.contains_key(*dep),
        ensures
            name@ == self.names@[*dep]@,
    {
        match self.names.get(dep) {
            Some(name) => name.as_str(),
            None => "",
        }
    }
}

/// Writes the script that links split modules to the main module.
pub struct LinkModuleWriter<'p> {
    input_module: &'p InputModule,
    program_info: &'p SplitProgramInfo,
    javascript: String,
    prefetch_map: PrefetchMap,
}

impl<'p> LinkModuleWriter<'p> {
    /// The input module.
    pub closed spec fn spec_input(&self) -> &'p InputModule {
        self.input_module
    }

    /// The program.
    pub closed spec fn spec_program(&self) -> &'p SplitProgramInfo {
        self.program_info
    }

    /// The script so far.
    pub closed spec fn script(&self) -> Seq<char> {
        self.javascript@
    }

    /// The files that are worth loading early.
    pub closed spec fn prefetched(&self) -> Map<Seq<char>, Vec<String>> {
        self.prefetch_map@
    }

    /// No module is listed twice.
    pub closed spec fn wf(&self) -> bool {
        self.prefetch_map.wf()
    }

    /// An empty script.
    fn new(program_info: &'p SplitProgramInfo, emit_state: &EmitState<'p>) -> (writer: Self)
        ensures
            writer.wf(),
            writer.spec_program() == program_info,
            writer.spec_input() == emit_state.input_module,
            writer.script() == Seq::<char>::empty(),
            writer.prefetched() == Map::<Seq<char>, Vec<String>>::empty(),
    {
        let writer = LinkModuleWriter {
            program_info,
            input_module: emit_state.input(),
            javascript: String::new(),
            prefetch_map: NameMap::new(),
        };
        assert(writer.javascript@ =~= Seq::<char>::empty());
        writer
    }

    /// The name by which it is checked that modules belong together.
    fn canary_name(&self) -> (name: &str)
        ensures
            name@ == self.program_info.canary_export_name@,
    {
        self.program_info.canary_export_name()
    }

    /// Writes the import of the main module.
    fn write_main_import(&mut self, mod_path: &str)
        ensures
            *final(self) == (LinkModuleWriter { javascript: final(self).javascript, ..*old(self) }),
            final(self).script() == old(self).script() + main_import_text(mod_path@),
    {
        let ghost before = self.javascript@;
        self.javascript.append("import { initSync } from \"");
        self.javascript.append(mod_path);
        self.javascript.append("\";\n");
        assert(self.javascript@ =~= before + main_import_text(mod_path@));
    }

    /// Writes the function that hands out what the main module shares.
    fn write_get_shared_imports(&mut self, main_shares: &str)
        ensures
            *final(self) == (LinkModuleWriter { javascript: final(self).javascript, ..*old(self) }),
            final(self).script() == old(self).script() + shared_imports_text(
                canary_text(
                    old(self).spec_input().options.debug_assertions,
                    old(self).spec_program().canary_export_name@,
                ),
                main_shares@,
            ),
    {
        let ghost before = self.javascript@;
        let mut canary_props = String::new();
        assert(canary_props@ =~= Seq::<char>::empty());
        if self.input_module.options.debug_assertions {
            canary_props.append(self.canary_name());
            canary_props.append(": ~0xdead,");
            assert(canary_props@ =~= self.program_info.canary_export_name@ + ": ~0xdead,"@);
        }
        self.javascript.append(
            "let sharedImports = undefined;\nfunction getSharedImports() {\n    if (sharedImports === undefined) {\n        sharedImports = { __wasm_split: { ",
        );
        self.javascript.append(canary_props.as_str());
        self.javascript.append(
            " } };\n        const mainExports = initSync(undefined, undefined);\n        const { ",
        );
        self.javascript.append(main_shares);
        self.javascript.append(
            " } = mainExports;\n        Object.assign(sharedImports.__wasm_split, { ",
        );
        self.javascript.append(main_shares);
        self.javascript.append(" });\n    }\n    return sharedImports;\n}\n");
        assert(self.javascript@ =~= before + shared_imports_text(canary_props@, main_shares@));
    }

    /// Writes the fixed parts of the script.
    fn write_runtime(&mut self, snippets: &Snippets)
        ensures
            *final(self) == (LinkModuleWriter { javascript: final(self).javascript, ..*old(self) }),
            final(self).script() == old(self).script() + runtime_text(
                old(self).spec_input().options.debug_assertions,
                *snippets,
            ),
    {
        let ghost before = self.javascript@;
        self.javascript.append(snippets.split_wasm.as_str());
        if self.input_module.options.debug_assertions {
            self.javascript.append(snippets.make_fetch_debug.as_str());
        } else {
            self.javascript.append(snippets.make_fetch.as_str());
        }
        assert(self.javascript@ =~= before + runtime_text(
            self.input_module.options.debug_assertions,
            *snippets,
        ));
    }

    /// Writes the definition of an exported constant.
    fn write_export_const(&mut self, name: &str, def: &str)
        ensures
            *final(self) == (LinkModuleWriter { javascript: final(self).javascript, ..*old(self) }),
            final(self).script() == old(self).script() + ("export const "@ + name@ + " = "@ + def@
                + ";\n"@),
    {
        let ghost before = self.javascript@;
        self.javascript.append("export const ");
        self.javascript.append(name);
        self.javascript.append(" = ");
        self.javascript.append(def);
        self.javascript.append(";\n");
        assert(self.javascript@ =~= before + ("export const "@ + name@ + " = "@ + def@ + ";\n"@));
    }

    /// What is fetched for a module.
    ///
    /// This is a form that bundlers know, and rewrite if they move the file. The module is not fetched
    /// before it is used.
    fn fetch_opts(&self, empty: bool, file_path: &str) -> (text: String)
        ensures
            text@ == fetch_text(empty, file_path@),
    {
        if empty {
            "undefined".to_owned()
        } else {
            let mut text = "new URL(".to_owned();
            text.append(file_path);
            text.append(", import.meta.url)");
            text
        }
    }
}

/// Whether `name` is one of the first `n` names of the shared module at position `m`.
spec fn is_taken(modules: Modules, m: int, n: int, name: Seq<char>) -> bool {
    exists|j: int| 0 <= j < n && #[trigger] modules[m].0@->Chunk_0[j] == name
}

/// What holds of the lists when the first `n` names of the shared module at position `m` are done.
spec fn chunk_lists_right(
    modules: Modules,
    m: int,
    n: int,
    deps: Map<Seq<char>, Vec<String>>,
    files: Map<Seq<char>, Vec<String>>,
) -> bool {
    &&& forall|name: Seq<char>| #[trigger]
        list_of(deps, name) == if is_taken(modules, m, n, name) {
            chunk_vars(modules, m + 1, name)
        } else {
            chunk_vars(modules, m, name)
        }
    &&& forall|name: Seq<char>| #[trigger]
        list_of(files, name) == if is_taken(modules, m, n, name) {
            chunk_files(modules, m + 1, name)
        } else {
            chunk_files(modules, m, name)
        }
    &&& forall|name: Seq<char>| #[trigger]
        files.contains_key(name) <==> list_of(files, name).len() > 0
}

/// What holds of the lists when the shared modules among the first `m` are done.
spec fn lists_right(
    modules: Modules,
    m: int,
    deps: Map<Seq<char>, Vec<String>>,
    files: Map<Seq<char>, Vec<String>>,
) -> bool {
    &&& forall|name: Seq<char>| #[trigger]
        list_of(deps, name) == chunk_vars(modules, m, name)
    &&& forall|name: Seq<char>| #[trigger]
        list_of(files, name) == chunk_files(modules, m, name)
    &&& forall|name: Seq<char>| #[trigger]
        files.contains_key(name) <==> list_of(files, name).len() > 0
}

/// All names of a shared module are done at the end, and none at the start.
proof fn lemma_chunk_lists(
    modules: Modules,
    m: int,
    deps: Map<Seq<char>, Vec<String>>,
    files: Map<Seq<char>, Vec<String>>,
)
    requires
        0 <= m < modules.len(),
        modules[m].0@ is Chunk,
    ensures
        lists_right(modules, m, deps, files) ==> chunk_lists_right(modules, m, 0, deps, files),
        chunk_lists_right(modules, m, modules[m].0@->Chunk_0.len() as int, deps, files)
            ==> lists_right(modules, m + 1, deps, files),
{
    let names = modules[m].0@->Chunk_0;
    if lists_right(modules, m, deps, files) {
        assert forall|name: Seq<char>| !#[trigger] is_taken(modules, m, 0, name) by {}
    }
    if chunk_lists_right(modules, m, names.len() as int, deps, files) {
        assert forall|name: Seq<char>| #[trigger] is_taken(
            modules,
            m,
            names.len() as int,
            name,
        ) <==> is_chunk_of(modules, m, name) by {
            if is_chunk_of(modules, m, name) {
                let j = choose|j: int| 0 <= j < names.len() && names[j] == name;
                assert(modules[m].0@->Chunk_0[j] == name);
            }
        }
        assert forall|name: Seq<char>| #[trigger] list_of(deps, name) == chunk_vars(
            modules,
            m + 1,
            name,
        ) by {
            assert(is_taken(modules, m, names.len() as int, name) <==> is_chunk_of(
                modules,
                m,
                name,
            ));
        }
        assert forall|name: Seq<char>| #[trigger] list_of(files, name) == chunk_files(
            modules,
            m + 1,
            name,
        ) by {
            assert(is_taken(modules, m, names.len() as int, name) <==> is_chunk_of(
                modules,
                m,
                name,
            ));
        }
    }
}

/// Adds the shared module at position `m` to the lists of those that need it.
fn list_chunk(
    modules: &Vec<(SplitModuleIdentifier, OutputModuleInfo)>,
    m: usize,
    names: &Vec<String>,
    file_name: &String,
    deps: &mut NameMap<Vec<String>>,
    files: &mut NameMap<Vec<String>>,
)
    requires
        in_order(modules@),
        m < modules@.len(),
        modules@[m as int].0@ == ModuleId::Chunk(texts(names@)),
        file_name@ == self::file_name(modules@[m as int].0@, m as int),
        old(deps).wf(),
        old(files).wf(),
        lists_right(modules@, m as int, old(deps)@, old(files)@),
    ensures
        final(deps).wf(),
        final(files).wf(),
        lists_right(modules@, m + 1, final(deps)@, final(files)@),
{
    let ghost all = modules@;
    let ghost at = m as int;
    let is_empty = modules[m].1.is_empty;
    proof {
        lemma_chunk_lists(all, at, deps@, files@);
    }
    for j in 0..names.len()
        invariant
            in_order(all),
            all == modules@,
            at == m,
            m < modules@.len(),
            is_empty == all[at].1.is_empty,
            all[at].0@ == ModuleId::Chunk(texts(names@)),
            file_name@ == self::file_name(all[at].0@, at),
            deps.wf(),
            files.wf(),
            chunk_lists_right(all, at, j as int, deps@, files@),
    {
        let name = names[j].as_str();
        let ghost old_deps = deps@;
        let ghost old_files = files@;
        proof {
            assert(texts(names@)[j as int] == name@);
            assert(texts(names@).contains(name@));
            assert(is_chunk_of(all, at, name@));
            assert(!is_taken(all, at, j as int, name@)) by {
                lemma_names_total();
                let less = names_less();
                assert(all[at].0.wf());
                assert(!less(name@, name@));
                assert forall|i: int| 0 <= i < j implies #[trigger] all[at].0@->Chunk_0[i]
                    != name@ by {
                    assert(less(texts(names@)[i], texts(names@)[j as int]));
                }
            }
        }
        let mut var_name = "__chunk_".to_owned();
        var_name.append(to_decimal(m).as_str());
        push_to(deps, name, var_name);
        if !is_empty {
            push_to(files, name, file_name.clone());
        }
        proof {
            assert forall|other: Seq<char>| #[trigger] is_taken(all, at, j + 1, other) <==> is_taken(
                all,
                at,
                j as int,
                other,
            ) || other == name@ by {
                if is_taken(all, at, j as int, other) {
                    let i = choose|i: int| 0 <= i < j && #[trigger] all[at].0@->Chunk_0[i] == other;
                    assert(all[at].0@->Chunk_0[i] == other);
                }
                assert(all[at].0@->Chunk_0[j as int] == name@);
            }
            assert forall|other: Seq<char>| #[trigger] list_of(deps@, other) == if is_taken(
                all,
                at,
                j + 1,
                other,
            ) {
                chunk_vars(all, at + 1, other)
            } else {
                chunk_vars(all, at, other)
            } by {
                assert(is_taken(all, at, j + 1, other) <==> is_taken(all, at, j as int, other)
                    || other == name@);
                if other != name@ {
                    assert(list_of(deps@, other) == list_of(old_deps, other));
                } else {
                    assert(list_of(old_deps, other) == chunk_vars(all, at, other));
                }
            }
            assert forall|other: Seq<char>| #[trigger] list_of(files@, other) == if is_taken(
                all,
                at,
                j + 1,
                other,
            ) {
                chunk_files(all, at + 1, other)
            } else {
                chunk_files(all, at, other)
            } by {
                assert(is_taken(all, at, j + 1, other) <==> is_taken(all, at, j as int, other)
                    || other == name@);
                if other != name@ {
                    assert(list_of(files@, other) == list_of(old_files, other));
                } else {
                    assert(list_of(old_files, other) == chunk_files(all, at, other));
                }
            }
            assert forall|other: Seq<char>| #[trigger] files@.contains_key(other) <==> list_of(
                files@,
                other,
            ).len() > 0 by {
                assert(old_files.contains_key(other) <==> list_of(old_files, other).len() > 0);
                if other != name@ {
                    assert(list_of(files@, other) == list_of(old_files, other));
                    assert(files@.dom().contains(other) <==> old_files.dom().contains(other));
                }
            }
        }
    }
    proof {
        lemma_chunk_lists(all, at, deps@, files@);
    }
}

impl<'p> LinkModuleWriter<'p> {
    /// Writes the path of a module's file.
    fn file_path(file_name: &String) -> (path: String)
        ensures
            path@ == "\"./"@ + file_name@ + ".wasm\""@,
    {
        let mut path = "\"./".to_owned();
        path.append(file_name.as_str());
        path.append(".wasm\"");
        path
    }

    /// Writes the loaders of shared modules, and finds the variables that hold those that each
    /// declared module needs.
    fn write_chunks(&mut self, program: &SplitProgramInfo) -> (deps: NameMap<Vec<String>>)
        requires
            old(self).wf(),
            old(self).prefetched() == Map::<Seq<char>, Vec<String>>::empty(),
            in_order(program.output_modules@),
        ensures
            final(self).wf(),
            final(self).spec_input() == old(self).spec_input(),
            final(self).spec_program() == old(self).spec_program(),
            deps.wf(),
            final(self).script() == old(self).script() + chunks_text(
                program.output_modules@,
                program.output_modules@.len() as int,
            ),
            lists_right(
                program.output_modules@,
                program.output_modules@.len() as int,
                deps@,
                final(self).prefetched(),
            ),
    {
        let modules = &program.output_modules;
        let ghost all = modules@;
        let ghost before = self.javascript@;
        let mut deps: NameMap<Vec<String>> = NameMap::new();
        assert(before + chunks_text(all, 0) =~= before);
        assert(lists_right(all, 0, deps@, self.prefetch_map@)) by {
            assert forall|name: Seq<char>| #[trigger] list_of(deps@, name) == chunk_vars(
                all,
                0,
                name,
            ) by {
                assert(list_of(deps@, name) =~= chunk_vars(all, 0, name));
            }
            assert forall|name: Seq<char>| #[trigger] list_of(self.prefetch_map@, name)
                == chunk_files(all, 0, name) by {
                assert(list_of(self.prefetch_map@, name) =~= chunk_files(all, 0, name));
            }
        }
        for m in 0..modules.len()
            invariant
                self.prefetch_map.wf(),
                deps.wf(),
                all == modules@,
                in_order(all),
                self.input_module == old(self).input_module,
                self.program_info == old(self).program_info,
                self.javascript@ == before + chunks_text(all, m as int),
                lists_right(all, m as int, deps@, self.prefetch_map@),
        {
            let ghost script = self.javascript@;
            if let SplitModuleIdentifier::Chunk(splits) = &modules[m].0 {
                let names = splits.names();
                let file_name = modules[m].0.filename(m);
                let path = Self::file_path(&file_name);
                let fetch_opts = self.fetch_opts(modules[m].1.is_empty, path.as_str());
                self.javascript.append("/* ");
                self.javascript.append(join(names).as_str());
                self.javascript.append(" */\n");
                self.javascript.append("const ");
                let mut var_name = "__chunk_".to_owned();
                var_name.append(to_decimal(m).as_str());
                self.javascript.append(var_name.as_str());
                self.javascript.append(" = makeLoad(");
                self.javascript.append(fetch_opts.as_str());
                self.javascript.append(", []);\n");
                assert(self.javascript@ =~= script + chunk_text(all, m as int));
                list_chunk(
                    modules,
                    m,
                    names,
                    &file_name,
                    &mut deps,
                    &mut self.prefetch_map,
                );
            } else {
                assert(self.javascript@ =~= script + chunk_text(all, m as int));
                assert(lists_right(all, m + 1, deps@, self.prefetch_map@)) by {
                    assert forall|name: Seq<char>| #[trigger] list_of(deps@, name) == chunk_vars(
                        all,
                        m + 1,
                        name,
                    ) by {
                        assert(!is_chunk_of(all, m as int, name));
                    }
                    assert forall|name: Seq<char>| #[trigger] list_of(self.prefetch_map@, name)
                        == chunk_files(all, m + 1, name) by {
                        assert(!is_chunk_of(all, m as int, name));
                    }
                }
            }
            assert(script + chunk_text(all, m as int) =~= before + chunks_text(all, m + 1));
        }
        deps
    }
}

/// A declared module has one position only.
proof fn lemma_declared_once(modules: Modules, m: int, name: Seq<char>)
    requires
        in_order(modules),
        0 <= m < modules.len(),
        modules[m].0@ == ModuleId::Split(name),
    ensures
        !declared_from(modules, m + 1, name),
{
    lemma_modules_total();
    let less = modules_less();
    if declared_from(modules, m + 1, name) {
        let k = choose|k: int|
            m + 1 <= k < modules.len() && (#[trigger] modules[k]).0@ == ModuleId::Split(name);
        assert(less(ids(modules)[m], ids(modules)[k]));
        assert(!less(modules[m].0@, modules[m].0@));
    }
}

/// What holds of the lists when the declared modules from position `m` on are done.
spec fn loader_lists_right(
    modules: Modules,
    m: int,
    deps: Map<Seq<char>, Vec<String>>,
    files: Map<Seq<char>, Vec<String>>,
) -> bool {
    let n = modules.len() as int;
    &&& forall|name: Seq<char>|
        !declared_from(modules, m, name) ==> #[trigger] list_of(deps, name) == chunk_vars(
            modules,
            n,
            name,
        )
    &&& forall|name: Seq<char>| #[trigger]
        list_of(files, name) == chunk_files(modules, n, name) + own_file(modules, m, name)
    &&& forall|name: Seq<char>| #[trigger]
        files.contains_key(name) <==> chunk_files(modules, n, name).len() > 0 || declared_from(
            modules,
            m,
            name,
        )
}

/// What the module at position `m` adds to the declared ones.
proof fn lemma_declared_from(modules: Modules, m: int, name: Seq<char>)
    requires
        0 <= m < modules.len(),
    ensures
        declared_from(modules, m, name) <==> declared_from(modules, m + 1, name) || modules[m].0@
            == ModuleId::Split(name),
{
    if declared_from(modules, m, name) {
        let k = choose|k: int|
            m <= k < modules.len() && (#[trigger] modules[k]).0@ == ModuleId::Split(name);
        if k > m {
            assert(modules[k].0@ == ModuleId::Split(name));
        }
    }
    if declared_from(modules, m + 1, name) {
        let k = choose|k: int|
            m + 1 <= k < modules.len() && (#[trigger] modules[k]).0@ == ModuleId::Split(name);
        assert(modules[k].0@ == ModuleId::Split(name));
    }
}

impl<'p> LinkModuleWriter<'p> {
    /// Writes the loader of the declared module at position `m`.
    fn write_loader(
        &mut self,
        modules: &Vec<(SplitModuleIdentifier, OutputModuleInfo)>,
        m: usize,
        split: &str,
        deps: &mut NameMap<Vec<String>>,
    )
        requires
            old(self).wf(),
            old(deps).wf(),
            in_order(modules@),
            m < modules@.len(),
            modules@[m as int].0@ == ModuleId::Split(split@),
            loader_lists_right(modules@, m + 1, old(deps)@, old(self).prefetched()),
        ensures
            final(self).wf(),
            final(deps).wf(),
            final(self).spec_input() == old(self).spec_input(),
            final(self).spec_program() == old(self).spec_program(),
            final(self).script() == old(self).script() + loader_text(modules@, m as int),
            loader_lists_right(modules@, m as int, final(deps)@, final(self).prefetched()),
    {
        let ghost all = modules@;
        let ghost at = m as int;
        let ghost script = self.javascript@;
        let ghost old_deps = deps@;
        let ghost old_files = self.prefetch_map@;
        proof {
            lemma_declared_once(all, at, split@);
            assert(list_of(old_deps, split@) == chunk_vars(all, all.len() as int, split@));
        }
        let is_empty = modules[m].1.is_empty;
        let file_name = modules[m].0.filename(m);
        let loader_name = modules[m].0.loader_name();
        let needed = match deps.remove(split) {
            Some(needed) => needed,
            None => Vec::new(),
        };
        assert(texts(needed@) =~= chunk_vars(all, all.len() as int, split@));
        let path = Self::file_path(&file_name);
        let fetch_opts = self.fetch_opts(is_empty, path.as_str());
        let mut def = "wrapAsyncCb(makeLoad(".to_owned();
        def.append(fetch_opts.as_str());
        def.append(", [");
        def.append(join(&needed).as_str());
        def.append("]))");
        self.write_export_const(loader_name.as_str(), def.as_str());
        assert(self.javascript@ =~= script + loader_text(all, at));
        let ghost middle = self.prefetch_map@;
        touch(&mut self.prefetch_map, split);
        let ghost touched = self.prefetch_map@;
        if !is_empty {
            push_to(&mut self.prefetch_map, split, file_name);
        }
        proof {
            let files = self.prefetch_map@;
            assert forall|name: Seq<char>| !declared_from(all, at, name) implies #[trigger] list_of(
                deps@,
                name,
            ) == chunk_vars(all, all.len() as int, name) by {
                lemma_declared_from(all, at, name);
                assert(list_of(deps@, name) == list_of(old_deps, name));
            }
            assert forall|name: Seq<char>| #[trigger] list_of(files, name) == chunk_files(
                all,
                all.len() as int,
                name,
            ) + own_file(all, at, name) by {
                assert(list_of(old_files, name) == chunk_files(all, all.len() as int, name)
                    + own_file(all, at + 1, name));
                assert(list_of(touched, name) == list_of(old_files, name));
                if name == split@ {
                    assert(list_of(files, name) =~= chunk_files(all, all.len() as int, name)
                        + own_file(all, at, name));
                } else {
                    assert(list_of(files, name) == list_of(touched, name));
                }
            }
            assert forall|name: Seq<char>| #[trigger] files.contains_key(name) <==> chunk_files(
                all,
                all.len() as int,
                name,
            ).len() > 0 || declared_from(all, at, name) by {
                lemma_declared_from(all, at, name);
                assert(files.dom().contains(name) <==> old_files.dom().contains(name) || name
                    == split@);
                assert(old_files.contains_key(name) <==> chunk_files(
                    all,
                    all.len() as int,
                    name,
                ).len() > 0 || declared_from(all, at + 1, name));
            }
        }
    }

    /// Writes the loaders of all modules.
    fn write_loaders(&mut self, program: &SplitProgramInfo)
        requires
            old(self).wf(),
            old(self).prefetched() == Map::<Seq<char>, Vec<String>>::empty(),
            in_order(program.output_modules@),
        ensures
            final(self).wf(),
            final(self).spec_input() == old(self).spec_input(),
            final(self).spec_program() == old(self).spec_program(),
            final(self).script() == old(self).script() + chunks_text(
                program.output_modules@,
                program.output_modules@.len() as int,
            ) + loaders_text(program.output_modules@, 0),
            prefetches(program.output_modules@, final(self).prefetched()),
    {
        let mut deps = self.write_chunks(program);
        let modules = &program.output_modules;
        let ghost all = modules@;
        let ghost n = all.len() as int;
        let ghost before = self.javascript@;
        let mut m: usize = modules.len();
        proof {
            assert(before + loaders_text(all, n) =~= before);
            assert(loader_lists_right(all, n, deps@, self.prefetch_map@)) by {
                assert forall|name: Seq<char>| #[trigger] list_of(self.prefetch_map@, name)
                    == chunk_files(all, n, name) + own_file(all, n, name) by {
                    assert(chunk_files(all, n, name) + own_file(all, n, name) =~= chunk_files(
                        all,
                        n,
                        name,
                    ));
                }
                assert forall|name: Seq<char>| #[trigger] self.prefetch_map@.contains_key(name)
                    <==> chunk_files(all, n, name).len() > 0 || declared_from(all, n, name) by {
                    assert(list_of(self.prefetch_map@, name) == chunk_files(all, n, name));
                }
            }
        }
        while m > 0
            invariant
                m <= n,
                n == all.len(),
                all == modules@,
                in_order(all),
                self.wf(),
                deps.wf(),
                self.input_module == old(self).input_module,
                self.program_info == old(self).program_info,
                self.javascript@ == before + loaders_text(all, m as int),
                loader_lists_right(all, m as int, deps@, self.prefetched()),
            decreases m,
        {
            m -= 1;
            let ghost script = self.javascript@;
            if let SplitModuleIdentifier::Split(split) = &modules[m].0 {
                self.write_loader(modules, m, split.as_str(), &mut deps);
            } else {
                proof {
                    assert(self.javascript@ =~= script + loader_text(all, m as int));
                    assert forall|name: Seq<char>| #[trigger] declared_from(all, m as int, name)
                        <==> declared_from(all, m + 1, name) by {
                        lemma_declared_from(all, m as int, name);
                    }
                    assert forall|name: Seq<char>| #[trigger] own_file(all, m as int, name)
                        == own_file(all, m + 1, name) by {}
                    assert(loader_lists_right(all, m as int, deps@, self.prefetched())) by {
                        assert forall|name: Seq<char>| #[trigger]
                            list_of(self.prefetched(), name) == chunk_files(all, n, name)
                                + own_file(all, m as int, name) by {
                            assert(own_file(all, m as int, name) == own_file(all, m + 1, name));
                        }
                        assert forall|name: Seq<char>| #[trigger]
                            self.prefetched().contains_key(name) <==> chunk_files(
                                all,
                                n,
                                name,
                            ).len() > 0 || declared_from(all, m as int, name) by {
                            assert(declared_from(all, m as int, name) <==> declared_from(
                                all,
                                m + 1,
                                name,
                            ));
                        }
                        assert forall|name: Seq<char>|
                            !declared_from(all, m as int, name) implies #[trigger] list_of(
                            deps@,
                            name,
                        ) == chunk_vars(all, n, name) by {
                            assert(declared_from(all, m as int, name) <==> declared_from(
                                all,
                                m + 1,
                                name,
                            ));
                        }
                    }
                }
            }
            assert(script + loader_text(all, m as int) =~= before + loaders_text(all, m as int));
        }
    }

    /// Hands out the script and the files that are worth loading early.
    pub fn emit(self) -> (emitted: (String, PrefetchMap))
        requires
            self.wf(),
        ensures
            emitted.0@ == self.script(),
            emitted.1.wf(),
            emitted.1@ == self.prefetched(),
    {
        (self.javascript, self.prefetch_map)
    }
}

/// Whether a part that modules share is handed out by the script: only functions and data are not.
pub open spec fn is_reexported(
    program_info: &SplitProgramInfo,
    module: &OutputModuleInfo,
    dep: DepNode,
) -> bool {
    &&& program_info.shared_deps@.contains(dep)
    &&& !(dep is Function)
    &&& !(dep is DataSymbol)
    &&& module.included_symbols@.contains(dep)
}

/// The names of parts, with a comma behind each.
pub open spec fn shares_text(names: Map<DepNode, String>, deps: Seq<DepNode>) -> Seq<char>
    decreases deps.len(),
{
    if deps.len() == 0 {
        Seq::empty()
    } else {
        shares_text(names, deps.drop_last()) + names[deps.last()]@ + ", "@
    }
}

/// `deps` are the parts of a module that the script hands out, each once.
pub open spec fn are_reexported(
    program_info: &SplitProgramInfo,
    module: &OutputModuleInfo,
    deps: Seq<DepNode>,
) -> bool {
    &&& deps.no_duplicates()
    &&& forall|dep: DepNode| #[trigger]
        deps.contains(dep) <==> is_reexported(program_info, module, dep)
}

/// Whether all parts that the script hands out have a name.
pub open spec fn names_exist(
    emit_state: &EmitState,
    program_info: &SplitProgramInfo,
    module: &OutputModuleInfo,
) -> bool {
    forall|dep: DepNode| #[trigger]
        is_reexported(program_info, module, dep) ==> emit_state.names@.contains_key(dep)
}

/// Lists the parts of a module that the script hands out, in no particular order.
fn reexported_shared_symbols(
    emit_state: &EmitState,
    program_info: &SplitProgramInfo,
    module: &OutputModuleInfo,
) -> (shares: String)
    requires
        names_exist(emit_state, program_info, module),
    ensures
        exists|deps: Seq<DepNode>|
            are_reexported(program_info, module, deps) && shares@ == #[trigger] shares_text(
                emit_state.names@,
                deps,
            ),
{
    let all = program_info.shared_deps.to_vec();
    let mut shares = String::new();
    let ghost mut found: Seq<DepNode> = Seq::empty();
    assert(shares@ =~= Seq::<char>::empty());
    for i in 0..all.len()
        invariant
            names_exist(emit_state, program_info, module),
            all@.no_duplicates(),
            all@.to_set() == program_info.shared_deps@,
            found.no_duplicates(),
            forall|dep: DepNode| #[trigger]
                found.contains(dep) <==> is_reexported(program_info, module, dep) && all@.take(
                    i as int,
                ).contains(dep),
            shares@ == shares_text(emit_state.names@, found),
    {
        let dep = &all[i];
        let ghost before = found;
        let ghost part = all@.take(i as int);
        let ghost more = all@.take(i + 1);
        proof {
            assert(all@.to_set().contains(*dep));
            assert forall|d: DepNode| #[trigger] more.contains(d) <==> part.contains(d) || d
                == *dep by {
                if more.contains(d) {
                    let j = choose|j: int| 0 <= j < more.len() && more[j] == d;
                    if j < i {
                        assert(part[j] == d);
                    }
                }
                if part.contains(d) {
                    let j = choose|j: int| 0 <= j < part.len() && part[j] == d;
                    assert(more[j] == d);
                }
                assert(more[i as int] == *dep);
            }
            assert(!part.contains(*dep)) by {
                if part.contains(*dep) {
                    let j = choose|j: int| 0 <= j < part.len() && part[j] == *dep;
                    assert(all@[j] == all@[i as int]);
                }
            }
        }
        let is_named = match dep {
            DepNode::Function(_) | DepNode::DataSymbol(_) => false,
            _ => true,
        };
        if is_named && module.included_symbols.contains(dep) {
            assert(is_reexported(program_info, module, *dep));
            shares.append(emit_state.name_for(dep));
            shares.append(", ");
            proof {
                found = found.push(*dep);
                assert(found.drop_last() =~= before);
                assert forall|d: DepNode| #[trigger] found.contains(d) <==> before.contains(d) || d
                    == *dep by {
                    assert(found[before.len() as int] == *dep);
                    if before.contains(d) {
                        let j = choose|j: int| 0 <= j < before.len() && before[j] == d;
                        assert(found[j] == d);
                    }
                }
                assert(!before.contains(*dep));
            }
        } else {
            assert(!is_reexported(program_info, module, *dep));
        }
    }
    proof {
        assert(all@.take(all@.len() as int) =~= all@);
        assert forall|dep: DepNode| #[trigger] found.contains(dep) <==> is_reexported(
            program_info,
            module,
            dep,
        ) by {
            assert(all@.to_set().contains(dep) <==> all@.contains(dep));
        }
        assert(are_reexported(program_info, module, found));
    }
    shares
}

/// The main module's position.
pub open spec fn main_position(modules: Modules) -> int {
    choose|i: int| 0 <= i < modules.len() && (#[trigger] modules[i]).0@ == ModuleId::Main
}

/// The script for a program, when `shares` lists what the main module hands out.
pub open spec fn link_text(
    main_module_path: Seq<char>,
    program_info: &SplitProgramInfo,
    check: bool,
    snippets: Snippets,
    shares: Seq<char>,
) -> Seq<char> {
    let modules = program_info.output_modules@;
    main_import_text(main_module_path) + shared_imports_text(
        canary_text(check, program_info.canary_export_name@),
        shares,
    ) + runtime_text(check, snippets) + chunks_text(modules, modules.len() as int) + loaders_text(
        modules,
        0,
    )
}

/// `script` links the split modules of a program to its main module, and `files` are worth loading early.
pub open spec fn links(
    main_module_path: Seq<char>,
    program_info: &SplitProgramInfo,
    emit_state: &EmitState,
    snippets: Snippets,
    script: Seq<char>,
    files: Map<Seq<char>, Vec<String>>,
) -> bool {
    &&& exists|deps: Seq<DepNode>|
        are_reexported(
            program_info,
            &program_info.output_modules@[main_position(program_info.output_modules@)].1,
            deps,
        ) && script == link_text(
            main_module_path,
            program_info,
            emit_state.input_module.options.debug_assertions,
            snippets,
            #[trigger] shares_text(emit_state.names@, deps),
        )
    &&& prefetches(program_info.output_modules@, files)
}

/// Writes the script that links split modules to the main module.
pub fn link_module<'p>(
    main_module_path: &str,
    program_info: &'p SplitProgramInfo,
    emit_state: &EmitState<'p>,
    snippets: &Snippets,
) -> (writer: LinkModuleWriter<'p>)
    requires
        in_order(program_info.output_modules@),
        has_module(program_info.output_modules@, ModuleId::Main),
        names_exist(
            emit_state,
            program_info,
            &program_info.output_modules@[main_position(program_info.output_modules@)].1,
        ),
    ensures
        writer.wf(),
        links(
            main_module_path@,
            program_info,
            emit_state,
            *snippets,
            writer.script(),
            writer.prefetched(),
        ),
{
    let mut link_module = LinkModuleWriter::new(program_info, emit_state);
    let modules = &program_info.output_modules;
    let ghost all = modules@;
    let mut main: usize = 0;
    while main < modules.len()
        invariant
            all == modules@,
            main <= all.len(),
            forall|j: int| 0 <= j < main ==> (#[trigger] all[j]).0@ != ModuleId::Main,
        ensures
            main == all.len() || all[main as int].0@ == ModuleId::Main,
        decreases all.len() - main,
    {
        if let SplitModuleIdentifier::Main = &modules[main].0 {
            break;
        }
        main += 1;
    }
    proof {
        let k = main_position(all);
        assert(0 <= k < all.len() && all[k].0@ == ModuleId::Main);
        lemma_modules_total();
        let less = modules_less();
        assert(!less(ModuleId::Main, ModuleId::Main));
        if main < k {
            assert(less(ids(all)[main as int], ids(all)[k]));
        } else if k < main {
            assert(less(ids(all)[k], ids(all)[main as int]));
        }
    }
    let main_shared = reexported_shared_symbols(emit_state, program_info, &modules[main].1);
    link_module.write_main_import(main_module_path);
    link_module.write_get_shared_imports(main_shared.as_str());
    link_module.write_runtime(snippets);
    link_module.write_loaders(program_info);
    proof {
        let check = emit_state.input_module.options.debug_assertions;
        assert(link_module.script() =~= link_text(
            main_module_path@,
            program_info,
            check,
            *snippets,
            main_shared@,
        ));
    }
    link_module
}

/// The loader of the declared module at a position is in the script.
pub proof fn lemma_loader_written(modules: Modules, m: int)
    requires
        0 <= m < modules.len(),
    ensures
        exists|before: Seq<char>, after: Seq<char>|
            loaders_text(modules, 0) == #[trigger] (before + loader_text(modules, m) + after),
{
    let before = loaders_text(modules, m + 1);
    let after = lemma_loaders_end(modules, m);
    assert(loaders_text(modules, 0) =~= before + loader_text(modules, m) + after);
}

/// The lines for the declared modules from position `m` on come first.
proof fn lemma_loaders_end(modules: Modules, m: int) -> (after: Seq<char>)
    requires
        0 <= m < modules.len(),
    ensures
        loaders_text(modules, 0) == loaders_text(modules, m) + after,
    decreases m,
{
    if m == 0 {
        assert(loaders_text(modules, 0) + Seq::<char>::empty() =~= loaders_text(modules, 0));
        Seq::empty()
    } else {
        let rest = lemma_loaders_end(modules, m - 1);
        let after = loader_text(modules, m - 1) + rest;
        assert(loaders_text(modules, 0) =~= loaders_text(modules, m) + after);
        after
    }
}

} // verus!
