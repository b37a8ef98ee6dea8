//! Modules that are found without an import: by their name, by the
//! directory of the file that uses them, or by the name before a dot.

use crate::paths::{file_stem, file_stem_of, parent, parent_of};
use crate::pattern::{first_groups, groups_view, regex_first_groups};
use crate::table::{has_key, row_of, Entries, PathTable};
use crate::text::{
    contains, contains_seq, ends_with, ends_with_seq, lemma_strs_push, split, split_from, strs,
    to_chars, to_string, views,
};
use vstd::prelude::*;

verus! {

/// The modules of a project: for each directory the names of its modules,
/// and for each name the file of the module.
pub struct ReScriptAutoDiscovery {
    directory_modules: PathTable,
    module_registry: PathTable,
}

/// The file at `path` is a module: its name ends in `.res`, and it has a
/// stem and a parent.
pub open spec fn is_module(path: Seq<char>) -> bool {
    ends_with_seq(path, ".res"@) && file_stem_of(path) is Some && parent_of(path) is Some
}

/// The file at `path` is the module named `name`.
pub open spec fn names_module(path: Seq<char>, name: Seq<char>) -> bool {
    is_module(path) && file_stem_of(path) == Some(name)
}

/// The file at `path` is a module of the directory `dir`.
pub open spec fn lies_in(path: Seq<char>, dir: Seq<char>) -> bool {
    is_module(path) && parent_of(path) == Some(dir)
}

/// The last of the first `upto` files that is the module named `name`.
pub open spec fn last_module(files: Seq<Seq<char>>, name: Seq<char>, upto: int) -> Option<
    Seq<char>,
>
    decreases upto,
{
    if upto <= 0 {
        None
    } else if names_module(files[upto - 1], name) {
        Some(files[upto - 1])
    } else {
        last_module(files, name, upto - 1)
    }
}

/// The names of the modules of `dir` among the first `upto` files.
pub open spec fn modules_in(files: Seq<Seq<char>>, dir: Seq<char>, upto: int) -> Seq<Seq<char>>
    decreases upto,
{
    if upto <= 0 {
        Seq::empty()
    } else if lies_in(files[upto - 1], dir) {
        modules_in(files, dir, upto - 1).push(file_stem_of(files[upto - 1])->Some_0)
    } else {
        modules_in(files, dir, upto - 1)
    }
}

/// The path of the module named `name`, if there is one.
pub open spec fn module_file(modules: Entries, name: Seq<char>) -> Option<Seq<char>> {
    if has_key(modules, name) && row_of(modules, name).len() > 0 {
        Some(row_of(modules, name)[0])
    } else {
        None
    }
}

/// The path of the component `component` as the file `using_file` sees it:
/// that of the module of this name, where the directory of the file has a
/// module of this name.
pub open spec fn jsx_path(
    dirs: Entries,
    modules: Entries,
    using_file: Seq<char>,
    component: Seq<char>,
) -> Option<Seq<char>> {
    match parent_of(using_file) {
        Some(dir) => if row_of(dirs, dir).contains(component) {
            module_file(modules, component)
        } else {
            None
        },
        None => None,
    }
}

/// The path of the dependency `dep` of the file `using_file`: that of the
/// module of this name; else that of the component of this name in the
/// directory of the file; else that of the module named before the first
/// dot.
pub open spec fn rescript_path(
    dirs: Entries,
    modules: Entries,
    dep: Seq<char>,
    using_file: Seq<char>,
) -> Option<Seq<char>> {
    if module_file(modules, dep) is Some {
        module_file(modules, dep)
    } else if jsx_path(dirs, modules, using_file, dep) is Some {
        jsx_path(dirs, modules, using_file, dep)
    } else if contains_seq(dep, "."@) {
        module_file(modules, split_from(dep, "."@, 0)[0])
    } else {
        None
    }
}

/// The pattern that finds a capitalised tag and captures its name.
pub open spec fn component_pattern() -> Seq<char> {
    "<([A-Z][a-zA-Z0-9]*)\\b"@
}

/// The paths of the first `upto` components that the file sees.
pub open spec fn jsx_paths(
    dirs: Entries,
    modules: Entries,
    using_file: Seq<char>,
    components: Seq<Option<Seq<char>>>,
    upto: int,
) -> Seq<Seq<char>>
    decreases upto,
{
    if upto <= 0 {
        Seq::empty()
    } else {
        let before = jsx_paths(dirs, modules, using_file, components, upto - 1);
        match components[upto - 1] {
            Some(c) => match jsx_path(dirs, modules, using_file, c) {
                Some(p) => before.push(p),
                None => before,
            },
            None => before,
        }
    }
}

pub open spec fn opt_string(o: Option<String>) -> Option<Seq<char>> {
    match o {
        Some(s) => Some(s@),
        None => None,
    }
}

pub open spec fn components_view(c: Seq<Option<String>>) -> Seq<Option<Seq<char>>> {
    Seq::new(
        c.len(),
        |i: int|
            match c[i] {
                Some(g) => Some(g@),
                None => None,
            },
    )
}

impl ReScriptAutoDiscovery {
    /// The modules of each directory.
    pub closed spec fn directories(&self) -> Entries {
        self.directory_modules@
    }

    /// The file of each module.
    pub closed spec fn modules(&self) -> Entries {
        self.module_registry@
    }

    /// The registry is in order.
    pub closed spec fn wf(&self) -> bool {
        self.directory_modules.wf() && self.module_registry.wf()
    }

    pub fn new() -> (d: ReScriptAutoDiscovery)
        ensures
            d.wf(),
            d.directories() == Entries::empty(),
            d.modules() == Entries::empty(),
    {
        ReScriptAutoDiscovery {
            directory_modules: PathTable::new(),
            module_registry: PathTable::new(),
        }
    }

    /// Enters the file at `file_path`, if it is a module.
    pub fn register(&mut self, file_path: &str)
        requires
            old(self).wf(),
        ensures
            final(self).wf(),
            forall|name: Seq<char>|
                #![trigger module_file(final(self).modules(), name)]
                module_file(final(self).modules(), name) == if names_module(file_path@, name) {
                    Some(file_path@)
                } else {
                    module_file(old(self).modules(), name)
                },
            forall|dir: Seq<char>|
                #![trigger row_of(final(self).directories(), dir)]
                row_of(final(self).directories(), dir) == if lies_in(file_path@, dir) {
                    row_of(old(self).directories(), dir).push(file_stem_of(file_path@)->Some_0)
                } else {
                    row_of(old(self).directories(), dir)
                },
    {
        let chars = to_chars(file_path);
        if ends_with(&chars, &to_chars(".res")) {
            match file_stem(&chars) {
                Some(stem) => {
                    match parent(&chars) {
                        Some(dir) => {
                            let name = to_string(&stem);
                            let dir_name = to_string(&dir);
                            self.directory_modules.add(dir_name.as_str(), name.clone());
                            let mut row: Vec<String> = Vec::new();
                            row.push(file_path.to_owned());
                            assert(strs(row@) =~= seq![file_path@]);
                            self.module_registry.insert(name, row);
                        },
                        None => {},
                    }
                },
                None => {},
            }
        }
    }

    /// Enters every module among `files`: a file whose name ends in `.res`,
    /// with a stem, which is the name of the module, and a parent, which is
    /// its directory. Of two modules of one name the later one stays.
    pub fn build_registry(&mut self, files: &Vec<String>) -> (r: Result<(), String>)
        requires
            old(self).wf(),
        ensures
            final(self).wf(),
            r is Ok,
            forall|name: Seq<char>|
                #![trigger module_file(final(self).modules(), name)]
                module_file(final(self).modules(), name) == match last_module(
                    strs(files@),
                    name,
                    files@.len() as int,
                ) {
                    Some(p) => Some(p),
                    None => module_file(old(self).modules(), name),
                },
            forall|dir: Seq<char>|
                #![trigger row_of(final(self).directories(), dir)]
                row_of(final(self).directories(), dir) == row_of(old(self).directories(), dir)
                    + modules_in(strs(files@), dir, files@.len() as int),
    {
        let mut i: usize = 0;
        assert forall|dir: Seq<char>|
            #![trigger row_of(self.directories(), dir)]
            row_of(self.directories(), dir) == row_of(old(self).directories(), dir) + modules_in(
                strs(files@),
                dir,
                0,
            ) by {
            assert(row_of(old(self).directories(), dir) + Seq::<Seq<char>>::empty() =~= row_of(
                old(self).directories(),
                dir,
            ));
        }
        while i < files.len()
            invariant
                i <= files.len(),
                self.wf(),
                forall|name: Seq<char>|
                    #![trigger module_file(self.modules(), name)]
                    module_file(self.modules(), name) == match last_module(
                        strs(files@),
                        name,
                        i as int,
                    ) {
                        Some(p) => Some(p),
                        None => module_file(old(self).modules(), name),
                    },
                forall|dir: Seq<char>|
                    #![trigger row_of(self.directories(), dir)]
                    row_of(self.directories(), dir) == row_of(old(self).directories(), dir)
                        + modules_in(strs(files@), dir, i as int),
            decreases files.len() - i,
        {
            let ghost before_modules = self.modules();
            let ghost before_dirs = self.directories();
            self.register(files[i].as_str());
            proof {
                assert(strs(files@)[i as int] == files@[i as int]@);
                assert forall|name: Seq<char>|
                    #![trigger module_file(self.modules(), name)]
                    module_file(self.modules(), name) == match last_module(
                        strs(files@),
                        name,
                        i + 1,
                    ) {
                        Some(p) => Some(p),
                        None => module_file(old(self).modules(), name),
                    } by {
                    assert(module_file(before_modules, name) == match last_module(
                        strs(files@),
                        name,
                        i as int,
                    ) {
                        Some(p) => Some(p),
                        None => module_file(old(self).modules(), name),
                    });
                }
                assert forall|dir: Seq<char>|
                    #![trigger row_of(self.directories(), dir)]
                    row_of(self.directories(), dir) == row_of(old(self).directories(), dir)
                        + modules_in(strs(files@), dir, i + 1) by {
                    assert(row_of(before_dirs, dir) == row_of(old(self).directories(), dir)
                        + modules_in(strs(files@), dir, i as int));
                    if lies_in(files@[i as int]@, dir) {
                        assert((row_of(old(self).directories(), dir) + modules_in(
                            strs(files@),
                            dir,
                            i as int,
                        )).push(file_stem_of(files@[i as int]@)->Some_0) =~= row_of(
                            old(self).directories(),
                            dir,
                        ) + modules_in(strs(files@), dir, i + 1));
                    }
                }
            }
            i += 1;
        }
        Ok(())
    }

    fn lookup(&self, name: &str) -> (r: Option<String>)
        requires
            self.wf(),
        ensures
            opt_string(r) == module_file(self.modules(), name@),
    {
        match self.module_registry.get(name) {
            Some(row) => {
                if row.len() > 0 {
                    assert(strs(row@)[0] == row@[0]@);
                    Some(row[0].clone())
                } else {
                    None
                }
            },
            None => None,
        }
    }

    /// The path of the component `jsx_component` as the file `using_file`
    /// sees it.
    #[verifier::loop_isolation(false)]
    pub fn resolve_jsx_dependency(&self, using_file: &str, jsx_component: &str) -> (r: Option<
        String,
    >)
        requires
            self.wf(),
        ensures
            opt_string(r) == jsx_path(
                self.directories(),
                self.modules(),
                using_file@,
                jsx_component@,
            ),
    {
        match parent(&to_chars(using_file)) {
            Some(dir) => {
                let dir_name = to_string(&dir);
                let wanted: String = jsx_component.to_owned();
                proof {
                    crate::table::lemma_index_of(self.directory_modules@, dir@, 0);
                }
                match self.directory_modules.get(dir_name.as_str()) {
                    Some(row) => {
                        let mut i: usize = 0;
                        while i < row.len()
                            invariant
                                i <= row.len(),
                                self.wf(),
                                wanted@ == jsx_component@,
                                forall|j: int| 0 <= j < i ==> strs(row@)[j] != jsx_component@,
                            decreases row.len() - i,
                        {
                            if row[i] == wanted {
                                assert(strs(row@)[i as int] == jsx_component@);
                                assert(strs(row@).contains(jsx_component@));
                                return self.lookup(jsx_component);
                            }
                            i += 1;
                        }
                        None
                    },
                    None => {
                        assert(row_of(self.directory_modules@, dir@) =~= Seq::<
                            Seq<char>,
                        >::empty());
                        None
                    },
                }
            },
            None => None,
        }
    }

    /// The paths of the components that the file at `file_path` sees, given
    /// the names of the capitalised tags in its text.
    pub fn jsx_deps_of(&self, components: &Vec<Option<String>>, file_path: &str) -> (deps: Vec<
        String,
    >)
        requires
            self.wf(),
        ensures
            strs(deps@) == jsx_paths(
                self.directories(),
                self.modules(),
                file_path@,
                components_view(components@),
                components@.len() as int,
            ),
    {
        let mut deps: Vec<String> = Vec::new();
        let mut i: usize = 0;
        assert(strs(deps@) =~= Seq::<Seq<char>>::empty());
        while i < components.len()
            invariant
                i <= components.len(),
                self.wf(),
                strs(deps@) == jsx_paths(
                    self.directories(),
                    self.modules(),
                    file_path@,
                    components_view(components@),
                    i as int,
                ),
            decreases components.len() - i,
        {
            match &components[i] {
                Some(c) => {
                    match self.resolve_jsx_dependency(file_path, c.as_str()) {
                        Some(p) => {
                            proof {
                                lemma_strs_push(deps@, p);
                            }
                            deps.push(p);
                        },
                        None => {},
                    }
                },
                None => {},
            }
            i += 1;
        }
        deps
    }

    /// The paths of the components that the file at `file_path` with the
    /// text `content` sees. The components are what `component_pattern()`
    /// captures in the text.
    pub fn find_same_directory_jsx_deps(&self, content: &str, file_path: &str) -> (deps: Vec<
        String,
    >)
        requires
            self.wf(),
        ensures
            strs(deps@) == jsx_paths(
                self.directories(),
                self.modules(),
                file_path@,
                crate::guard::captures_or_none(regex_first_groups(component_pattern(), content@)),
                crate::guard::captures_or_none(
                    regex_first_groups(component_pattern(), content@),
                ).len() as int,
            ),
    {
        let found = first_groups("<([A-Z][a-zA-Z0-9]*)\\b", content);
        let components = match found {
            Some(c) => c,
            None => Vec::new(),
        };
        assert(components_view(components@) =~= crate::guard::captures_or_none(groups_view(found)));
        self.jsx_deps_of(&components, file_path)
    }

    /// The path of the dependency `dep` of the file `using_file`.
    pub fn resolve_rescript_dependency(&self, dep: &str, using_file: &str) -> (r: Option<String>)
        requires
            self.wf(),
        ensures
            opt_string(r) == rescript_path(
                self.directories(),
                self.modules(),
                dep@,
                using_file@,
            ),
    {
        match self.lookup(dep) {
            Some(p) => {
                return Some(p);
            },
            None => {},
        }
        match self.resolve_jsx_dependency(using_file, dep) {
            Some(p) => {
                return Some(p);
            },
            None => {},
        }
        let chars = to_chars(dep);
        let dot = to_chars(".");
        if contains(&chars, &dot) {
            let parts = split(&chars, &dot);
            assert(views(parts@)[0] == parts@[0]@);
            return self.lookup(to_string(&parts[0]).as_str());
        }
        None
    }
}

} // verus!
