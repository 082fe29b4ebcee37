//! The modules of a package: those that can be reached through public submodules.

use vstd::prelude::*;
use vstd::string::*;

use crate::assembler::Module;
use crate::graph::{child_lists, closed, is_path, reaches};
use crate::path::{
    is_before, law_text_order_total, law_text_order_transitive, text_before, Path, SymbolPath,
};
use crate::trimmer::texts;
use crate::type_expr::ordered;

verus! {

/// A module of a package and the names of its public submodules.
pub struct PackageModule {
    pub path: Path,
    pub submodules: Vec<String>,
}

// REACHABLE NODES
// ================================================================================================

/// How many of the first `k` flags are not set.
pub open spec fn unset(flags: Seq<bool>, k: nat) -> nat
    decreases k,
{
    if k == 0 {
        0
    } else {
        unset(flags, (k - 1) as nat) + if flags[k - 1] {
            0nat
        } else {
            1nat
        }
    }
}

proof fn lemma_unset(flags: Seq<bool>, t: int, k: nat)
    requires
        0 <= t < flags.len(),
        k <= flags.len(),
        !flags[t],
    ensures
        unset(flags.update(t, true), k) == unset(flags, k) - if t < k {
            1int
        } else {
            0int
        },
    decreases k,
{
    if k > 0 {
        lemma_unset(flags, t, (k - 1) as nat);
    }
}

/// A node is flagged, or waits.
pub open spec fn seen(flags: Seq<bool>, waiting: Seq<u32>, x: u32) -> bool {
    (x < flags.len() && flags[x as int]) || waiting.contains(x)
}

/// A step from a node that can be reached leads to one that can be reached.
proof fn lemma_reaches_child(children: Seq<Seq<u32>>, roots: Seq<u32>, x: u32, j: int)
    requires
        closed(children),
        reaches(children, roots, x),
        0 <= j < children[x as int].len(),
        x < children.len(),
    ensures
        reaches(children, roots, children[x as int][j]),
{
    let y = children[x as int][j];
    let path = choose|path: Seq<u32>|
        #[trigger] is_path(children, path) && roots.contains(path[0]) && path.last() == x;
    let longer = path.push(y);
    assert(children[x as int].contains(y));
    assert(is_path(children, longer)) by {
        assert forall|i: int| 0 <= i < longer.len() implies (#[trigger] longer[i])
            < children.len() by {
            if i < path.len() {
                assert(path[i] < children.len());
            }
        }
        assert forall|i: int| 0 <= i < longer.len() - 1 implies children[#[trigger] longer[i] as int].contains(
            longer[i + 1],
        ) by {
            if i < path.len() - 1 {
                assert(children[path[i] as int].contains(path[i + 1]));
            }
        }
    }
    assert(longer[0] == path[0]);
    assert(longer.last() == y);
}

/// Where roots are flagged and flags pass on to children, everything that can be reached is
/// flagged.
proof fn lemma_flags_complete(
    children: Seq<Seq<u32>>,
    roots: Seq<u32>,
    flags: Seq<bool>,
    path: Seq<u32>,
    k: nat,
)
    requires
        flags.len() == children.len(),
        forall|i: int| 0 <= i < roots.len() ==> flags[#[trigger] roots[i] as int],
        forall|x: int, j: int|
            0 <= x < children.len() && flags[x] && 0 <= j < children[x].len()
                ==> flags[#[trigger] children[x][j] as int],
        is_path(children, path),
        roots.contains(path[0]),
        0 < k <= path.len(),
    ensures
        flags[path[k - 1] as int],
    decreases k,
{
    if k == 1 {
        let i = choose|i: int| 0 <= i < roots.len() && roots[i] == path[0];
        assert(flags[roots[i] as int]);
    } else {
        lemma_flags_complete(children, roots, flags, path, (k - 1) as nat);
        let x = path[k - 2];
        assert(x < children.len());
        let list = children[path[k - 2] as int];
        assert(list.contains(path[k - 2 + 1]));
        let j = choose|j: int| 0 <= j < list.len() && list[j] == path[k - 1];
        assert(flags[children[x as int][j] as int]);
    }
}

/// Flags the nodes that can be reached from roots.
pub fn reachable(children: &Vec<Vec<u32>>, roots: &Vec<u32>) -> (flags: Vec<bool>)
    requires
        closed(child_lists(children@)),
        children@.len() <= u32::MAX,
        forall|i: int| 0 <= i < roots@.len() ==> (#[trigger] roots@[i]) < children@.len(),
    ensures
        flags@.len() == children@.len(),
        forall|x: u32|
            x < children@.len() ==> (#[trigger] flags@[x as int] <==> reaches(
                child_lists(children@),
                roots@,
                x,
            )),
{
    let ghost lists = child_lists(children@);
    let n: usize = children.len();
    let mut flags: Vec<bool> = Vec::new();
    while flags.len() < n
        invariant
            flags@.len() <= n,
            forall|i: int| 0 <= i < flags@.len() ==> !#[trigger] flags@[i],
        decreases n - flags@.len(),
    {
        flags.push(false);
    }
    let mut stack = crate::debug_info::copy_vec(roots);
    proof {
        assert forall|i: int| 0 <= i < roots@.len() implies seen(
            flags@,
            stack@,
            #[trigger] roots@[i],
        ) by {
            assert(stack@[i] == roots@[i]);
        }
        assert forall|i: int| 0 <= i < stack@.len() implies reaches(
            lists,
            roots@,
            #[trigger] stack@[i],
        ) && stack@[i] < n by {
            let path = seq![roots@[i]];
            assert(roots@[i] < children@.len());
            assert(is_path(lists, path));
            assert(roots@.contains(path[0]));
            assert(path.last() == roots@[i]);
        }
    }
    loop
        invariant
            lists == child_lists(children@),
            lists.len() == children@.len(),
            closed(lists),
            n == children@.len() == flags@.len(),
            forall|i: int| 0 <= i < roots@.len() ==> seen(flags@, stack@, #[trigger] roots@[i]),
            forall|i: int|
                0 <= i < stack@.len() ==> reaches(lists, roots@, #[trigger] stack@[i]) && stack@[i]
                    < n,
            forall|x: u32| x < n && #[trigger] flags@[x as int] ==> reaches(lists, roots@, x),
            forall|x: int, j: int|
                0 <= x < n && flags@[x] && 0 <= j < lists[x].len() ==> seen(
                    flags@,
                    stack@,
                    #[trigger] lists[x][j],
                ),
        ensures
            stack@.len() == 0,
        decreases unset(flags@, n as nat), stack@.len(),
    {
        let ghost before = stack@;
        let ghost marked = flags@;
        let x: u32 = match stack.pop() {
            Some(x) => x,
            None => {
                break;
            },
        };
        assert(before =~= stack@.push(x));
        assert(before[before.len() - 1] == x);
        if flags[x as usize] {
            proof {
                assert forall|y: u32| #[trigger] seen(marked, before, y) implies seen(
                    flags@,
                    stack@,
                    y,
                ) by {
                    if before.contains(y) && y != x {
                        let i = choose|i: int| 0 <= i < before.len() && before[i] == y;
                        assert(stack@[i] == y);
                    }
                }
            }
            continue;
        }
        proof {
            lemma_unset(marked, x as int, n as nat);
        }
        flags[x as usize] = true;
        let list = &children[x as usize];
        assert(lists[x as int] == list@);
        let ghost rest = stack@;
        let mut j: usize = 0;
        while j < list.len()
            invariant
                j <= list@.len(),
                lists == child_lists(children@),
                closed(lists),
                x < n == children@.len() == lists.len(),
                lists[x as int] == list@,
                reaches(lists, roots@, x),
                stack@.len() == rest.len() + j,
                forall|i: int| 0 <= i < rest.len() ==> #[trigger] stack@[i] == rest[i],
                forall|i: int| 0 <= i < j ==> #[trigger] stack@[rest.len() + i] == list@[i],
                forall|i: int|
                    0 <= i < stack@.len() ==> reaches(lists, roots@, #[trigger] stack@[i])
                        && stack@[i] < n,
            decreases list@.len() - j,
        {
            proof {
                lemma_reaches_child(lists, roots@, x, j as int);
                assert(lists[x as int][j as int] < lists.len());
            }
            stack.push(list[j]);
            j += 1;
        }
        proof {
            assert forall|y: u32| #[trigger] seen(marked, before, y) implies seen(
                flags@,
                stack@,
                y,
            ) by {
                if before.contains(y) && y != x {
                    let i = choose|i: int| 0 <= i < before.len() && before[i] == y;
                    assert(rest[i] == y);
                    assert(stack@[i] == y);
                }
            }
            assert forall|z: int, j: int|
                0 <= z < n && flags@[z] && 0 <= j < lists[z].len() implies seen(
                flags@,
                stack@,
                #[trigger] lists[z][j],
            ) by {
                if z == x {
                    assert(stack@[rest.len() + j] == list@[j]);
                } else {
                    assert(marked[z]);
                    assert(seen(marked, before, lists[z][j]));
                }
            }
        }
    }
    proof {
        assert forall|x: u32| x < children@.len() implies (#[trigger] flags@[x as int] <==> reaches(
            lists,
            roots@,
            x,
        )) by {
            if reaches(lists, roots@, x) {
                let path = choose|path: Seq<u32>|
                    #[trigger] is_path(lists, path) && roots@.contains(path[0]) && path.last()
                        == x;
                assert forall|i: int| 0 <= i < roots@.len() implies flags@[#[trigger] roots@[
                i] as int] by {
                    assert(seen(flags@, stack@, roots@[i]));
                }
                assert forall|z: int, j: int|
                    0 <= z < lists.len() && flags@[z] && 0 <= j < lists[z].len() implies flags@[
                #[trigger] lists[z][j] as int] by {
                    assert(seen(flags@, stack@, lists[z][j]));
                }
                lemma_flags_complete(lists, roots@, flags@, path, path.len());
            }
        }
    }
    flags
}

// MODULES OF A PACKAGE
// ================================================================================================

/// The first of the first `k` modules with a path.
pub open spec fn module_index(modules: Seq<Module>, path: SymbolPath, k: nat) -> Option<nat>
    decreases k,
{
    if k == 0 {
        None
    } else {
        match module_index(modules, path, (k - 1) as nat) {
            Some(i) => Some(i),
            None => if modules[k - 1].path@ == path {
                Some((k - 1) as nat)
            } else {
                None
            },
        }
    }
}

proof fn lemma_module_index(modules: Seq<Module>, path: SymbolPath, k: nat)
    ensures
        module_index(modules, path, k) matches Some(i) ==> i < k,
    decreases k,
{
    if k > 0 {
        lemma_module_index(modules, path, (k - 1) as nat);
    }
}

/// The modules of the public ones among the first `k` submodules of module `m`.
pub open spec fn public_children(modules: Seq<Module>, m: int, k: nat) -> Seq<u32>
    decreases k,
{
    if k == 0 {
        Seq::empty()
    } else {
        let before = public_children(modules, m, (k - 1) as nat);
        let decl = modules[m].submodules@[k - 1];
        match module_index(modules, modules[m].path@.join(decl.name@), modules.len()) {
            Some(i) => if decl.visibility is Public {
                before.push(i as u32)
            } else {
                before
            },
            None => before,
        }
    }
}

/// The public submodules of each module.
pub open spec fn submodule_lists(modules: Seq<Module>) -> Seq<Seq<u32>> {
    Seq::new(
        modules.len(),
        |m: int| public_children(modules, m, modules[m].submodules@.len()),
    )
}

/// The names of the public ones among the first `k` submodules of a module.
pub open spec fn public_names(module: Module, k: nat) -> Seq<Seq<char>>
    decreases k,
{
    if k == 0 {
        Seq::empty()
    } else {
        let before = public_names(module, (k - 1) as nat);
        if module.submodules@[k - 1].visibility is Public {
            before.push(module.submodules@[k - 1].name@)
        } else {
            before
        }
    }
}

/// A module as a part of a package.
pub open spec fn describes_module(module: Module, entry: PackageModule) -> bool {
    &&& entry.path@ == module.path@
    &&& texts(entry.submodules@) == public_names(module, module.submodules@.len())
}

fn find_module_index(modules: &Vec<Module>, path: &Path) -> (found: Option<usize>)
    ensures
        match found {
            Some(i) => i < modules@.len() && module_index(modules@, path@, modules@.len()) == Some(
                i as nat,
            ),
            None => module_index(modules@, path@, modules@.len()) is None,
        },
{
    let mut found: Option<usize> = None;
    let mut i: usize = 0;
    while i < modules.len()
        invariant
            i <= modules@.len(),
            match found {
                Some(k) => k < i && module_index(modules@, path@, i as nat) == Some(k as nat),
                None => module_index(modules@, path@, i as nat) is None,
            },
        decreases modules@.len() - i,
    {
        if found.is_none() && modules[i].path.same_as(path) {
            found = Some(i);
        }
        i += 1;
    }
    found
}

fn submodule_table(modules: &Vec<Module>) -> (children: Vec<Vec<u32>>)
    requires
        modules@.len() <= u32::MAX,
    ensures
        child_lists(children@) == submodule_lists(modules@),
        closed(submodule_lists(modules@)),
{
    let mut children: Vec<Vec<u32>> = Vec::new();
    let mut m: usize = 0;
    while m < modules.len()
        invariant
            m <= modules@.len() <= u32::MAX,
            children@.len() == m,
            forall|k: int|
                0 <= k < m ==> (#[trigger] children@[k])@ == submodule_lists(modules@)[k],
            forall|k: int, j: int|
                0 <= k < m && 0 <= j < children@[k]@.len() ==> (#[trigger] children@[k]@[j])
                    < modules@.len(),
        decreases modules@.len() - m,
    {
        let module = &modules[m];
        let mut list: Vec<u32> = Vec::new();
        let mut i: usize = 0;
        assert(list@ =~= public_children(modules@, m as int, 0));
        while i < module.submodules.len()
            invariant
                i <= module.submodules@.len(),
                m < modules@.len() <= u32::MAX,
                *module == modules@[m as int],
                list@ == public_children(modules@, m as int, i as nat),
                forall|j: int| 0 <= j < list@.len() ==> (#[trigger] list@[j]) < modules@.len(),
            decreases module.submodules@.len() - i,
        {
            let decl = &module.submodules[i];
            if decl.visibility.is_public() {
                let path = module.path.copy().join(decl.name.clone());
                if let Some(child) = find_module_index(modules, &path) {
                    list.push(child as u32);
                }
            }
            i += 1;
        }
        children.push(list);
        m += 1;
    }
    proof {
        assert(child_lists(children@) =~= submodule_lists(modules@));
        let lists = submodule_lists(modules@);
        assert forall|k: int, j: int| 0 <= k < lists.len() && 0 <= j < lists[k].len() implies (
        #[trigger] lists[k][j]) < lists.len() by {
            assert(children@[k]@[j] < modules@.len());
        }
    }
    children
}

fn describe_module(module: &Module) -> (entry: PackageModule)
    ensures
        describes_module(*module, entry),
{
    let mut submodules: Vec<String> = Vec::new();
    let mut i: usize = 0;
    assert(texts(submodules@) =~= Seq::empty());
    while i < module.submodules.len()
        invariant
            i <= module.submodules@.len(),
            texts(submodules@) == public_names(*module, i as nat),
        decreases module.submodules@.len() - i,
    {
        let decl = &module.submodules[i];
        if decl.visibility.is_public() {
            let ghost before = texts(submodules@);
            submodules.push(decl.name.clone());
            assert(texts(submodules@) =~= before.push(decl.name@));
        }
        i += 1;
    }
    PackageModule { path: module.path.copy(), submodules }
}

pub open spec fn entry_texts(entries: Seq<PackageModule>) -> Seq<Seq<char>> {
    Seq::new(entries.len(), |i: int| entries[i].path@.text())
}

/// Module `m` is in a package.
#[verifier::opaque]
pub open spec fn is_listed_module(
    modules: Seq<Module>,
    entries: Seq<PackageModule>,
    m: int,
) -> bool {
    exists|i: int| 0 <= i < entries.len() && describes_module(modules[m], #[trigger] entries[i])
}

/// An entry is one of the first `n` modules, and can be reached.
#[verifier::opaque]
pub open spec fn is_module_entry(
    modules: Seq<Module>,
    list: Seq<u32>,
    entry: PackageModule,
    n: int,
) -> bool {
    exists|m: u32|
        m < n && #[trigger] reaches(submodule_lists(modules), list, m) && describes_module(
            modules[m as int],
            entry,
        )
}

/// Different modules have different paths.
pub open spec fn distinct_modules(modules: Seq<Module>) -> bool {
    forall|i: int, j: int|
        0 <= i < j < modules.len() ==> (#[trigger] modules[i]).path@.text() != (
        #[trigger] modules[j]).path@.text()
}

/// An entry goes to its place in the order of paths, unless its path is there.
fn insert_entry(entries: &mut Vec<PackageModule>, entry: PackageModule)
    requires
        ordered(entry_texts(old(entries)@)),
        forall|i: int|
            0 <= i < old(entries)@.len() ==> (#[trigger] old(entries)@[i]).path@.text()
                != entry.path@.text(),
    ensures
        ordered(entry_texts(final(entries)@)),
        exists|at: int|
            0 <= at <= old(entries)@.len() && final(entries)@ == #[trigger] old(entries)@.insert(
                at,
                entry,
            ),
{
    let ghost before = entries@;
    let ghost names = entry_texts(before);
    let text = entry.path.to_string();
    let ghost t = text@;
    let mut at: usize = 0;
    while at < entries.len() && is_before(entries[at].path.to_string().as_str(), text.as_str())
        invariant
            at <= entries@.len(),
            entries@ == before,
            names == entry_texts(before),
            t == text@,
            forall|k: int| 0 <= k < at ==> text_before(#[trigger] names[k], t),
        decreases entries@.len() - at,
    {
        at += 1;
    }
    proof {
        if at < before.len() {
            assert(before[at as int].path@.text() != t);
            law_text_order_total(names[at as int], t);
        }
    }
    let ghost added = entry;
    entries.insert(at, entry);
    proof {
        assert(entries@ =~= before.insert(at as int, added));
        let after = entry_texts(entries@);
        assert(after =~= names.insert(at as int, t));
        assert forall|i: int, j: int| 0 <= i < j < after.len() implies text_before(
            #[trigger] after[i],
            #[trigger] after[j],
        ) by {
            if i == at {
                assert(text_before(t, names[at as int]));
                if j - 1 > at {
                    law_text_order_transitive(t, names[at as int], names[j - 1]);
                }
            } else if j == at {
            } else {
                let x = if i < at {
                    i
                } else {
                    i - 1
                };
                let y = if j < at {
                    j
                } else {
                    j - 1
                };
                assert(after[i] == names[x]);
                assert(after[j] == names[y]);
            }
        }
    }
}

/// Entries are those of the modules in `list`, and of those that public submodules lead to from
/// there, in the order of their paths.
pub open spec fn are_package_modules(
    modules: Seq<Module>,
    list: Seq<u32>,
    entries: Seq<PackageModule>,
) -> bool {
    &&& ordered(entry_texts(entries))
    &&& forall|m: u32|
        m < modules.len() && reaches(submodule_lists(modules), list, m)
            ==> #[trigger] is_listed_module(modules, entries, m as int)
    &&& forall|i: int|
        0 <= i < entries.len() ==> #[trigger] is_module_entry(
            modules,
            list,
            entries[i],
            modules.len() as int,
        )
}

/// The modules of a package: those in `list`, and those that public submodules lead to from there,
/// in the order of their paths.
pub fn package_modules(modules: &Vec<Module>, list: &Vec<u32>) -> (entries: Vec<PackageModule>)
    requires
        modules@.len() <= u32::MAX,
        distinct_modules(modules@),
        forall|i: int| 0 <= i < list@.len() ==> (#[trigger] list@[i]) < modules@.len(),
    ensures
        are_package_modules(modules@, list@, entries@),
{
    let children = submodule_table(modules);
    assert(child_lists(children@).len() == children@.len());
    let flags = reachable(&children, list);
    let mut entries: Vec<PackageModule> = Vec::new();
    assert(entry_texts(entries@) =~= Seq::empty());
    let mut m: usize = 0;
    while m < modules.len()
        invariant
            m <= modules@.len() == flags@.len(),
            modules@.len() <= u32::MAX,
            forall|x: u32|
                x < modules@.len() ==> (#[trigger] flags@[x as int] <==> reaches(
                    submodule_lists(modules@),
                    list@,
                    x,
                )),
            distinct_modules(modules@),
            ordered(entry_texts(entries@)),
            forall|k: int|
                0 <= k < m && flags@[k] ==> #[trigger] is_listed_module(modules@, entries@, k),
            forall|i: int|
                0 <= i < entries@.len() ==> #[trigger] is_module_entry(
                    modules@,
                    list@,
                    entries@[i],
                    m as int,
                ),
        decreases modules@.len() - m,
    {
        let ghost before = entries@;
        if flags[m] {
            let entry = describe_module(&modules[m]);
            let ghost added = entry;
            proof {
                assert forall|i: int| 0 <= i < before.len() implies (
                #[trigger] before[i]).path@.text() != entry.path@.text() by {
                    assert(is_module_entry(modules@, list@, before[i], m as int));
                    reveal(is_module_entry);
                    let k = choose|k: u32|
                        k < m && #[trigger] reaches(submodule_lists(modules@), list@, k)
                            && describes_module(modules@[k as int], before[i]);
                    assert(modules@[k as int].path@.text() != modules@[m as int].path@.text());
                }
            }
            insert_entry(&mut entries, entry);
            proof {
                let at = choose|at: int|
                    0 <= at <= before.len() && entries@ == #[trigger] before.insert(at, added);
                let now = entries@;
                reveal(is_listed_module);
                reveal(is_module_entry);
                assert forall|k: int| 0 <= k < m + 1 && flags@[k] implies #[trigger]
                is_listed_module(modules@, now, k) by {
                    if k < m {
                        assert(is_listed_module(modules@, before, k));
                        let i = choose|i: int|
                            0 <= i < before.len() && describes_module(
                                modules@[k],
                                #[trigger] before[i],
                            );
                        let x = if i < at {
                            i
                        } else {
                            i + 1
                        };
                        assert(now[x] == before[i]);
                    } else {
                        assert(now[at] == added);
                    }
                }
                assert forall|i: int| 0 <= i < now.len() implies #[trigger] is_module_entry(
                    modules@,
                    list@,
                    now[i],
                    m + 1,
                ) by {
                    if i == at {
                        assert(flags@[(m as u32) as int]);
                        assert(reaches(submodule_lists(modules@), list@, m as u32));
                    } else {
                        let x = if i < at {
                            i
                        } else {
                            i - 1
                        };
                        assert(now[i] == before[x]);
                        assert(is_module_entry(modules@, list@, before[x], m as int));
                    }
                }
            }
        } else {
            proof {
                assert forall|i: int| 0 <= i < before.len() implies #[trigger] is_module_entry(
                    modules@,
                    list@,
                    before[i],
                    m + 1,
                ) by {
                    assert(is_module_entry(modules@, list@, before[i], m as int));
                    reveal(is_module_entry);
                }
            }
        }
        m += 1;
    }
    proof {
        assert forall|m: u32| m < modules@.len() && reaches(submodule_lists(modules@), list@, m) implies
            #[trigger] is_listed_module(modules@, entries@, m as int) by {
            assert(flags@[m as int]);
        }
    }
    entries
}

proof fn lemma_public_names(module: Module, k: nat, name: Seq<char>)
    requires
        k <= module.submodules@.len(),
    ensures
        public_names(module, k).contains(name) <==> exists|i: int|
            0 <= i < k && (#[trigger] module.submodules@[i]).visibility is Public
                && module.submodules@[i].name@ == name,
    decreases k,
{
    if k > 0 {
        lemma_public_names(module, (k - 1) as nat, name);
        let before = public_names(module, (k - 1) as nat);
        let decl = module.submodules@[k - 1];
        if decl.visibility is Public {
            let all = before.push(decl.name@);
            assert(all[before.len() as int] == decl.name@);
            if before.contains(name) {
                assert(all[before.index_of(name)] == name);
            }
            if all.contains(name) && name != decl.name@ {
                assert(before[all.index_of(name)] == name);
            }
        }
    }
}

/// The entry of a module names its public submodules, and no private one.
pub proof fn law_entries_name_public_submodules(module: Module, entry: PackageModule, name: Seq<char>)
    requires
        describes_module(module, entry),
    ensures
        texts(entry.submodules@).contains(name) <==> exists|i: int|
            0 <= i < module.submodules@.len() && (
            #[trigger] module.submodules@[i]).visibility is Public && module.submodules@[i].name@
                == name,
        entry.path@ == module.path@,
{
    lemma_public_names(module, module.submodules@.len(), name);
}

proof fn lemma_module_of_path(modules: Seq<Module>, path: SymbolPath, k: nat)
    requires
        k <= modules.len(),
    ensures
        match module_index(modules, path, k) {
            Some(i) => i < k && modules[i as int].path@ == path,
            None => forall|j: int| 0 <= j < k ==> (#[trigger] modules[j]).path@ != path,
        },
    decreases k,
{
    if k > 0 {
        lemma_module_of_path(modules, path, (k - 1) as nat);
    }
}

/// A module leads to another, for those who see the package from outside, if and only if it declares
/// the other as public: one that has its path and the declared name.
pub proof fn law_modules_lead_to_public_submodules(modules: Seq<Module>, m: int, k: nat, c: u32)
    requires
        0 <= m < modules.len() <= u32::MAX,
        k <= modules[m].submodules@.len(),
        c < modules.len(),
        distinct_modules(modules),
    ensures
        public_children(modules, m, k).contains(c) <==> exists|i: int|
            0 <= i < k && (#[trigger] modules[m].submodules@[i]).visibility is Public
                && modules[c as int].path@ == modules[m].path@.join(modules[m].submodules@[i].name@),
    decreases k,
{
    if k > 0 {
        law_modules_lead_to_public_submodules(modules, m, (k - 1) as nat, c);
        let before = public_children(modules, m, (k - 1) as nat);
        let decl = modules[m].submodules@[k - 1];
        let path = modules[m].path@.join(decl.name@);
        lemma_module_of_path(modules, path, modules.len());
        match module_index(modules, path, modules.len()) {
            Some(i) => {
                if modules[c as int].path@ == path && i != c {
                    if i < c {
                        assert(modules[i as int].path@.text() != modules[c as int].path@.text());
                    } else {
                        assert(modules[c as int].path@.text() != modules[i as int].path@.text());
                    }
                }
                if decl.visibility is Public {
                    let all = before.push(i as u32);
                    assert(all[before.len() as int] == i as u32);
                    if before.contains(c) {
                        assert(all[before.index_of(c)] == c);
                    }
                    if all.contains(c) && c != i {
                        assert(before[all.index_of(c)] == c);
                    }
                }
            },
            None => {},
        }
    }
}

} // verus!
